//! Low-level wire text: the CR LF line terminator, decimal numerals, and
//! UTF-8 validity. Everything a RESP scalar line is made of.

use vstd::prelude::*;
use vstd::arithmetic::div_mod::lemma_fundamental_div_mod;

verus! {

pub const CR: u8 = 13;
pub const LF: u8 = 10;

/// The two-byte line terminator.
pub open spec fn crlf() -> Seq<u8> {
    seq![CR, LF]
}

/// Position of the first CR LF pair at or after `i`, or -1 if there is none.
pub open spec fn find_crlf(s: Seq<u8>, i: int) -> int
    decreases s.len() - i,
{
    if i + 1 >= s.len() {
        -1
    } else if s[i] == CR && s[i + 1] == LF {
        i
    } else {
        find_crlf(s, i + 1)
    }
}

pub proof fn lemma_find_crlf_props(s: Seq<u8>, i: int)
    requires
        0 <= i,
    ensures
        ({
            let k = find_crlf(s, i);
            k == -1 || (i <= k && k + 2 <= s.len() && s[k] == CR && s[k + 1] == LF)
        }),
    decreases s.len() - i,
{
    if i + 1 < s.len() && !(s[i] == CR && s[i + 1] == LF) {
        lemma_find_crlf_props(s, i + 1);
    }
}

/// Where a CR LF stands at `k` and no earlier pair exists, the search finds `k`.
pub proof fn lemma_find_crlf_at(s: Seq<u8>, i: int, k: int)
    requires
        0 <= i <= k,
        k + 2 <= s.len(),
        s[k] == CR,
        s[k + 1] == LF,
        forall|j: int| i <= j < k ==> !(#[trigger] s[j] == CR && s[j + 1] == LF),
    ensures
        find_crlf(s, i) == k,
    decreases k - i,
{
    if i < k {
        lemma_find_crlf_at(s, i + 1, k);
    }
}

/// A payload that survives being framed as a `<payload> CR LF` line:
/// it contains no CR LF pair of its own.
pub open spec fn line_ok(s: Seq<u8>) -> bool {
    forall|j: int| 0 <= j < s.len() - 1 ==> !(#[trigger] s[j] == CR && s[j + 1] == LF)
}

// ---------------------------------------------------------------------------
// Decimal numerals
// ---------------------------------------------------------------------------

pub open spec fn is_digit(b: u8) -> bool {
    48 <= b <= 57
}

pub open spec fn all_digits(s: Seq<u8>) -> bool {
    forall|i: int| 0 <= i < s.len() ==> is_digit(#[trigger] s[i])
}

/// The number a sequence of decimal digit bytes denotes.
pub open spec fn digits_value(s: Seq<u8>) -> int
    decreases s.len(),
{
    if s.len() == 0 {
        0
    } else {
        digits_value(s.drop_last()) * 10 + (s.last() - 48)
    }
}

/// The canonical decimal numeral of a non-negative number: no sign, no
/// leading zero except for the numeral `0` itself.
pub open spec fn dec_digits(n: int) -> Seq<u8>
    decreases n,
{
    if n < 10 {
        seq![(48 + n) as u8]
    } else {
        dec_digits(n / 10).push((48 + n % 10) as u8)
    }
}

/// The decimal numeral of a signed number: a leading `-` when negative.
pub open spec fn dec_int(n: int) -> Seq<u8> {
    if n < 0 {
        seq![45u8] + dec_digits(-n)
    } else {
        dec_digits(n)
    }
}

/// The digits of an unsigned numeral: an optional leading `+` is allowed.
pub open spec fn uint_digits(s: Seq<u8>) -> Seq<u8> {
    if s.len() > 0 && s[0] == 43 {
        s.skip(1)
    } else {
        s
    }
}

pub open spec fn is_uint_literal(s: Seq<u8>) -> bool {
    uint_digits(s).len() > 0 && all_digits(uint_digits(s))
}

pub open spec fn uint_literal_value(s: Seq<u8>) -> int {
    digits_value(uint_digits(s))
}

/// The digits of a signed numeral: an optional leading `+` or `-` is allowed.
pub open spec fn int_digits(s: Seq<u8>) -> Seq<u8> {
    if s.len() > 0 && (s[0] == 43 || s[0] == 45) {
        s.skip(1)
    } else {
        s
    }
}

pub open spec fn is_int_literal(s: Seq<u8>) -> bool {
    int_digits(s).len() > 0 && all_digits(int_digits(s))
}

pub open spec fn int_literal_value(s: Seq<u8>) -> int {
    if s.len() > 0 && s[0] == 45 {
        -digits_value(int_digits(s))
    } else {
        digits_value(int_digits(s))
    }
}

pub proof fn lemma_digits_value_nonneg(s: Seq<u8>)
    requires
        all_digits(s),
    ensures
        digits_value(s) >= 0,
    decreases s.len(),
{
    if s.len() > 0 {
        assert(all_digits(s.drop_last()));
        lemma_digits_value_nonneg(s.drop_last());
    }
}

/// The canonical numeral is made of digits and denotes its own number.
pub proof fn lemma_dec_digits(n: int)
    requires
        n >= 0,
    ensures
        dec_digits(n).len() >= 1,
        all_digits(dec_digits(n)),
        digits_value(dec_digits(n)) == n,
    decreases n,
{
    if n < 10 {
        let d = dec_digits(n);
        assert(d.drop_last() =~= Seq::<u8>::empty());
        assert(digits_value(Seq::<u8>::empty()) == 0);
        assert(d.last() == 48 + n);
        assert(digits_value(d) == n);
    } else {
        lemma_dec_digits(n / 10);
        let d = dec_digits(n / 10);
        let x = (48 + n % 10) as u8;
        assert(d.push(x).drop_last() =~= d);
        lemma_fundamental_div_mod(n, 10);
        assert(digits_value(dec_digits(n)) == n);
        assert forall|i: int| 0 <= i < d.push(x).len() implies is_digit(#[trigger] d.push(x)[i]) by {
            if i < d.len() {
                assert(is_digit(d[i]));
            }
        }
    }
}

/// Appending one digit multiplies the value by ten and adds the digit.
pub proof fn lemma_digits_value_step(s: Seq<u8>, i: int)
    requires
        0 <= i < s.len(),
    ensures
        digits_value(s.take(i + 1)) == digits_value(s.take(i)) * 10 + (s[i] - 48),
{
    assert(s.take(i + 1).drop_last() =~= s.take(i));
    assert(s.take(i + 1).last() == s[i]);
}

/// The value of a digit string bounds the value of each of its prefixes.
pub proof fn lemma_digits_value_take_le(s: Seq<u8>, i: int)
    requires
        all_digits(s),
        0 <= i <= s.len(),
    ensures
        digits_value(s.take(i)) <= digits_value(s),
    decreases s.len() - i,
{
    if i == s.len() {
        assert(s.take(i) =~= s);
    } else {
        lemma_digits_value_step(s, i);
        assert(all_digits(s.take(i)));
        lemma_digits_value_nonneg(s.take(i));
        lemma_digits_value_take_le(s, i + 1);
    }
}

/// The canonical unsigned numeral reads back as its own number, and can
/// stand as a line body: it holds no CR LF pair.
pub proof fn lemma_dec_uint_numeral(v: int)
    requires
        v >= 0,
    ensures
        dec_digits(v).len() >= 1,
        line_ok(dec_digits(v)),
        is_uint_literal(dec_digits(v)),
        uint_literal_value(dec_digits(v)) == v,
{
    lemma_dec_digits(v);
    let d = dec_digits(v);
    assert(is_digit(d[0]));
    assert(uint_digits(d) == d);
    assert forall|j: int| 0 <= j < d.len() - 1 implies !(#[trigger] d[j] == CR && d[j + 1] == LF) by {
        assert(is_digit(d[j]));
    }
}

/// The canonical signed numeral reads back as its own number, and can stand
/// as a line body: it holds no CR LF pair.
pub proof fn lemma_dec_int_numeral(v: int)
    ensures
        dec_int(v).len() >= 1,
        line_ok(dec_int(v)),
        is_int_literal(dec_int(v)),
        int_literal_value(dec_int(v)) == v,
{
    let d = dec_int(v);
    if v < 0 {
        lemma_dec_digits(-v);
        assert(d[0] == 45);
        assert(d.skip(1) =~= dec_digits(-v));
        assert(int_digits(d) == dec_digits(-v));
        assert forall|j: int| 0 <= j < d.len() - 1 implies !(#[trigger] d[j] == CR && d[j + 1]
            == LF) by {
            if j >= 1 {
                assert(d[j] == dec_digits(-v)[j - 1]);
                assert(is_digit(dec_digits(-v)[j - 1]));
            }
        }
    } else {
        lemma_dec_digits(v);
        assert(is_digit(d[0]));
        assert(int_digits(d) == d);
        assert forall|j: int| 0 <= j < d.len() - 1 implies !(#[trigger] d[j] == CR && d[j + 1]
            == LF) by {
            assert(is_digit(d[j]));
        }
    }
}

/// Writes the canonical decimal numeral of `n` onto the end of `out`.
pub fn push_decimal(n: u64, out: &mut Vec<u8>)
    ensures
        final(out)@ == old(out)@ + dec_digits(n as int),
    decreases n,
{
    if n < 10 {
        out.push((48 + n) as u8);
        assert(out@ =~= old(out)@ + dec_digits(n as int));
    } else {
        push_decimal(n / 10, out);
        out.push((48 + (n % 10)) as u8);
        assert(out@ =~= old(out)@ + dec_digits(n as int));
    }
}

// ---------------------------------------------------------------------------
// UTF-8 validity
// ---------------------------------------------------------------------------

/// A UTF-8 continuation byte.
pub open spec fn is_cont(b: u8) -> bool {
    128 <= b <= 191
}

/// Length of the well-formed UTF-8 character starting at `i`, or 0 when the
/// bytes at `i` do not begin one (overlong forms, surrogates, and values past
/// U+10FFFF are all rejected, as the UTF-8 definition requires).
pub open spec fn utf8_len_at(s: Seq<u8>, i: int) -> int {
    if !(0 <= i < s.len()) {
        0
    } else {
        let b0 = s[i];
        if b0 <= 0x7F {
            1
        } else if 0xC2 <= b0 <= 0xDF {
            if i + 2 <= s.len() && is_cont(s[i + 1]) {
                2
            } else {
                0
            }
        } else if b0 == 0xE0 {
            if i + 3 <= s.len() && 0xA0 <= s[i + 1] <= 0xBF && is_cont(s[i + 2]) {
                3
            } else {
                0
            }
        } else if 0xE1 <= b0 <= 0xEC || 0xEE <= b0 <= 0xEF {
            if i + 3 <= s.len() && is_cont(s[i + 1]) && is_cont(s[i + 2]) {
                3
            } else {
                0
            }
        } else if b0 == 0xED {
            if i + 3 <= s.len() && 0x80 <= s[i + 1] <= 0x9F && is_cont(s[i + 2]) {
                3
            } else {
                0
            }
        } else if b0 == 0xF0 {
            if i + 4 <= s.len() && 0x90 <= s[i + 1] <= 0xBF && is_cont(s[i + 2]) && is_cont(s[i + 3]) {
                4
            } else {
                0
            }
        } else if 0xF1 <= b0 <= 0xF3 {
            if i + 4 <= s.len() && is_cont(s[i + 1]) && is_cont(s[i + 2]) && is_cont(s[i + 3]) {
                4
            } else {
                0
            }
        } else if b0 == 0xF4 {
            if i + 4 <= s.len() && 0x80 <= s[i + 1] <= 0x8F && is_cont(s[i + 2]) && is_cont(s[i + 3]) {
                4
            } else {
                0
            }
        } else {
            0
        }
    }
}

pub open spec fn valid_utf8_from(s: Seq<u8>, i: int) -> bool
    decreases s.len() - i,
{
    if i >= s.len() {
        true
    } else {
        let k = utf8_len_at(s, i);
        if k == 0 {
            false
        } else {
            valid_utf8_from(s, i + k)
        }
    }
}

/// The byte sequence is well-formed UTF-8.
pub open spec fn is_valid_utf8(s: Seq<u8>) -> bool {
    valid_utf8_from(s, 0)
}

/// Decides UTF-8 validity of a byte string.
pub fn check_utf8(s: &[u8]) -> (r: bool)
    ensures
        r == is_valid_utf8(s@),
{
    let n = s.len();
    let mut i: usize = 0;
    while i < n
        invariant
            i <= n,
            n == s@.len(),
            is_valid_utf8(s@) == valid_utf8_from(s@, i as int),
        decreases n - i,
    {
        let b0: u8 = s[i];
        let k: usize = if b0 <= 0x7F {
            1
        } else if 0xC2 <= b0 && b0 <= 0xDF {
            if n - i >= 2 && 128 <= s[i + 1] && s[i + 1] <= 191 {
                2
            } else {
                0
            }
        } else if b0 == 0xE0 {
            if n - i >= 3 && 0xA0 <= s[i + 1] && s[i + 1] <= 0xBF && 128 <= s[i + 2] && s[i + 2]
                <= 191 {
                3
            } else {
                0
            }
        } else if (0xE1 <= b0 && b0 <= 0xEC) || (0xEE <= b0 && b0 <= 0xEF) {
            if n - i >= 3 && 128 <= s[i + 1] && s[i + 1] <= 191 && 128 <= s[i + 2] && s[i + 2]
                <= 191 {
                3
            } else {
                0
            }
        } else if b0 == 0xED {
            if n - i >= 3 && 0x80 <= s[i + 1] && s[i + 1] <= 0x9F && 128 <= s[i + 2] && s[i + 2]
                <= 191 {
                3
            } else {
                0
            }
        } else if b0 == 0xF0 {
            if n - i >= 4 && 0x90 <= s[i + 1] && s[i + 1] <= 0xBF && 128 <= s[i + 2] && s[i + 2]
                <= 191 && 128 <= s[i + 3] && s[i + 3] <= 191 {
                4
            } else {
                0
            }
        } else if 0xF1 <= b0 && b0 <= 0xF3 {
            if n - i >= 4 && 128 <= s[i + 1] && s[i + 1] <= 191 && 128 <= s[i + 2] && s[i + 2]
                <= 191 && 128 <= s[i + 3] && s[i + 3] <= 191 {
                4
            } else {
                0
            }
        } else if b0 == 0xF4 {
            if n - i >= 4 && 0x80 <= s[i + 1] && s[i + 1] <= 0x8F && 128 <= s[i + 2] && s[i + 2]
                <= 191 && 128 <= s[i + 3] && s[i + 3] <= 191 {
                4
            } else {
                0
            }
        } else {
            0
        };
        assert(k as int == utf8_len_at(s@, i as int));
        if k == 0 {
            return false;
        }
        i = i + k;
    }
    true
}

} // verus!
