//! The RESP value model (`Element`), its binary encoding, and the recursive
//! decoder. One `Element` stands for one RESP value of any type; aggregate
//! values nest. The decoder walks a byte slice from a position and consumes
//! exactly one complete value; the encoder produces the exact wire form.

use vstd::prelude::*;
use vstd::arithmetic::div_mod::lemma_fundamental_div_mod;
use crate::wire::{
    CR, LF, crlf, find_crlf, line_ok, all_digits, digits_value, dec_digits, dec_int,
    is_uint_literal, uint_literal_value, is_int_literal, int_literal_value,
    is_valid_utf8, check_utf8, push_decimal, lemma_find_crlf_props, lemma_find_crlf_at,
    lemma_digits_value_nonneg,
    lemma_digits_value_step, lemma_digits_value_take_le,
};

verus! {

/// One decoded RESP value.
#[derive(Debug, PartialEq)]
pub enum Element {
    SimpleString(Vec<u8>),
    Error(Vec<u8>),
    Integer(i32),
    BulkString(Vec<u8>),
    Array(Vec<Element>),
    Null,
    Boolean(bool),
}

/// The mathematical shape of a RESP value: what an `Element` holds, with
/// sequences for byte strings and unbounded integers for counts.
#[verifier::ext_equal]
pub enum Elem {
    SimpleString(Seq<u8>),
    Error(Seq<u8>),
    Integer(int),
    BulkString(Seq<u8>),
    Array(Seq<Elem>),
    Null,
    Boolean(bool),
}

impl Element {
    /// The model of this value.
    pub open spec fn view(&self) -> Elem
        decreases self via Self::view_decreases_proof
    {
        match self {
            Element::SimpleString(s) => Elem::SimpleString(s@),
            Element::Error(s) => Elem::Error(s@),
            Element::Integer(n) => Elem::Integer(*n as int),
            Element::BulkString(s) => Elem::BulkString(s@),
            Element::Array(es) => Elem::Array(views_of(es@)),
            Element::Null => Elem::Null,
            Element::Boolean(b) => Elem::Boolean(*b),
        }
    }

    #[via_fn]
    proof fn view_decreases_proof(&self) {
        match self {
            Element::Array(es) => {
                assert(decreases_to!(*self => *es));
                assert(decreases_to!(*es => es@));
            },
            _ => (),
        }
    }
}

/// The models of a sequence of values, in order.
pub open spec fn views_of(v: Seq<Element>) -> Seq<Elem>
    decreases v,
{
    if v.len() == 0 {
        Seq::<Elem>::empty()
    } else {
        views_of(v.drop_last()).push(v.last().view())
    }
}

pub proof fn lemma_views_of(v: Seq<Element>)
    ensures
        views_of(v).len() == v.len(),
        forall|i: int| 0 <= i < v.len() ==> #[trigger] views_of(v)[i] == v[i].view(),
    decreases v.len(),
{
    if v.len() > 0 {
        lemma_views_of(v.drop_last());
        assert forall|i: int| 0 <= i < v.len() implies #[trigger] views_of(v)[i] == v[i].view() by {
            if i < v.len() - 1 {
                assert(v.drop_last()[i] == v[i]);
            } else {
                assert(v.last() == v[i]);
            }
        }
    }
}

// ---------------------------------------------------------------------------
// Encoding
// ---------------------------------------------------------------------------

/// The RESP wire form of a value: `+text`, `-text`, `:integer`, `#t`/`#f`,
/// `_` for Null, each closed by CR LF; `$` and `*` carry a decimal length
/// line, then the raw payload bytes (and CR LF) or that many encoded values.
pub open spec fn encoding(e: Elem) -> Seq<u8>
    decreases e, 0int,
{
    match e {
        Elem::SimpleString(s) => seq![43u8] + s + crlf(),
        Elem::Error(s) => seq![45u8] + s + crlf(),
        Elem::Integer(n) => seq![58u8] + dec_int(n) + crlf(),
        Elem::BulkString(s) => seq![36u8] + dec_digits(s.len() as int) + crlf() + s + crlf(),
        Elem::Array(es) => seq![42u8] + dec_digits(es.len() as int) + crlf() + encoding_from(
            es,
            0,
        ),
        Elem::Null => seq![95u8] + crlf(),
        Elem::Boolean(b) => seq![35u8, if b { 116u8 } else { 102u8 }] + crlf(),
    }
}

/// The concatenated encodings of `es[i..]`.
pub open spec fn encoding_from(es: Seq<Elem>, i: int) -> Seq<u8>
    decreases es, es.len() - i,
{
    if 0 <= i < es.len() {
        encoding(es[i]) + encoding_from(es, i + 1)
    } else {
        Seq::<u8>::empty()
    }
}

/// A value the encoder and decoder agree on. Text payloads carry no CR LF
/// pair (the framing could not survive one) and are well-formed UTF-8;
/// integers fit the wire's signed 32-bit range; lengths fit a machine word.
pub open spec fn wf(e: Elem) -> bool
    decreases e,
{
    match e {
        Elem::SimpleString(s) => line_ok(s) && is_valid_utf8(s),
        Elem::Error(s) => line_ok(s) && is_valid_utf8(s),
        Elem::Integer(n) => i32::MIN <= n <= i32::MAX,
        Elem::BulkString(s) => s.len() <= usize::MAX,
        Elem::Array(es) => es.len() <= usize::MAX && (forall|i: int|
            0 <= i < es.len() ==> wf(#[trigger] es[i])),
        Elem::Null => true,
        Elem::Boolean(_) => true,
    }
}

/// Appends a copy of `s` to `out`.
fn push_all(out: &mut Vec<u8>, s: &[u8])
    ensures
        final(out)@ == old(out)@ + s@,
{
    let mut i: usize = 0;
    while i < s.len()
        invariant
            i <= s@.len(),
            out@ == old(out)@ + s@.take(i as int),
        decreases s@.len() - i,
    {
        out.push(s[i]);
        assert(out@ =~= old(out)@ + s@.take(i as int + 1));
        i = i + 1;
    }
    assert(out@ =~= old(out)@ + s@);
}

/// Appends CR LF to `out`.
fn push_crlf(out: &mut Vec<u8>)
    ensures
        final(out)@ == old(out)@ + crlf(),
{
    out.push(CR);
    out.push(LF);
    assert(out@ =~= old(out)@ + crlf());
}

impl Element {
    /// Encodes this value into its exact RESP wire form.
    #[verifier::loop_isolation(false)]
    pub fn to_vec(&self) -> (r: Vec<u8>)
        ensures
            r@ == encoding(self.view()),
        decreases self,
    {
        let mut out: Vec<u8> = Vec::new();
        match self {
            Element::SimpleString(s) => {
                out.push(43);
                push_all(&mut out, s.as_slice());
                push_crlf(&mut out);
                assert(out@ =~= encoding(self.view()));
            },
            Element::Error(s) => {
                out.push(45);
                push_all(&mut out, s.as_slice());
                push_crlf(&mut out);
                assert(out@ =~= encoding(self.view()));
            },
            Element::Integer(n) => {
                out.push(58);
                let v = *n;
                if v < 0 {
                    out.push(45);
                    let m: u64 = (-(v as i64)) as u64;
                    push_decimal(m, &mut out);
                } else {
                    push_decimal(v as u64, &mut out);
                }
                push_crlf(&mut out);
                assert(out@ =~= encoding(self.view()));
            },
            Element::BulkString(s) => {
                out.push(36);
                push_decimal(s.len() as u64, &mut out);
                push_crlf(&mut out);
                push_all(&mut out, s.as_slice());
                push_crlf(&mut out);
                assert(out@ =~= encoding(self.view()));
            },
            Element::Array(es) => {
                out.push(42);
                push_decimal(es.len() as u64, &mut out);
                push_crlf(&mut out);
                let ghost v = views_of(es@);
                proof {
                    lemma_views_of(es@);
                }
                let ghost head = out@;
                let n = es.len();
                let mut i: usize = 0;
                while i < n
                    invariant
                        i <= n,
                        out@ + encoding_from(v, i as int) == head + encoding_from(v, 0),
                    decreases n - i,
                {
                    proof {
                        assert(decreases_to!(*self => *es));
                        assert(decreases_to!(*es => es@));
                        assert(decreases_to!(es@ => es@[i as int]));
                    }
                    let piece = (&es[i]).to_vec();
                    assert(es@[i as int].view() == v[i as int]);
                    push_all(&mut out, piece.as_slice());
                    assert(out@ + encoding_from(v, i as int + 1) =~= head + encoding_from(v, 0));
                    i = i + 1;
                }
                assert(encoding_from(v, n as int) =~= Seq::<u8>::empty());
                assert(out@ =~= out@ + encoding_from(v, n as int));
                assert(self.view() == Elem::Array(v));
                assert(out@ =~= encoding(self.view()));
            },
            Element::Null => {
                out.push(95);
                push_crlf(&mut out);
                assert(out@ =~= encoding(self.view()));
            },
            Element::Boolean(b) => {
                out.push(35);
                if *b {
                    out.push(116);
                } else {
                    out.push(102);
                }
                push_crlf(&mut out);
                assert(out@ =~= encoding(self.view()));
            },
        }
        out
    }
}

// ---------------------------------------------------------------------------
// Decoding: the specification
// ---------------------------------------------------------------------------

/// Why a decode failed: the input ended before a required terminator or byte
/// count was satisfied, or the bytes themselves are not a RESP encoding.
#[derive(Clone, Copy, Debug, PartialEq, Eq, Structural)]
pub enum ParseError {
    Truncation,
    Malformed,
}

/// One textual line: the bytes up to the first CR LF, and the position just
/// past that terminator. No terminator before end of input is a truncation.
pub open spec fn take_line(s: Seq<u8>, pos: int) -> Result<(Seq<u8>, int), ParseError> {
    let k = find_crlf(s, pos);
    if k < 0 {
        Err(ParseError::Truncation)
    } else {
        Ok((s.subrange(pos, k), k + 2))
    }
}

pub open spec fn parse_simple_string_sp(s: Seq<u8>, pos: int) -> Result<(Elem, int), ParseError> {
    match take_line(s, pos) {
        Err(e) => Err(e),
        Ok((line, p)) => if is_valid_utf8(line) {
            Ok((Elem::SimpleString(line), p))
        } else {
            Err(ParseError::Malformed)
        },
    }
}

pub open spec fn parse_simple_error_sp(s: Seq<u8>, pos: int) -> Result<(Elem, int), ParseError> {
    match take_line(s, pos) {
        Err(e) => Err(e),
        Ok((line, p)) => if is_valid_utf8(line) {
            Ok((Elem::Error(line), p))
        } else {
            Err(ParseError::Malformed)
        },
    }
}

pub open spec fn parse_integer_sp(s: Seq<u8>, pos: int) -> Result<(Elem, int), ParseError> {
    match take_line(s, pos) {
        Err(e) => Err(e),
        Ok((line, p)) => if is_int_literal(line) && i32::MIN <= int_literal_value(line)
            <= i32::MAX {
            Ok((Elem::Integer(int_literal_value(line)), p))
        } else {
            Err(ParseError::Malformed)
        },
    }
}

pub open spec fn parse_boolean_sp(s: Seq<u8>, pos: int) -> Result<(Elem, int), ParseError> {
    match take_line(s, pos) {
        Err(e) => Err(e),
        Ok((line, p)) => if line.len() == 1 && line[0] == 116 {
            Ok((Elem::Boolean(true), p))
        } else if line.len() == 1 && line[0] == 102 {
            Ok((Elem::Boolean(false), p))
        } else {
            Err(ParseError::Malformed)
        },
    }
}

pub open spec fn parse_null_sp(s: Seq<u8>, pos: int) -> Result<(Elem, int), ParseError> {
    if pos + 2 <= s.len() {
        Ok((Elem::Null, pos + 2))
    } else {
        Err(ParseError::Truncation)
    }
}

pub open spec fn parse_bulk_string_sp(s: Seq<u8>, pos: int) -> Result<(Elem, int), ParseError> {
    match take_line(s, pos) {
        Err(e) => Err(e),
        Ok((line, p)) => if !(is_uint_literal(line) && uint_literal_value(line) <= usize::MAX
            as int) {
            Err(ParseError::Malformed)
        } else {
            let n = uint_literal_value(line);
            if p + n + 2 <= s.len() {
                Ok((Elem::BulkString(s.subrange(p, p + n)), p + n + 2))
            } else {
                Err(ParseError::Truncation)
            }
        },
    }
}

pub open spec fn parse_array_sp(s: Seq<u8>, pos: int) -> Result<(Elem, int), ParseError>
    decreases s.len() - pos, 2int,
{
    match take_line(s, pos) {
        Err(e) => Err(e),
        Ok((line, p)) => if !(is_uint_literal(line) && uint_literal_value(line) <= usize::MAX
            as int) {
            Err(ParseError::Malformed)
        } else if !(pos < p <= s.len() && 0 <= uint_literal_value(line)) {
            // Never taken: the terminator lies past `pos` and a numeral is
            // non-negative. The branch keeps the recursion measure falling.
            Err(ParseError::Malformed)
        } else {
            match parse_els(s, p, uint_literal_value(line)) {
                Err(e) => Err(e),
                Ok((items, q)) => Ok((Elem::Array(items), q)),
            }
        },
    }
}

/// One complete RESP value at `pos`: its model and the position just past it.
pub open spec fn parse_el(s: Seq<u8>, pos: int) -> Result<(Elem, int), ParseError>
    decreases s.len() - pos, 0int,
{
    if !(0 <= pos < s.len()) {
        Err(ParseError::Truncation)
    } else {
        let tag = s[pos];
        if tag == 43 {
            parse_simple_string_sp(s, pos + 1)
        } else if tag == 45 {
            parse_simple_error_sp(s, pos + 1)
        } else if tag == 58 {
            parse_integer_sp(s, pos + 1)
        } else if tag == 36 {
            parse_bulk_string_sp(s, pos + 1)
        } else if tag == 42 {
            parse_array_sp(s, pos + 1)
        } else if tag == 95 {
            parse_null_sp(s, pos + 1)
        } else if tag == 35 {
            parse_boolean_sp(s, pos + 1)
        } else {
            Err(ParseError::Malformed)
        }
    }
}

/// `count` complete RESP values in sequence, starting at `pos`.
pub open spec fn parse_els(s: Seq<u8>, pos: int, count: int) -> Result<
    (Seq<Elem>, int),
    ParseError,
>
    decreases s.len() - pos, count,
{
    if count <= 0 {
        Ok((Seq::<Elem>::empty(), pos))
    } else {
        match parse_el(s, pos) {
            Err(e) => Err(e),
            Ok((el, p)) => {
                if !(pos < p <= s.len()) {
                    // Never taken: a value consumes at least its tag byte and
                    // ends within the input. Keeps the recursion measure falling.
                    Err(ParseError::Malformed)
                } else {
                    match parse_els(s, p, count - 1) {
                        Err(e) => Err(e),
                        Ok((items, q)) => Ok((seq![el] + items, q)),
                    }
                }
            },
        }
    }
}

/// A successfully decoded value ends past where it began and within the input.
pub proof fn lemma_parse_el_advances(s: Seq<u8>, pos: int)
    requires
        0 <= pos,
    ensures
        (match parse_el(s, pos) {
            Ok((el, p)) => pos < p <= s.len(),
            Err(_) => true,
        }),
    decreases s.len() - pos, 0int,
{
    if 0 <= pos < s.len() {
        let tag = s[pos];
        lemma_find_crlf_props(s, pos + 1);
        let k = find_crlf(s, pos + 1);
        if k >= 0 {
            let line = s.subrange(pos + 1, k);
            if tag == 36 {
                if is_uint_literal(line) {
                    lemma_digits_value_nonneg(crate::wire::uint_digits(line));
                }
            }
            if tag == 42 {
                if is_uint_literal(line) && uint_literal_value(line) <= usize::MAX as int {
                    lemma_digits_value_nonneg(crate::wire::uint_digits(line));
                    if pos + 1 < k + 2 <= s.len() {
                        lemma_parse_els_advances(s, k + 2, uint_literal_value(line));
                    }
                }
            }
        }
    }
}

/// A successfully decoded run of values ends within the input and has as many
/// members as were asked for.
pub proof fn lemma_parse_els_advances(s: Seq<u8>, pos: int, count: int)
    requires
        0 <= pos <= s.len(),
    ensures
        (match parse_els(s, pos, count) {
            Ok((items, q)) => pos <= q <= s.len() && items.len() == if count <= 0 {
                0int
            } else {
                count
            },
            Err(_) => true,
        }),
    decreases s.len() - pos, count,
{
    if count > 0 {
        lemma_parse_el_advances(s, pos);
        match parse_el(s, pos) {
            Ok((el, p)) => {
                lemma_parse_els_advances(s, p, count - 1);
            },
            Err(_) => {},
        }
    }
}

// ---------------------------------------------------------------------------
// Decoding: the executable decoder
// ---------------------------------------------------------------------------

/// The decoder's result denotes what the specification says: the same error,
/// or a value with the specified model ending at the specified position.
pub open spec fn corresponds(
    r: Result<(Element, usize), ParseError>,
    sp: Result<(Elem, int), ParseError>,
) -> bool {
    match (r, sp) {
        (Ok((el, p)), Ok((m, q))) => el.view() == m && p as int == q,
        (Err(a), Err(b)) => a == b,
        _ => false,
    }
}

/// Collects the bytes of one line up to the CR LF terminator, returning them
/// with the position just past the terminator.
#[verifier::loop_isolation(false)]
fn until_newline(input: &[u8], pos: usize) -> (r: Result<(Vec<u8>, usize), ParseError>)
    requires
        pos <= input@.len(),
    ensures
        (match r {
            Ok((line, p)) => {
                &&& find_crlf(input@, pos as int) >= 0
                &&& line@ == input@.subrange(pos as int, find_crlf(input@, pos as int))
                &&& p as int == find_crlf(input@, pos as int) + 2
                &&& pos < p <= input@.len()
            },
            Err(e) => e == ParseError::Truncation && find_crlf(input@, pos as int) < 0,
        }),
{
    let n = input.len();
    let mut i: usize = pos;
    while n - i >= 2
        invariant
            pos <= i <= n,
            find_crlf(input@, pos as int) == find_crlf(input@, i as int),
        decreases n - i,
    {
        if input[i] == CR && input[i + 1] == LF {
            let line = vstd::slice::slice_to_vec(vstd::slice::slice_subrange(input, pos, i));
            return Ok((line, i + 2));
        }
        i = i + 1;
    }
    Err(ParseError::Truncation)
}

/// Reads digits (after an optional leading `+` handled by the caller) into a
/// number no greater than `bound`.
#[verifier::loop_isolation(false)]
fn parse_digits_bounded(line: &Vec<u8>, start: usize, bound: u64) -> (r: Result<u64, ParseError>)
    requires
        start <= line@.len(),
        9 <= bound,
    ensures
        ({
            let ds = line@.skip(start as int);
            match r {
                Ok(v) => ds.len() > 0 && all_digits(ds) && digits_value(ds) == v as int && v
                    <= bound,
                Err(e) => e == ParseError::Malformed && !(ds.len() > 0 && all_digits(ds)
                    && digits_value(ds) <= bound as int),
            }
        }),
{
    let ghost ds = line@.skip(start as int);
    let n = line.len();
    if start == n {
        return Err(ParseError::Malformed);
    }
    let mut acc: u64 = 0;
    let mut i: usize = start;
    while i < n
        invariant
            start <= i <= n,
            acc <= bound,
            all_digits(ds.take(i - start)),
            acc as int == digits_value(ds.take(i - start)),
        decreases n - i,
    {
        let b: u8 = line[i];
        if b < 48 || b > 57 {
            proof {
                assert(ds[i - start] == b);
                assert(!crate::wire::is_digit(ds[i - start]));
            }
            return Err(ParseError::Malformed);
        }
        let d: u64 = (b - 48) as u64;
        assert(ds[i - start] == b);
        proof {
            lemma_digits_value_step(ds, i - start);
            lemma_fundamental_div_mod((bound - d) as int, 10);
        }
        if acc > (bound - d) / 10 {
            proof {
                assert(digits_value(ds.take(i - start + 1)) > bound);
                if all_digits(ds) {
                    lemma_digits_value_take_le(ds, i - start + 1);
                }
            }
            return Err(ParseError::Malformed);
        }
        acc = acc * 10 + d;
        i = i + 1;
    }
    assert(ds.take(n - start) =~= ds);
    Ok(acc)
}

/// Reads a decimal length line: the digits (an optional `+` allowed) up to
/// CR LF, as a machine-sized count, and the position past the terminator.
fn extract_length(input: &[u8], pos: usize) -> (r: Result<(usize, usize), ParseError>)
    requires
        pos <= input@.len(),
    ensures
        ({
            let k = find_crlf(input@, pos as int);
            let line = input@.subrange(pos as int, k);
            match r {
                Ok((n, p)) => k >= 0 && is_uint_literal(line) && uint_literal_value(line) == n
                    as int && p as int == k + 2 && pos < p <= input@.len(),
                Err(ParseError::Truncation) => k < 0,
                Err(ParseError::Malformed) => k >= 0 && !(is_uint_literal(line)
                    && uint_literal_value(line) <= usize::MAX as int),
            }
        }),
{
    match until_newline(input, pos) {
        Err(e) => Err(e),
        Ok((line, p)) => {
            let start: usize = if line.len() > 0 && line[0] == 43 {
                1
            } else {
                0
            };
            assert(line@.skip(start as int) =~= crate::wire::uint_digits(line@));
            match parse_digits_bounded(&line, start, usize::MAX as u64) {
                Err(e) => Err(e),
                Ok(v) => Ok((v as usize, p)),
            }
        },
    }
}

/// Reads a signed 32-bit integer line: optional sign, then digits, up to CR LF.
fn parse_i32_line(line: &Vec<u8>) -> (r: Result<i32, ParseError>)
    ensures
        (match r {
            Ok(v) => is_int_literal(line@) && int_literal_value(line@) == v as int,
            Err(e) => e == ParseError::Malformed && !(is_int_literal(line@) && i32::MIN
                <= int_literal_value(line@) <= i32::MAX),
        }),
{
    let negative = line.len() > 0 && line[0] == 45;
    let start: usize = if line.len() > 0 && (line[0] == 43 || line[0] == 45) {
        1
    } else {
        0
    };
    assert(line@.skip(start as int) =~= crate::wire::int_digits(line@));
    let bound: u64 = if negative {
        2147483648
    } else {
        2147483647
    };
    match parse_digits_bounded(line, start, bound) {
        Err(e) => {
            proof {
                if is_int_literal(line@) {
                    lemma_digits_value_nonneg(crate::wire::int_digits(line@));
                }
            }
            Err(e)
        },
        Ok(v) => {
            if negative {
                Ok((-(v as i64)) as i32)
            } else {
                Ok(v as i32)
            }
        },
    }
}

/// Steps over the two terminator bytes that close a binary payload or a Null;
/// their content is not validated, but they must be present.
fn discard_terminator(input: &[u8], pos: usize) -> (r: Result<usize, ParseError>)
    requires
        pos <= input@.len(),
    ensures
        (match r {
            Ok(p) => pos + 2 <= input@.len() && p as int == pos + 2,
            Err(e) => e == ParseError::Truncation && pos + 2 > input@.len(),
        }),
{
    if input.len() - pos >= 2 {
        Ok(pos + 2)
    } else {
        Err(ParseError::Truncation)
    }
}

fn parse_simple_string(input: &[u8], pos: usize) -> (r: Result<(Element, usize), ParseError>)
    requires
        pos <= input@.len(),
    ensures
        corresponds(r, parse_simple_string_sp(input@, pos as int)),
{
    match until_newline(input, pos) {
        Err(e) => Err(e),
        Ok((line, p)) => {
            if check_utf8(line.as_slice()) {
                Ok((Element::SimpleString(line), p))
            } else {
                Err(ParseError::Malformed)
            }
        },
    }
}

fn parse_simple_error(input: &[u8], pos: usize) -> (r: Result<(Element, usize), ParseError>)
    requires
        pos <= input@.len(),
    ensures
        corresponds(r, parse_simple_error_sp(input@, pos as int)),
{
    match until_newline(input, pos) {
        Err(e) => Err(e),
        Ok((line, p)) => {
            if check_utf8(line.as_slice()) {
                Ok((Element::Error(line), p))
            } else {
                Err(ParseError::Malformed)
            }
        },
    }
}

fn parse_integer(input: &[u8], pos: usize) -> (r: Result<(Element, usize), ParseError>)
    requires
        pos <= input@.len(),
    ensures
        corresponds(r, parse_integer_sp(input@, pos as int)),
{
    match until_newline(input, pos) {
        Err(e) => Err(e),
        Ok((line, p)) => match parse_i32_line(&line) {
            Err(e) => Err(e),
            Ok(v) => Ok((Element::Integer(v), p)),
        },
    }
}

fn parse_boolean(input: &[u8], pos: usize) -> (r: Result<(Element, usize), ParseError>)
    requires
        pos <= input@.len(),
    ensures
        corresponds(r, parse_boolean_sp(input@, pos as int)),
{
    match until_newline(input, pos) {
        Err(e) => Err(e),
        Ok((line, p)) => {
            if line.len() == 1 && line[0] == 116 {
                Ok((Element::Boolean(true), p))
            } else if line.len() == 1 && line[0] == 102 {
                Ok((Element::Boolean(false), p))
            } else {
                Err(ParseError::Malformed)
            }
        },
    }
}

fn parse_null(input: &[u8], pos: usize) -> (r: Result<(Element, usize), ParseError>)
    requires
        pos <= input@.len(),
    ensures
        corresponds(r, parse_null_sp(input@, pos as int)),
{
    match discard_terminator(input, pos) {
        Err(e) => Err(e),
        Ok(p) => Ok((Element::Null, p)),
    }
}

fn parse_bulk_string(input: &[u8], pos: usize) -> (r: Result<(Element, usize), ParseError>)
    requires
        pos <= input@.len(),
    ensures
        corresponds(r, parse_bulk_string_sp(input@, pos as int)),
{
    match extract_length(input, pos) {
        Err(e) => Err(e),
        Ok((n, p)) => {
            proof {
                lemma_digits_value_nonneg(
                    crate::wire::uint_digits(
                        input@.subrange(pos as int, find_crlf(input@, pos as int)),
                    ),
                );
            }
            if n > input.len() - p {
                return Err(ParseError::Truncation);
            }
            let data = vstd::slice::slice_to_vec(vstd::slice::slice_subrange(input, p, p + n));
            match discard_terminator(input, p + n) {
                Err(e) => Err(e),
                Ok(q) => Ok((Element::BulkString(data), q)),
            }
        },
    }
}

fn parse_array(input: &[u8], pos: usize) -> (r: Result<(Element, usize), ParseError>)
    requires
        pos <= input@.len(),
    ensures
        corresponds(r, parse_array_sp(input@, pos as int)),
    decreases input@.len() - pos, 2int,
{
    match extract_length(input, pos) {
        Err(e) => Err(e),
        Ok((n, p)) => {
            match parse_elements(input, p, n) {
                Err(e) => Err(e),
                Ok((items, q)) => Ok((Element::Array(items), q)),
            }
        },
    }
}

/// Decodes `count` values in sequence, in order.
fn parse_elements(input: &[u8], pos: usize, count: usize) -> (r: Result<
    (Vec<Element>, usize),
    ParseError,
>)
    requires
        pos <= input@.len(),
    ensures
        ({
            let sp = parse_els(input@, pos as int, count as int);
            match (r, sp) {
                (Ok((v, p)), Ok((items, q))) => views_of(v@) == items && p as int == q && p
                    <= input@.len(),
                (Err(a), Err(b)) => a == b,
                _ => false,
            }
        }),
    decreases input@.len() - pos, count,
{
    if count == 0 {
        let empty: Vec<Element> = Vec::new();
        assert(views_of(empty@) =~= Seq::<Elem>::empty());
        return Ok((empty, pos));
    }
    match parse_iter(input, pos) {
        Err(e) => Err(e),
        Ok((el, p)) => {
            proof {
                lemma_parse_el_advances(input@, pos as int);
            }
            match parse_elements(input, p, count - 1) {
                Err(e) => Err(e),
                Ok((rest, q)) => {
                    let ghost pre = rest@;
                    let mut items = rest;
                    items.insert(0, el);
                    proof {
                        pre.insert_ensures(0, el);
                        lemma_views_of(items@);
                        lemma_views_of(pre);
                        assert forall|j: int|
                            0 <= j < items@.len() implies #[trigger] views_of(items@)[j] == (
                        seq![el.view()] + views_of(pre))[j] by {
                            if j == 0 {
                                assert(items@[0] == el);
                            } else {
                                assert(items@[j] == pre[j - 1]);
                            }
                        }
                        assert(views_of(items@) =~= seq![el.view()] + views_of(pre));
                    }
                    Ok((items, q))
                },
            }
        },
    }
}

/// Decodes exactly one complete RESP value beginning at `pos`, returning its
/// structured form and the position just past it.
pub fn parse_iter(input: &[u8], pos: usize) -> (r: Result<(Element, usize), ParseError>)
    requires
        pos <= input@.len(),
    ensures
        corresponds(r, parse_el(input@, pos as int)),
    decreases input@.len() - pos, 0int,
{
    if pos >= input.len() {
        return Err(ParseError::Truncation);
    }
    let tag: u8 = input[pos];
    if tag == 43 {
        parse_simple_string(input, pos + 1)
    } else if tag == 45 {
        parse_simple_error(input, pos + 1)
    } else if tag == 58 {
        parse_integer(input, pos + 1)
    } else if tag == 36 {
        parse_bulk_string(input, pos + 1)
    } else if tag == 42 {
        parse_array(input, pos + 1)
    } else if tag == 95 {
        parse_null(input, pos + 1)
    } else if tag == 35 {
        parse_boolean(input, pos + 1)
    } else {
        Err(ParseError::Malformed)
    }
}

// ---------------------------------------------------------------------------
// Round trip: decoding an encoding yields the value back
// ---------------------------------------------------------------------------

/// A byte inside a region of `s` known to equal `enc` is the matching byte of `enc`.
proof fn lemma_match_byte(s: Seq<u8>, pos: int, enc: Seq<u8>, a: int)
    requires
        0 <= pos,
        pos + enc.len() <= s.len(),
        s.subrange(pos, pos + enc.len() as int) == enc,
        pos <= a < pos + enc.len(),
    ensures
        s[a] == enc[a - pos],
{
    assert(enc[a - pos] == s.subrange(pos, pos + enc.len() as int)[a - pos]);
}

/// A sub-interval of a region of `s` known to equal `enc` equals the matching
/// part of `enc`.
proof fn lemma_subrange_of_match(s: Seq<u8>, pos: int, enc: Seq<u8>, a: int, b: int)
    requires
        0 <= pos,
        pos + enc.len() <= s.len(),
        s.subrange(pos, pos + enc.len() as int) == enc,
        pos <= a <= b <= pos + enc.len(),
    ensures
        s.subrange(a, b) == enc.subrange(a - pos, b - pos),
{
    assert forall|j: int| 0 <= j < b - a implies s.subrange(a, b)[j] == enc.subrange(
        a - pos,
        b - pos,
    )[j] by {
        lemma_match_byte(s, pos, enc, a + j);
    }
    assert(s.subrange(a, b) =~= enc.subrange(a - pos, b - pos));
}

/// Where `body CR LF tail` stands at `pos` and the body holds no CR LF pair,
/// taking a line at `pos` yields exactly the body.
proof fn lemma_take_line_at(s: Seq<u8>, pos: int, body: Seq<u8>, tail: Seq<u8>)
    requires
        0 <= pos,
        line_ok(body),
        pos + body.len() + 2 + tail.len() <= s.len(),
        s.subrange(pos, pos + body.len() + 2 + tail.len()) == body + crlf() + tail,
    ensures
        find_crlf(s, pos) == pos + body.len(),
        take_line(s, pos) == Ok::<(Seq<u8>, int), ParseError>((body, pos + body.len() + 2)),
{
    let enc = body + crlf() + tail;
    let k = pos + body.len();
    lemma_match_byte(s, pos, enc, k);
    lemma_match_byte(s, pos, enc, k + 1);
    assert(s[k] == CR && s[k + 1] == LF);
    assert forall|j: int| pos <= j < k implies !(#[trigger] s[j] == CR && s[j + 1] == LF) by {
        lemma_match_byte(s, pos, enc, j);
        lemma_match_byte(s, pos, enc, j + 1);
        if s[j] == CR && s[j + 1] == LF {
            if j + 1 < k {
                assert(body[j - pos] == CR && body[j - pos + 1] == LF);
            } else {
                assert(s[j + 1] == CR);
            }
        }
    }
    lemma_find_crlf_at(s, pos, k);
    lemma_subrange_of_match(s, pos, enc, pos, k);
    assert(enc.subrange(0, body.len() as int) =~= body);
}

/// Decoding at a position where the encoding of a well-formed value stands
/// yields exactly that value and stops exactly past its encoding.
pub proof fn lemma_parse_encoding(s: Seq<u8>, pos: int, e: Elem)
    requires
        wf(e),
        0 <= pos,
        pos + encoding(e).len() <= s.len(),
        s.subrange(pos, pos + encoding(e).len() as int) == encoding(e),
    ensures
        parse_el(s, pos) == Ok::<(Elem, int), ParseError>((e, pos + encoding(e).len())),
    decreases e, 0int,
{
    let enc = encoding(e);
    let n = enc.len() as int;
    lemma_match_byte(s, pos, enc, pos);
    match e {
        Elem::SimpleString(m) => {
            assert(enc.subrange(1, n) =~= m + crlf() + Seq::<u8>::empty());
            lemma_subrange_of_match(s, pos, enc, pos + 1, pos + n);
            lemma_take_line_at(s, pos + 1, m, Seq::<u8>::empty());
        },
        Elem::Error(m) => {
            assert(enc.subrange(1, n) =~= m + crlf() + Seq::<u8>::empty());
            lemma_subrange_of_match(s, pos, enc, pos + 1, pos + n);
            lemma_take_line_at(s, pos + 1, m, Seq::<u8>::empty());
        },
        Elem::Integer(v) => {
            crate::wire::lemma_dec_int_numeral(v);
            let d = dec_int(v);
            assert(enc.subrange(1, n) =~= d + crlf() + Seq::<u8>::empty());
            lemma_subrange_of_match(s, pos, enc, pos + 1, pos + n);
            lemma_take_line_at(s, pos + 1, d, Seq::<u8>::empty());
        },
        Elem::Boolean(b) => {
            let x: u8 = if b {
                116
            } else {
                102
            };
            assert(enc == seq![35u8, x] + crlf());
            assert(enc.subrange(1, n) =~= seq![x] + crlf() + Seq::<u8>::empty());
            lemma_subrange_of_match(s, pos, enc, pos + 1, pos + n);
            lemma_take_line_at(s, pos + 1, seq![x], Seq::<u8>::empty());
        },
        Elem::Null => {
            assert(n == 3);
        },
        Elem::BulkString(m) => {
            crate::wire::lemma_dec_uint_numeral(m.len() as int);
            let d = dec_digits(m.len() as int);
            let tail = m + crlf();
            assert(enc.subrange(1, n) =~= d + crlf() + tail);
            lemma_subrange_of_match(s, pos, enc, pos + 1, pos + n);
            lemma_take_line_at(s, pos + 1, d, tail);
            let p = pos + 1 + d.len() + 2;
            lemma_subrange_of_match(s, pos, enc, p, p + m.len());
            assert(enc.subrange(p - pos, p - pos + m.len()) =~= m);
            assert(s.subrange(p, p + m.len() as int) == m);
        },
        Elem::Array(es) => {
            crate::wire::lemma_dec_uint_numeral(es.len() as int);
            let d = dec_digits(es.len() as int);
            let tail = encoding_from(es, 0);
            assert(enc.subrange(1, n) =~= d + crlf() + tail);
            lemma_subrange_of_match(s, pos, enc, pos + 1, pos + n);
            lemma_take_line_at(s, pos + 1, d, tail);
            let p = pos + 1 + d.len() + 2;
            lemma_subrange_of_match(s, pos, enc, p, p + tail.len());
            assert(enc.subrange(p - pos, p - pos + tail.len()) =~= tail);
            lemma_parse_els_encoding(s, p, es, 0);
            assert(es.skip(0) =~= es);
        },
    }
}

/// Decoding where the encodings of `es[i..]` stand in sequence yields exactly
/// those values, in order.
pub proof fn lemma_parse_els_encoding(s: Seq<u8>, pos: int, es: Seq<Elem>, i: int)
    requires
        0 <= i <= es.len(),
        forall|j: int| 0 <= j < es.len() ==> wf(#[trigger] es[j]),
        0 <= pos,
        pos + encoding_from(es, i).len() <= s.len(),
        s.subrange(pos, pos + encoding_from(es, i).len() as int) == encoding_from(es, i),
    ensures
        parse_els(s, pos, es.len() - i) == Ok::<(Seq<Elem>, int), ParseError>(
            (es.skip(i), pos + encoding_from(es, i).len()),
        ),
    decreases es, es.len() - i,
{
    if i == es.len() {
        assert(es.skip(i) =~= Seq::<Elem>::empty());
    } else {
        let ef = encoding_from(es, i);
        let e0 = es[i];
        let enc0 = encoding(e0);
        let rest = encoding_from(es, i + 1);
        assert(ef == enc0 + rest);
        lemma_subrange_of_match(s, pos, ef, pos, pos + enc0.len());
        assert(ef.subrange(0, enc0.len() as int) =~= enc0);
        lemma_parse_encoding(s, pos, e0);
        let p = pos + enc0.len();
        lemma_parse_el_advances(s, pos);
        lemma_subrange_of_match(s, pos, ef, p, pos + ef.len());
        assert(ef.subrange(p - pos, ef.len() as int) =~= rest);
        lemma_parse_els_encoding(s, p, es, i + 1);
        assert(seq![e0] + es.skip(i + 1) =~= es.skip(i));
    }
}

/// Round trip: a well-formed value, encoded and then decoded — with any bytes
/// following — yields the same value back and consumes exactly its encoding.
pub proof fn lemma_round_trip(e: Elem, rest: Seq<u8>)
    requires
        wf(e),
    ensures
        parse_el(encoding(e) + rest, 0) == Ok::<(Elem, int), ParseError>(
            (e, encoding(e).len() as int),
        ),
{
    let s = encoding(e) + rest;
    assert(s.subrange(0, encoding(e).len() as int) =~= encoding(e));
    lemma_parse_encoding(s, 0, e);
}

/// Binary safety: a bulk string payload of arbitrary bytes — CR, LF and NUL
/// included — is protected by its length prefix alone, never by escaping, and
/// decodes back unchanged.
pub proof fn lemma_bulk_string_binary_safe(payload: Seq<u8>, rest: Seq<u8>)
    requires
        payload.len() <= usize::MAX,
    ensures
        parse_el(encoding(Elem::BulkString(payload)) + rest, 0) == Ok::<(Elem, int), ParseError>(
            (Elem::BulkString(payload), encoding(Elem::BulkString(payload)).len() as int),
        ),
{
    lemma_round_trip(Elem::BulkString(payload), rest);
}

} // verus!
