//! The command model and its dispatcher. A request is an `Element::Array`
//! whose first member is a `BulkString` naming the command — `PING` or
//! `ECHO`, matched exactly — and whose optional second member is a
//! `BulkString` argument. A command is an immutable value: once built it
//! carries its own argument and executes without further input.

use vstd::prelude::*;
use crate::parser::{
    Element, Elem, ParseError, encoding, views_of, lemma_views_of, parse_el, wf, lemma_round_trip,
};

verus! {

pub open spec fn ping_name() -> Seq<u8> {
    seq![80u8, 73u8, 78u8, 71u8]
}

pub open spec fn echo_name() -> Seq<u8> {
    seq![69u8, 67u8, 72u8, 79u8]
}

pub open spec fn pong_text() -> Seq<u8> {
    seq![80u8, 79u8, 78u8, 71u8]
}

/// Why a decoded value failed to build a command: it was not an array with a
/// leading bulk string (and a bulk-string argument, if any), or the name it
/// carried is not a supported command.
#[derive(Clone, Copy, Debug, PartialEq, Eq, Structural)]
pub enum BuildError {
    UnrecognizedShape,
    UnknownCommand,
}

/// The mathematical shape of a command: which operation, with which argument.
#[verifier::ext_equal]
pub enum Cmd {
    Ping(Seq<u8>),
    Echo(Seq<u8>),
}

/// The reply a command's execution produces: `PING` answers `PONG` as a
/// simple string when it carries no argument and echoes its argument as a
/// bulk string otherwise; `ECHO` always echoes its argument.
pub open spec fn reply_of(c: Cmd) -> Elem {
    match c {
        Cmd::Ping(m) => if m.len() == 0 {
            Elem::SimpleString(pong_text())
        } else {
            Elem::BulkString(m)
        },
        Cmd::Echo(m) => Elem::BulkString(m),
    }
}

/// The request array a command re-serializes itself into: its name, then its
/// argument — left out of a `PING` that carries none.
pub open spec fn request_of(c: Cmd) -> Elem {
    match c {
        Cmd::Ping(m) => if m.len() == 0 {
            Elem::Array(seq![Elem::BulkString(ping_name())])
        } else {
            Elem::Array(seq![Elem::BulkString(ping_name()), Elem::BulkString(m)])
        },
        Cmd::Echo(m) => Elem::Array(seq![Elem::BulkString(echo_name()), Elem::BulkString(m)]),
    }
}

/// Which command a decoded request value builds, or why it builds none.
pub open spec fn build_model(e: Elem) -> Result<Cmd, BuildError> {
    match e {
        Elem::Array(es) => {
            if es.len() == 0 {
                Err(BuildError::UnrecognizedShape)
            } else {
                match es[0] {
                    Elem::BulkString(name) => {
                        let arg_r: Result<Seq<u8>, BuildError> = if es.len() == 1 {
                            Ok(Seq::<u8>::empty())
                        } else {
                            match es[1] {
                                Elem::BulkString(a) => Ok(a),
                                _ => Err(BuildError::UnrecognizedShape),
                            }
                        };
                        match arg_r {
                            Err(err) => Err(err),
                            Ok(arg) => if name == ping_name() {
                                Ok(Cmd::Ping(arg))
                            } else if name == echo_name() {
                                Ok(Cmd::Echo(arg))
                            } else {
                                Err(BuildError::UnknownCommand)
                            },
                        }
                    },
                    _ => Err(BuildError::UnrecognizedShape),
                }
            }
        },
        _ => Err(BuildError::UnrecognizedShape),
    }
}

/// Dispatch is the left inverse of re-serialization: the request array a
/// command writes for itself builds an equivalent command back.
pub proof fn lemma_build_round_trip(c: Cmd)
    ensures
        build_model(request_of(c)) == Ok::<Cmd, BuildError>(c),
{
    assert(ping_name()[0] != echo_name()[0]);
    match c {
        Cmd::Ping(m) => {
            if m.len() == 0 {
                assert(m =~= Seq::<u8>::empty());
            }
        },
        Cmd::Echo(m) => {
            assert(echo_name() != ping_name());
        },
    }
}

/// The full round trip at the byte level: the request bytes a command writes
/// for itself decode back to its request array, and that array builds an
/// equivalent command.
pub proof fn lemma_command_bytes_round_trip(c: Cmd, rest: Seq<u8>)
    requires
        (match c {
            Cmd::Ping(m) => m.len() <= usize::MAX,
            Cmd::Echo(m) => m.len() <= usize::MAX,
        }),
    ensures
        parse_el(encoding(request_of(c)) + rest, 0) == Ok::<(Elem, int), ParseError>(
            (request_of(c), encoding(request_of(c)).len() as int),
        ),
        build_model(request_of(c)) == Ok::<Cmd, BuildError>(c),
{
    assert(wf(request_of(c))) by {
        match c {
            Cmd::Ping(m) => {
                if m.len() == 0 {
                    let es = seq![Elem::BulkString(ping_name())];
                    assert(forall|i: int| 0 <= i < es.len() ==> wf(#[trigger] es[i]));
                } else {
                    let es = seq![Elem::BulkString(ping_name()), Elem::BulkString(m)];
                    assert(forall|i: int| 0 <= i < es.len() ==> wf(#[trigger] es[i]));
                }
            },
            Cmd::Echo(m) => {
                let es = seq![Elem::BulkString(echo_name()), Elem::BulkString(m)];
                assert(forall|i: int| 0 <= i < es.len() ==> wf(#[trigger] es[i]));
            },
        }
    }
    lemma_round_trip(request_of(c), rest);
    lemma_build_round_trip(c);
}

fn ping_name_vec() -> (r: Vec<u8>)
    ensures
        r@ == ping_name(),
{
    let mut v: Vec<u8> = Vec::new();
    v.push(80);
    v.push(73);
    v.push(78);
    v.push(71);
    assert(v@ =~= ping_name());
    v
}

fn echo_name_vec() -> (r: Vec<u8>)
    ensures
        r@ == echo_name(),
{
    let mut v: Vec<u8> = Vec::new();
    v.push(69);
    v.push(67);
    v.push(72);
    v.push(79);
    assert(v@ =~= echo_name());
    v
}

fn pong_text_vec() -> (r: Vec<u8>)
    ensures
        r@ == pong_text(),
{
    let mut v: Vec<u8> = Vec::new();
    v.push(80);
    v.push(79);
    v.push(78);
    v.push(71);
    assert(v@ =~= pong_text());
    v
}

/// Byte-for-byte equality of two strings.
fn bytes_eq(a: &[u8], b: &[u8]) -> (r: bool)
    ensures
        r == (a@ == b@),
{
    if a.len() != b.len() {
        return false;
    }
    let n = a.len();
    let mut i: usize = 0;
    while i < n
        invariant
            i <= n,
            n == a@.len() == b@.len(),
            forall|j: int| 0 <= j < i ==> a@[j] == b@[j],
        decreases n - i,
    {
        if a[i] != b[i] {
            return false;
        }
        i = i + 1;
    }
    assert(a@ =~= b@);
    true
}

/// The `ECHO` command: always replies with its argument as a bulk string.
#[derive(Debug)]
pub struct Echo {
    message: Vec<u8>,
}

/// The `PING` command: replies `PONG`, or echoes its argument if it has one.
#[derive(Debug)]
pub struct Ping {
    message: Vec<u8>,
}

impl Echo {
    /// The argument this command carries.
    pub closed spec fn msg(&self) -> Seq<u8> {
        self.message@
    }

    pub open spec fn model(&self) -> Cmd {
        Cmd::Echo(self.msg())
    }

    pub fn new(message: &[u8]) -> (r: Self)
        ensures
            r.msg() == message@,
    {
        Echo { message: vstd::slice::slice_to_vec(message) }
    }

    /// Executes the command: the encoded reply bytes.
    pub fn handle(&self) -> (r: Vec<u8>)
        ensures
            r@ == encoding(reply_of(self.model())),
    {
        let data = vstd::slice::slice_to_vec(self.message.as_slice());
        Element::BulkString(data).to_vec()
    }

    /// Re-serializes the command into its RESP request bytes.
    pub fn to_vec(&self) -> (r: Vec<u8>)
        ensures
            r@ == encoding(request_of(self.model())),
    {
        let mut items: Vec<Element> = Vec::new();
        items.push(Element::BulkString(echo_name_vec()));
        items.push(Element::BulkString(vstd::slice::slice_to_vec(self.message.as_slice())));
        proof {
            lemma_views_of(items@);
            assert(views_of(items@) =~= seq![
                Elem::BulkString(echo_name()),
                Elem::BulkString(self.msg()),
            ]);
        }
        Element::Array(items).to_vec()
    }
}

impl Ping {
    /// The argument this command carries; empty when `PING` stands alone.
    pub closed spec fn msg(&self) -> Seq<u8> {
        self.message@
    }

    pub open spec fn model(&self) -> Cmd {
        Cmd::Ping(self.msg())
    }

    pub fn new(message: &[u8]) -> (r: Self)
        ensures
            r.msg() == message@,
    {
        Ping { message: vstd::slice::slice_to_vec(message) }
    }

    /// Executes the command: the encoded reply bytes.
    pub fn handle(&self) -> (r: Vec<u8>)
        ensures
            r@ == encoding(reply_of(self.model())),
    {
        if self.message.len() == 0 {
            Element::SimpleString(pong_text_vec()).to_vec()
        } else {
            let data = vstd::slice::slice_to_vec(self.message.as_slice());
            Element::BulkString(data).to_vec()
        }
    }

    /// Re-serializes the command into its RESP request bytes.
    pub fn to_vec(&self) -> (r: Vec<u8>)
        ensures
            r@ == encoding(request_of(self.model())),
    {
        let mut items: Vec<Element> = Vec::new();
        items.push(Element::BulkString(ping_name_vec()));
        if self.message.len() > 0 {
            items.push(Element::BulkString(vstd::slice::slice_to_vec(self.message.as_slice())));
            proof {
                lemma_views_of(items@);
                assert(views_of(items@) =~= seq![
                    Elem::BulkString(ping_name()),
                    Elem::BulkString(self.msg()),
                ]);
            }
        } else {
            proof {
                lemma_views_of(items@);
                assert(views_of(items@) =~= seq![Elem::BulkString(ping_name())]);
            }
        }
        Element::Array(items).to_vec()
    }
}

/// A dispatched command, ready to execute: the closed set of operations this
/// core supports.
#[derive(Debug)]
pub enum Command {
    Ping(Ping),
    Echo(Echo),
}

impl Command {
    pub open spec fn model(&self) -> Cmd {
        match self {
            Command::Ping(p) => p.model(),
            Command::Echo(e) => e.model(),
        }
    }

    /// Executes the command: the encoded reply bytes.
    pub fn handle(&self) -> (r: Vec<u8>)
        ensures
            r@ == encoding(reply_of(self.model())),
    {
        match self {
            Command::Ping(p) => p.handle(),
            Command::Echo(e) => e.handle(),
        }
    }

    /// Re-serializes the command into its RESP request bytes.
    pub fn to_vec(&self) -> (r: Vec<u8>)
        ensures
            r@ == encoding(request_of(self.model())),
    {
        match self {
            Command::Ping(p) => p.to_vec(),
            Command::Echo(e) => e.to_vec(),
        }
    }
}

/// Builds the command a decoded request value names, with its argument; an
/// absent second member is an empty argument.
pub fn build_cmd(array: Element) -> (r: Result<Command, BuildError>)
    ensures
        (match r {
            Ok(c) => build_model(array.view()) == Ok::<Cmd, BuildError>(c.model()),
            Err(e) => build_model(array.view()) == Err::<Cmd, BuildError>(e),
        }),
{
    match array {
        Element::Array(es) => {
            proof {
                lemma_views_of(es@);
            }
            if es.len() == 0 {
                return Err(BuildError::UnrecognizedShape);
            }
            match &es[0] {
                Element::BulkString(name) => {
                    let arg: Vec<u8> = if es.len() == 1 {
                        Vec::new()
                    } else {
                        match &es[1] {
                            Element::BulkString(a) => vstd::slice::slice_to_vec(a.as_slice()),
                            _ => {
                                return Err(BuildError::UnrecognizedShape);
                            },
                        }
                    };
                    let pn = ping_name_vec();
                    let en = echo_name_vec();
                    if bytes_eq(name.as_slice(), pn.as_slice()) {
                        Ok(Command::Ping(Ping { message: arg }))
                    } else if bytes_eq(name.as_slice(), en.as_slice()) {
                        Ok(Command::Echo(Echo { message: arg }))
                    } else {
                        Err(BuildError::UnknownCommand)
                    }
                },
                _ => Err(BuildError::UnrecognizedShape),
            }
        },
        _ => Err(BuildError::UnrecognizedShape),
    }
}

} // verus!
