//! One request/reply cycle: the pure core a connection loop drives. The loop
//! owns the transport; on each read it hands the bytes here and writes back
//! whatever bytes come out.

use vstd::prelude::*;
use crate::parser::{ParseError, parse_el, parse_iter, encoding};
use crate::command::{BuildError, build_cmd, build_model, reply_of};

verus! {

/// Why a request produced no reply: its bytes did not decode to a value, or
/// the decoded value built no command.
#[derive(Clone, Copy, Debug, PartialEq, Eq, Structural)]
pub enum RequestError {
    Parse(ParseError),
    Build(BuildError),
}

/// What one request's bytes must produce: the encoded reply of the command
/// that the decoded value builds, or the first error on the way there.
pub open spec fn request_outcome(bytes: Seq<u8>) -> Result<Seq<u8>, RequestError> {
    match parse_el(bytes, 0) {
        Err(pe) => Err(RequestError::Parse(pe)),
        Ok((e, _)) => match build_model(e) {
            Err(be) => Err(RequestError::Build(be)),
            Ok(c) => Ok(encoding(reply_of(c))),
        },
    }
}

/// Decodes exactly one request from the start of `input`, builds the command
/// it names, executes it, and returns the encoded reply bytes.
pub fn handle_request(input: &[u8]) -> (r: Result<Vec<u8>, RequestError>)
    ensures
        (match r {
            Ok(v) => request_outcome(input@) == Ok::<Seq<u8>, RequestError>(v@),
            Err(e) => request_outcome(input@) == Err::<Seq<u8>, RequestError>(e),
        }),
{
    match parse_iter(input, 0) {
        Err(pe) => Err(RequestError::Parse(pe)),
        Ok((el, _)) => match build_cmd(el) {
            Err(be) => Err(RequestError::Build(be)),
            Ok(cmd) => Ok(cmd.handle()),
        },
    }
}

} // verus!
