use resp_core::command::{build_cmd, BuildError, Command, Echo, Ping};
use resp_core::parser::{parse_iter, Element, ParseError};
use resp_core::server::{handle_request, RequestError};

#[test]
fn test_handle_ping() {
    let ping = Ping::new("".as_bytes());
    let request = ping.to_vec();
    let reply = handle_request(&request).unwrap();
    assert_eq!(reply, "+PONG\r\n".as_bytes().to_vec());
}

#[test]
fn test_handle_echo() {
    let echo = Echo::new("hey".as_bytes());
    let request = echo.to_vec();
    let reply = handle_request(&request).unwrap();
    assert_eq!(reply, "$3\r\nhey\r\n".as_bytes().to_vec());
}

#[test]
fn ping_no_arg_replies_pong() {
    let reply = handle_request("*1\r\n$4\r\nPING\r\n".as_bytes()).unwrap();
    assert_eq!(reply, "+PONG\r\n".as_bytes().to_vec());
}

#[test]
fn ping_with_arg_echoes_it() {
    let reply = handle_request("*2\r\n$4\r\nPING\r\n$2\r\nhi\r\n".as_bytes()).unwrap();
    assert_eq!(reply, "$2\r\nhi\r\n".as_bytes().to_vec());
}

#[test]
fn echo_replies_its_argument() {
    let reply = handle_request("*2\r\n$4\r\nECHO\r\n$3\r\nhey\r\n".as_bytes()).unwrap();
    assert_eq!(reply, "$3\r\nhey\r\n".as_bytes().to_vec());
}

#[test]
fn echo_is_binary_safe() {
    // The argument holds CR LF and NUL; the reply carries it verbatim.
    let mut request = "*2\r\n$4\r\nECHO\r\n$5\r\n".as_bytes().to_vec();
    request.extend(vec![13u8, 10, 0, 13, 10]);
    request.extend("\r\n".as_bytes());
    let reply = handle_request(&request).unwrap();
    let mut expected = "$5\r\n".as_bytes().to_vec();
    expected.extend(vec![13u8, 10, 0, 13, 10]);
    expected.extend("\r\n".as_bytes());
    assert_eq!(reply, expected);
}

#[test]
fn unknown_command_fails_build() {
    let request = Element::Array(vec![Element::BulkString("FOO".as_bytes().to_vec())]);
    let err = build_cmd(request).unwrap_err();
    assert_eq!(err, BuildError::UnknownCommand);
}

#[test]
fn lowercase_name_is_unknown() {
    // The match is case-sensitive and exact.
    let request = Element::Array(vec![Element::BulkString("ping".as_bytes().to_vec())]);
    assert_eq!(build_cmd(request).unwrap_err(), BuildError::UnknownCommand);
}

#[test]
fn non_array_request_fails_build() {
    assert_eq!(
        build_cmd(Element::Integer(5)).unwrap_err(),
        BuildError::UnrecognizedShape
    );
}

#[test]
fn empty_array_request_fails_build() {
    assert_eq!(
        build_cmd(Element::Array(vec![])).unwrap_err(),
        BuildError::UnrecognizedShape
    );
}

#[test]
fn non_bulk_name_fails_build() {
    let request = Element::Array(vec![Element::Integer(1)]);
    assert_eq!(build_cmd(request).unwrap_err(), BuildError::UnrecognizedShape);
}

#[test]
fn non_bulk_argument_fails_build() {
    let request = Element::Array(vec![
        Element::BulkString("PING".as_bytes().to_vec()),
        Element::Integer(1),
    ]);
    assert_eq!(build_cmd(request).unwrap_err(), BuildError::UnrecognizedShape);
}

#[test]
fn build_reproduces_ping_request() {
    // A command rebuilt from its own request array re-serializes identically.
    let ping = Ping::new("hi".as_bytes());
    let bytes = ping.to_vec();
    let (request, _) = parse_iter(&bytes, 0).unwrap();
    let built = build_cmd(request).unwrap();
    assert_eq!(built.to_vec(), bytes);
    assert!(matches!(built, Command::Ping(_)));
}

#[test]
fn build_reproduces_bare_ping_request() {
    let ping = Ping::new("".as_bytes());
    let bytes = ping.to_vec();
    assert_eq!(bytes, "*1\r\n$4\r\nPING\r\n".as_bytes().to_vec());
    let (request, _) = parse_iter(&bytes, 0).unwrap();
    let built = build_cmd(request).unwrap();
    assert_eq!(built.to_vec(), bytes);
}

#[test]
fn build_reproduces_echo_request() {
    let echo = Echo::new("hey".as_bytes());
    let bytes = echo.to_vec();
    assert_eq!(bytes, "*2\r\n$4\r\nECHO\r\n$3\r\nhey\r\n".as_bytes().to_vec());
    let (request, _) = parse_iter(&bytes, 0).unwrap();
    let built = build_cmd(request).unwrap();
    assert_eq!(built.to_vec(), bytes);
    assert!(matches!(built, Command::Echo(_)));
}

#[test]
fn empty_echo_argument_is_kept() {
    let echo = Echo::new("".as_bytes());
    assert_eq!(echo.handle(), "$0\r\n\r\n".as_bytes().to_vec());
    assert_eq!(echo.to_vec(), "*2\r\n$4\r\nECHO\r\n$0\r\n\r\n".as_bytes().to_vec());
}

#[test]
fn ping_with_arg_request_form() {
    let ping = Ping::new("hi".as_bytes());
    assert_eq!(ping.to_vec(), "*2\r\n$4\r\nPING\r\n$2\r\nhi\r\n".as_bytes().to_vec());
    assert_eq!(ping.handle(), "$2\r\nhi\r\n".as_bytes().to_vec());
}

#[test]
fn request_errors_are_told_apart() {
    assert_eq!(
        handle_request("+abc".as_bytes()).unwrap_err(),
        RequestError::Parse(ParseError::Truncation)
    );
    assert_eq!(
        handle_request("?x\r\n".as_bytes()).unwrap_err(),
        RequestError::Parse(ParseError::Malformed)
    );
    assert_eq!(
        handle_request("*1\r\n$3\r\nFOO\r\n".as_bytes()).unwrap_err(),
        RequestError::Build(BuildError::UnknownCommand)
    );
    assert_eq!(
        handle_request(":1\r\n".as_bytes()).unwrap_err(),
        RequestError::Build(BuildError::UnrecognizedShape)
    );
}

#[test]
fn trailing_buffer_bytes_are_ignored() {
    // A fixed-size read buffer hands over trailing zero bytes; exactly one
    // request is decoded per call.
    let mut request = "*1\r\n$4\r\nPING\r\n".as_bytes().to_vec();
    request.extend(vec![0u8; 498]);
    let reply = handle_request(&request).unwrap();
    assert_eq!(reply, "+PONG\r\n".as_bytes().to_vec());
}
