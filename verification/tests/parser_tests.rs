use resp_core::parser::{parse_iter, Element, ParseError};

fn parse(input: &[u8]) -> Element {
    parse_iter(input, 0).unwrap().0
}

#[test]
fn test_parse_simple_string() {
    let string = "+test123\r\n";
    let result = parse(string.as_bytes());
    assert_eq!(result, Element::SimpleString("test123".as_bytes().to_vec()));
}

#[test]
fn test_parse_simple_errors() {
    let string = "-test123\r\n";
    let result = parse(string.as_bytes());
    assert_eq!(result, Element::Error("test123".as_bytes().to_vec()));
}

#[test]
fn test_parse_integer() {
    let string = ":123\r\n";
    let result = parse(string.as_bytes());
    assert_eq!(result, Element::Integer(123));

    let string = ":+123\r\n";
    let result = parse(string.as_bytes());
    assert_eq!(result, Element::Integer(123));

    let string = ":-123\r\n";
    let result = parse(string.as_bytes());
    assert_eq!(result, Element::Integer(-123));
}

#[test]
fn test_bulk_string() {
    let string = "$5\r\nhello\r\n";
    let result = parse(string.as_bytes());
    assert_eq!(result, Element::BulkString("hello".as_bytes().to_vec()));

    let string = "$0\r\n\r\n";
    let result = parse(string.as_bytes());
    assert_eq!(result, Element::BulkString("".as_bytes().to_vec()));
}

#[test]
fn test_array() {
    let string = "*0\r\n";
    let result = parse(string.as_bytes());
    assert_eq!(result, Element::Array(vec![]));

    let string = "*2\r\n$5\r\nhello\r\n$5\r\nworld\r\n";
    let result = parse(string.as_bytes());
    let hello = Element::BulkString("hello".as_bytes().to_vec());
    let world = Element::BulkString("world".as_bytes().to_vec());
    assert_eq!(result, Element::Array(vec![hello, world]));

    let string = "*3\r\n:1\r\n:2\r\n:3\r\n";
    let result = parse(string.as_bytes());
    let one = Element::Integer(1);
    let two = Element::Integer(2);
    let three = Element::Integer(3);
    assert_eq!(result, Element::Array(vec![one, two, three]));

    let string = "*5\r\n:1\r\n:2\r\n:3\r\n:4\r\n$5\r\nhello\r\n";
    let result = parse(string.as_bytes());
    let one = Element::Integer(1);
    let two = Element::Integer(2);
    let three = Element::Integer(3);
    let four = Element::Integer(4);
    let hello = Element::BulkString("hello".as_bytes().to_vec());
    assert_eq!(result, Element::Array(vec![one, two, three, four, hello]));

    let string = "*2\r\n*3\r\n:1\r\n:2\r\n:3\r\n*2\r\n+Hello\r\n-World\r\n";
    let result = parse(string.as_bytes());
    let one = Element::Integer(1);
    let two = Element::Integer(2);
    let three = Element::Integer(3);
    let hello = Element::SimpleString("Hello".as_bytes().to_vec());
    let world = Element::Error("World".as_bytes().to_vec());
    assert_eq!(
        result,
        Element::Array(vec![
            Element::Array(vec![one, two, three]),
            Element::Array(vec![hello, world])
        ])
    );
}

#[test]
fn test_null() {
    let string = "_\r\n";
    let result = parse(string.as_bytes());
    assert_eq!(result, Element::Null);
}

#[test]
fn test_boolean() {
    let string = "#t\r\n";
    let result = parse(string.as_bytes());
    assert_eq!(result, Element::Boolean(true));

    let string = "#f\r\n";
    let result = parse(string.as_bytes());
    assert_eq!(result, Element::Boolean(false));
}

#[test]
fn encode_simple_string() {
    let e = Element::SimpleString("OK".as_bytes().to_vec());
    assert_eq!(e.to_vec(), "+OK\r\n".as_bytes().to_vec());
}

#[test]
fn encode_error() {
    let e = Element::Error("World".as_bytes().to_vec());
    assert_eq!(e.to_vec(), "-World\r\n".as_bytes().to_vec());
}

#[test]
fn encode_integer() {
    assert_eq!(Element::Integer(123).to_vec(), ":123\r\n".as_bytes().to_vec());
    assert_eq!(Element::Integer(-123).to_vec(), ":-123\r\n".as_bytes().to_vec());
    assert_eq!(Element::Integer(0).to_vec(), ":0\r\n".as_bytes().to_vec());
}

#[test]
fn encode_null_and_boolean() {
    assert_eq!(Element::Null.to_vec(), "_\r\n".as_bytes().to_vec());
    assert_eq!(Element::Boolean(true).to_vec(), "#t\r\n".as_bytes().to_vec());
    assert_eq!(Element::Boolean(false).to_vec(), "#f\r\n".as_bytes().to_vec());
}

#[test]
fn round_trip_scalars() {
    let cases = vec![
        Element::SimpleString("test123".as_bytes().to_vec()),
        Element::Error("oops".as_bytes().to_vec()),
        Element::Integer(-2147483648),
        Element::Integer(2147483647),
        Element::BulkString("hello".as_bytes().to_vec()),
        Element::Null,
        Element::Boolean(true),
        Element::Boolean(false),
    ];
    for e in cases {
        let bytes = e.to_vec();
        let (back, used) = parse_iter(&bytes, 0).unwrap();
        assert_eq!(back, e);
        assert_eq!(used, bytes.len());
    }
}

#[test]
fn round_trip_nested_array() {
    let e = Element::Array(vec![
        Element::Array(vec![Element::Integer(1), Element::Integer(2)]),
        Element::BulkString("xy".as_bytes().to_vec()),
        Element::Array(vec![]),
    ]);
    let bytes = e.to_vec();
    let (back, used) = parse_iter(&bytes, 0).unwrap();
    assert_eq!(back, e);
    assert_eq!(used, bytes.len());
}

#[test]
fn bulk_string_binary_safe() {
    // CR, LF and NUL inside the payload: only the length prefix frames it.
    let payload = vec![13u8, 10, 0, 36, 13, 10, 255];
    let e = Element::BulkString(payload.clone());
    let bytes = e.to_vec();
    assert_eq!(bytes, {
        let mut w = "$7\r\n".as_bytes().to_vec();
        w.extend(payload.clone());
        w.extend("\r\n".as_bytes());
        w
    });
    let (back, used) = parse_iter(&bytes, 0).unwrap();
    assert_eq!(back, Element::BulkString(payload));
    assert_eq!(used, bytes.len());
}

#[test]
fn truncated_simple_string_is_truncation() {
    let r = parse_iter("+abc".as_bytes(), 0);
    assert_eq!(r.unwrap_err(), ParseError::Truncation);
}

#[test]
fn empty_input_is_truncation() {
    let r = parse_iter("".as_bytes(), 0);
    assert_eq!(r.unwrap_err(), ParseError::Truncation);
}

#[test]
fn truncated_bulk_string_is_truncation() {
    let r = parse_iter("$5\r\nab".as_bytes(), 0);
    assert_eq!(r.unwrap_err(), ParseError::Truncation);

    // Payload present but the closing terminator missing.
    let r = parse_iter("$5\r\nhello".as_bytes(), 0);
    assert_eq!(r.unwrap_err(), ParseError::Truncation);
}

#[test]
fn truncated_array_is_truncation() {
    let r = parse_iter("*2\r\n:1\r\n".as_bytes(), 0);
    assert_eq!(r.unwrap_err(), ParseError::Truncation);
}

#[test]
fn unknown_tag_is_malformed() {
    let r = parse_iter("?x\r\n".as_bytes(), 0);
    assert_eq!(r.unwrap_err(), ParseError::Malformed);
}

#[test]
fn bad_integer_is_malformed() {
    assert_eq!(parse_iter(":12a\r\n".as_bytes(), 0).unwrap_err(), ParseError::Malformed);
    assert_eq!(parse_iter(":\r\n".as_bytes(), 0).unwrap_err(), ParseError::Malformed);
    assert_eq!(parse_iter(":+\r\n".as_bytes(), 0).unwrap_err(), ParseError::Malformed);
    // One past the signed 32-bit range, either side.
    assert_eq!(parse_iter(":2147483648\r\n".as_bytes(), 0).unwrap_err(), ParseError::Malformed);
    assert_eq!(parse_iter(":-2147483649\r\n".as_bytes(), 0).unwrap_err(), ParseError::Malformed);
}

#[test]
fn bad_boolean_is_malformed() {
    assert_eq!(parse_iter("#x\r\n".as_bytes(), 0).unwrap_err(), ParseError::Malformed);
    assert_eq!(parse_iter("#tt\r\n".as_bytes(), 0).unwrap_err(), ParseError::Malformed);
}

#[test]
fn bad_length_is_malformed() {
    assert_eq!(parse_iter("$5x\r\nhello\r\n".as_bytes(), 0).unwrap_err(), ParseError::Malformed);
    assert_eq!(parse_iter("*-1\r\n".as_bytes(), 0).unwrap_err(), ParseError::Malformed);
}

#[test]
fn invalid_utf8_simple_string_is_malformed() {
    let input = vec![43u8, 0xff, 13, 10];
    assert_eq!(parse_iter(&input, 0).unwrap_err(), ParseError::Malformed);
}

#[test]
fn parse_consumes_one_value() {
    // Two values back to back: each decode consumes exactly one.
    let input = ":1\r\n:2\r\n".as_bytes();
    let (first, p) = parse_iter(input, 0).unwrap();
    assert_eq!(first, Element::Integer(1));
    let (second, q) = parse_iter(input, p).unwrap();
    assert_eq!(second, Element::Integer(2));
    assert_eq!(q, input.len());
}
