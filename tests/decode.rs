use resp_server::error::{DecodeError, ProtocolError};
use resp_server::network::{read_command, read_integer, read_value};
use resp_server::value::{ArgsVec, RedisRequest, RedisValue, StringVec};

fn bytes(s: &[u8]) -> StringVec {
    StringVec::from_vec(s.to_vec())
}

fn bulk(s: &str) -> RedisValue {
    RedisValue::String(bytes(s.as_bytes()))
}

fn args(values: Vec<RedisValue>) -> ArgsVec {
    ArgsVec::from_vec(values)
}

fn request(input: &str) -> Result<(RedisRequest, usize), DecodeError> {
    read_command(input.as_bytes())
}

fn protocol(e: ProtocolError) -> DecodeError {
    DecodeError::Protocol(e)
}

#[test]
fn nested_arrays_three_deep() {
    let input = b"*1\r\n*1\r\n*1\r\n$3\r\nfoo\r\n";
    let (v, used) = read_value(input).unwrap();
    assert_eq!(used, input.len());
    let expected = RedisValue::Array(vec![RedisValue::Array(vec![RedisValue::Array(vec![bulk("foo")])])]);
    assert_eq!(v, expected);
}

#[test]
fn nested_arrays_five_hundred_deep() {
    let depth = 500;
    let mut input = Vec::new();
    for _ in 0..depth {
        input.extend_from_slice(b"*1\r\n");
    }
    input.extend_from_slice(b":7\r\n");
    let (mut v, used) = read_value(&input).unwrap();
    assert_eq!(used, input.len());
    for _ in 0..depth {
        v = match v {
            RedisValue::Array(mut items) => {
                assert_eq!(items.len(), 1);
                items.pop().unwrap()
            }
            other => panic!("expected an array, got {:?}", other),
        };
    }
    assert_eq!(v, RedisValue::Integer(7));
}

#[test]
fn mixed_array_elements() {
    let input = b"*3\r\n:-12\r\n*0\r\n$0\r\n\r\n";
    let (v, used) = read_value(input).unwrap();
    assert_eq!(used, input.len());
    assert_eq!(v, RedisValue::Array(vec![RedisValue::Integer(-12), RedisValue::Array(vec![]), bulk("")]));
}

#[test]
fn bulk_command_ping_hello_world() {
    let input = "*2\r\n$4\r\nPING\r\n$11\r\nhello world\r\n";
    let (req, used) = request(input).unwrap();
    assert_eq!(used, input.len());
    assert_eq!(req.command, bytes(b"PING"));
    assert_eq!(req.args, args(vec![bulk("hello world")]));
}

#[test]
fn bulk_command_leaves_following_bytes() {
    let input = "*1\r\n$4\r\nPING\r\n*1\r\n";
    let (req, used) = request(input).unwrap();
    assert_eq!(used, 14);
    assert_eq!(req.command, bytes(b"PING"));
    assert_eq!(req.args, args(vec![]));
}

#[test]
fn inline_ping() {
    let (req, used) = request("PING\r\n").unwrap();
    assert_eq!(used, 6);
    assert_eq!(req.command, bytes(b"PING"));
    assert_eq!(req.args, args(vec![]));
}

#[test]
fn inline_set_foo_bar() {
    let (req, used) = request("SET foo bar\r\n").unwrap();
    assert_eq!(used, 13);
    assert_eq!(req.command, bytes(b"SET"));
    assert_eq!(req.args, args(vec![bulk("foo"), bulk("bar")]));
}

#[test]
fn truncated_input_is_connection_closed() {
    let full = "*2\r\n$4\r\nPING\r\n$11\r\nhello world\r\n";
    for cut in 0..full.len() {
        assert_eq!(request(&full[..cut]).unwrap_err(), DecodeError::ConnectionClosed, "cut at {}", cut);
    }
    assert_eq!(request("SET foo").unwrap_err(), DecodeError::ConnectionClosed);
}

#[test]
fn zero_count_is_no_command() {
    assert_eq!(request("*0\r\n$3\r\nGET\r\n").unwrap_err(), protocol(ProtocolError::NoCommand));
    assert_eq!(request("*0\r\n").unwrap_err(), protocol(ProtocolError::NoCommand));
}

#[test]
fn integer_overflow_is_protocol_error() {
    let input = b":99999999999999999999\r\n";
    assert_eq!(read_integer(input, 1).unwrap_err(), protocol(ProtocolError::TooLargeInteger));
    assert_eq!(read_value(input).unwrap_err(), protocol(ProtocolError::TooLargeInteger));
}

#[test]
fn integer_extremes() {
    let max = b":9223372036854775807\r\n";
    assert_eq!(read_integer(max, 1).unwrap(), (i64::MAX, max.len()));
    let min = b":-9223372036854775808\r\n";
    assert_eq!(read_integer(min, 1).unwrap(), (i64::MIN, min.len()));
    assert_eq!(read_integer(b":9223372036854775808\r\n", 1).unwrap_err(), protocol(ProtocolError::TooLargeInteger));
    assert_eq!(read_integer(b":-9223372036854775809\r\n", 1).unwrap_err(), protocol(ProtocolError::TooLargeInteger));
}

#[test]
fn integer_round_trip_samples() {
    for n in [0i64, 1, -1, 9, 10, -10, 12345, -987654321, i64::MAX, i64::MIN] {
        let text = format!(":{}\r\n", n);
        assert_eq!(read_integer(text.as_bytes(), 1).unwrap(), (n, text.len()));
    }
}

#[test]
fn integer_errors() {
    assert_eq!(read_integer(b":12\rx", 1).unwrap_err(), protocol(ProtocolError::UnexpectedLineEnding));
    assert_eq!(read_integer(b":1a\r\n", 1).unwrap_err(), protocol(ProtocolError::NonDigit));
    assert_eq!(read_integer(b":000000000000000000000\r\n", 1).unwrap_err(), protocol(ProtocolError::InvalidInteger));
    assert_eq!(read_integer(b":12", 1).unwrap_err(), DecodeError::ConnectionClosed);
}

#[test]
fn integer_first_byte_is_permissive() {
    assert_eq!(read_integer(b"+5\r\n", 0).unwrap(), (5, 4));
}

#[test]
fn negative_size_is_refused() {
    assert_eq!(read_value(b"$-1\r\n").unwrap_err(), protocol(ProtocolError::NegativeSize));
    assert_eq!(request("*-1\r\n").unwrap_err(), protocol(ProtocolError::NoCommand));
}

#[test]
fn command_name_must_be_bulk_string() {
    assert_eq!(
        request("*1\r\n:1\r\n").unwrap_err(),
        protocol(ProtocolError::UnexpectedByte { expected: b'$', found: b':' })
    );
}

#[test]
fn bulk_string_needs_line_ending() {
    assert_eq!(
        request("*1\r\n$3\r\nGETx\n").unwrap_err(),
        protocol(ProtocolError::UnexpectedByte { expected: b'\r', found: b'x' })
    );
}

#[test]
fn unknown_argument_tag() {
    assert_eq!(request("*2\r\n$3\r\nGET\r\n+x\r\n").unwrap_err(), protocol(ProtocolError::InvalidArgument));
}

#[test]
fn inline_errors() {
    assert_eq!(request("\r\n").unwrap_err(), protocol(ProtocolError::EmptyCommand));
    assert_eq!(request("\n").unwrap_err(), protocol(ProtocolError::EmptyCommand));
    assert_eq!(request("PI\nNG\r\n").unwrap_err(), protocol(ProtocolError::UnexpectedLinefeed));
    assert_eq!(
        request("PING\rx").unwrap_err(),
        protocol(ProtocolError::UnexpectedByte { expected: b'\n', found: b'x' })
    );
}

#[test]
fn empty_input_is_connection_closed() {
    assert_eq!(request("").unwrap_err(), DecodeError::ConnectionClosed);
}

fn encode_request(command: &[u8], args: &[&[u8]]) -> Vec<u8> {
    let mut out = format!("*{}\r\n", args.len() + 1).into_bytes();
    for part in std::iter::once(command).chain(args.iter().copied()) {
        out.extend_from_slice(format!("${}\r\n", part.len()).as_bytes());
        out.extend_from_slice(part);
        out.extend_from_slice(b"\r\n");
    }
    out
}

#[test]
fn multi_bulk_round_trip() {
    let cases: Vec<(&[u8], Vec<&[u8]>)> = vec![
        (b"PING", vec![]),
        (b"SET", vec![b"key", b"value with spaces"]),
        (b"MSET", vec![b"", b"\r\n", b"0123456789abcdefghijklmnopqrstuvwxyz"]),
    ];
    for (command, parts) in cases {
        let mut encoded = encode_request(command, &parts);
        let len = encoded.len();
        encoded.extend_from_slice(b"*1\r\n");
        let (req, used) = read_command(&encoded).unwrap();
        assert_eq!(used, len);
        assert_eq!(req.command, bytes(command));
        let expected: Vec<RedisValue> = parts.iter().map(|a| RedisValue::String(bytes(a))).collect();
        assert_eq!(req.args, args(expected));
    }
}

#[test]
fn integer_round_trip_through_value() {
    for n in [0i64, 42, -42, i64::MAX, i64::MIN] {
        let text = format!(":{}\r\n", n);
        assert_eq!(read_value(text.as_bytes()).unwrap(), (RedisValue::Integer(n), text.len()));
    }
}

#[test]
fn multi_bulk_round_trip_with_integer_and_nested_arguments() {
    let input = "*4\r\n$3\r\nCMD\r\n:-5\r\n*2\r\n:1\r\n*1\r\n$1\r\nx\r\n$0\r\n\r\n";
    let (req, used) = request(input).unwrap();
    assert_eq!(used, input.len());
    assert_eq!(req.command, bytes(b"CMD"));
    let nested = RedisValue::Array(vec![RedisValue::Integer(1), RedisValue::Array(vec![bulk("x")])]);
    assert_eq!(req.args, args(vec![RedisValue::Integer(-5), nested, bulk("")]));
}

#[test]
fn out_of_range_digits_with_leading_zeros() {
    assert_eq!(
        read_integer(b":0009223372036854775808\r\n", 1).unwrap_err(),
        protocol(ProtocolError::InvalidInteger)
    );
    assert_eq!(
        read_integer(b":-00009223372036854775809\r\n", 1).unwrap_err(),
        protocol(ProtocolError::InvalidInteger)
    );
    assert_eq!(read_integer(b":00012\r\n", 1).unwrap(), (12, 8));
}

#[test]
fn negative_count_is_no_command() {
    assert_eq!(request("*-3\r\n$3\r\nGET\r\n").unwrap_err(), protocol(ProtocolError::NoCommand));
}
