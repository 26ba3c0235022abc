//! Tests of the wire codec: byte-exact encodings, decode round trips,
//! partial-read behaviour, and malformed input.

use resp_kv::resp::{parse_int, parse_message, read_until_crlf, DecodeError, Value};

fn bulk(s: &str) -> Value {
    Value::BulkString(s.as_bytes().to_vec())
}

fn simple(s: &str) -> Value {
    Value::SimpleString(s.as_bytes().to_vec())
}

#[test]
fn serialise_simple_string() {
    assert_eq!(simple("OK").serialise(), b"+OK\r\n".to_vec());
}

#[test]
fn serialise_bulk_string() {
    assert_eq!(bulk("foo").serialise(), b"$3\r\nfoo\r\n".to_vec());
}

#[test]
fn serialise_null_bulk_string() {
    assert_eq!(Value::NullBulkString.serialise(), b"$-1\r\n".to_vec());
}

#[test]
fn serialise_array() {
    let v = Value::Array(vec![bulk("PING")]);
    assert_eq!(v.serialise(), b"*1\r\n$4\r\nPING\r\n".to_vec());
}

#[test]
fn serialise_longer_lengths() {
    let payload = "x".repeat(12);
    let mut expected = b"$12\r\n".to_vec();
    expected.extend_from_slice(payload.as_bytes());
    expected.extend_from_slice(b"\r\n");
    assert_eq!(bulk(&payload).serialise(), expected);
}

fn assert_round_trip(v: Value) {
    let encoded = v.serialise();
    let (decoded, consumed) = parse_message(&encoded, 0).expect("decode of an encoding");
    assert_eq!(consumed, encoded.len());
    assert_eq!(decoded.serialise(), encoded);
}

#[test]
fn round_trip_simple_string() {
    assert_round_trip(simple("PONG"));
}

#[test]
fn round_trip_bulk_string() {
    assert_round_trip(bulk("hello"));
    assert_round_trip(bulk(""));
}

#[test]
fn round_trip_null_bulk_string() {
    assert_round_trip(Value::NullBulkString);
}

#[test]
fn round_trip_array() {
    assert_round_trip(Value::Array(vec![bulk("SET"), bulk("k"), bulk("v")]));
    assert_round_trip(Value::Array(vec![]));
}

#[test]
fn round_trip_nested_array() {
    let inner = Value::Array(vec![bulk("a"), Value::NullBulkString]);
    let v = Value::Array(vec![simple("ok"), inner]);
    assert_round_trip(v);
}

#[test]
fn decode_null_bulk_string() {
    let (decoded, consumed) = parse_message(b"$-1\r\n", 0).unwrap();
    assert!(matches!(decoded, Value::NullBulkString));
    assert_eq!(consumed, 5);
}

#[test]
fn decode_resumes_at_offset() {
    let bytes = b"+OK\r\n+PONG\r\n";
    let (first, n1) = parse_message(bytes, 0).unwrap();
    assert_eq!(first.serialise(), b"+OK\r\n".to_vec());
    let (second, n2) = parse_message(bytes, n1).unwrap();
    assert_eq!(second.serialise(), b"+PONG\r\n".to_vec());
    assert_eq!(n1 + n2, bytes.len());
}

#[test]
fn partial_reads_signal_incomplete() {
    let full = b"*1\r\n$4\r\nPING\r\n";
    for i in 0..full.len() {
        let r = parse_message(&full[..i], 0);
        assert_eq!(r.unwrap_err(), DecodeError::Incomplete, "prefix of {} bytes", i);
    }
    let (decoded, consumed) = parse_message(full, 0).unwrap();
    assert_eq!(consumed, full.len());
    match decoded {
        Value::Array(items) => {
            assert_eq!(items.len(), 1);
            assert_eq!(items[0].serialise(), b"$4\r\nPING\r\n".to_vec());
        },
        other => panic!("expected an array, got {:?}", other),
    }
}

#[test]
fn missing_trailing_crlf_needs_more_input() {
    // A proper prefix of a valid request: the decoder asks for more
    // input rather than failing, and nothing crashes.
    let r = parse_message(b"*1\r\n$4\r\nPING", 0);
    assert_eq!(r.unwrap_err(), DecodeError::Incomplete);
}

#[test]
fn unknown_tag_is_malformed() {
    assert_eq!(parse_message(b"@foo\r\n", 0).unwrap_err(), DecodeError::Malformed);
}

#[test]
fn bad_length_is_malformed() {
    assert_eq!(parse_message(b"$x\r\nfoo\r\n", 0).unwrap_err(), DecodeError::Malformed);
    assert_eq!(parse_message(b"*-2\r\n", 0).unwrap_err(), DecodeError::Malformed);
    assert_eq!(parse_message(b"$-7\r\n", 0).unwrap_err(), DecodeError::Malformed);
}

#[test]
fn wrong_trailer_is_malformed() {
    assert_eq!(parse_message(b"$4\r\nPINGxy", 0).unwrap_err(), DecodeError::Malformed);
}

#[test]
fn parse_int_accepts_signed_decimals() {
    assert_eq!(parse_int(b"123"), Some(123));
    assert_eq!(parse_int(b"0"), Some(0));
    assert_eq!(parse_int(b"-1"), Some(-1));
    assert_eq!(parse_int(b"+42"), Some(42));
    assert_eq!(parse_int(b"9223372036854775807"), Some(i64::MAX));
    assert_eq!(parse_int(b"-9223372036854775808"), Some(i64::MIN));
}

#[test]
fn parse_int_rejects_junk_and_overflow() {
    assert_eq!(parse_int(b""), None);
    assert_eq!(parse_int(b"-"), None);
    assert_eq!(parse_int(b"12a"), None);
    assert_eq!(parse_int(b" 1"), None);
    assert_eq!(parse_int(b"9223372036854775808"), None);
    assert_eq!(parse_int(b"-9223372036854775809"), None);
}

#[test]
fn read_until_crlf_splits_first_line() {
    let (line, n) = read_until_crlf(b"abc\r\nrest").unwrap();
    assert_eq!(line, b"abc");
    assert_eq!(n, 5);
    assert!(read_until_crlf(b"abc").is_none());
    assert!(read_until_crlf(b"abc\r").is_none());
}
