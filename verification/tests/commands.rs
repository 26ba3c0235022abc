//! Tests of the command interpreter and of the request-to-reply cycle:
//! the concrete wire scenarios, argument validation, and the expiry
//! modifiers.

use resp_kv::cache::Cache;
use resp_kv::command::{extract_command, handle_value, unpack_bulk_str, Command};
use resp_kv::resp::{parse_message, Value};

fn bulk(s: &str) -> Value {
    Value::BulkString(s.as_bytes().to_vec())
}

fn request(parts: &[&str]) -> Value {
    Value::Array(parts.iter().map(|p| bulk(p)).collect())
}

/// Decodes one request from bytes, runs it, and returns the encoded
/// reply, as the connection handler does per request.
fn run(cache: &mut Cache, bytes: &[u8], now: u64) -> Vec<u8> {
    let (value, consumed) = parse_message(bytes, 0).expect("a whole request");
    assert_eq!(consumed, bytes.len());
    handle_value(cache, value, now).serialise()
}

#[test]
fn ping_is_recognised() {
    assert!(matches!(extract_command(request(&["PING"])), Command::Ping));
    assert!(matches!(extract_command(request(&["ping", "extra"])), Command::Ping));
}

#[test]
fn echo_carries_its_argument() {
    match extract_command(request(&["ECHO", "hello"])) {
        Command::Echo(v) => assert_eq!(v.serialise(), b"$5\r\nhello\r\n".to_vec()),
        other => panic!("expected echo, got {:?}", other),
    }
}

#[test]
fn echo_without_argument_is_unknown() {
    assert!(matches!(extract_command(request(&["ECHO"])), Command::Unknown(_)));
}

#[test]
fn get_carries_its_key() {
    match extract_command(request(&["GET", "foo"])) {
        Command::Get(key) => assert_eq!(key, b"foo".to_vec()),
        other => panic!("expected get, got {:?}", other),
    }
    assert!(matches!(extract_command(request(&["GET"])), Command::Unknown(_)));
}

#[test]
fn set_without_modifier_has_no_ttl() {
    match extract_command(request(&["SET", "k", "v"])) {
        Command::Store(key, value, ttl) => {
            assert_eq!(key, b"k".to_vec());
            assert_eq!(value, b"v".to_vec());
            assert_eq!(ttl, None);
        },
        other => panic!("expected a store, got {:?}", other),
    }
}

#[test]
fn set_px_takes_milliseconds() {
    match extract_command(request(&["SET", "k", "v", "PX", "100"])) {
        Command::Store(_, _, ttl) => assert_eq!(ttl, Some(100)),
        other => panic!("expected a store, got {:?}", other),
    }
}

#[test]
fn set_ex_converts_seconds_to_milliseconds() {
    match extract_command(request(&["SET", "k", "v", "EX", "1"])) {
        Command::Store(_, _, ttl) => assert_eq!(ttl, Some(1000)),
        other => panic!("expected a store, got {:?}", other),
    }
}

#[test]
fn malformed_modifier_degrades_to_no_ttl() {
    for parts in [
        ["SET", "k", "v", "PX", "abc"],
        ["SET", "k", "v", "EX", "-5"],
        ["SET", "k", "v", "XX", "100"],
    ] {
        match extract_command(request(&parts)) {
            Command::Store(_, _, ttl) => assert_eq!(ttl, None),
            other => panic!("expected a store, got {:?}", other),
        }
    }
    match extract_command(request(&["SET", "k", "v", "PX"])) {
        Command::Store(_, _, ttl) => assert_eq!(ttl, None),
        other => panic!("expected a store, got {:?}", other),
    }
}

#[test]
fn overlong_ex_duration_degrades_to_no_ttl() {
    // Converting these seconds to milliseconds would not fit u64.
    match extract_command(request(&["SET", "k", "v", "EX", "18446744073709552"])) {
        Command::Store(_, _, ttl) => assert_eq!(ttl, None),
        other => panic!("expected a store, got {:?}", other),
    }
}

#[test]
fn unrecognised_name_is_unknown_with_its_token() {
    match extract_command(request(&["FLUSH"])) {
        Command::Unknown(token) => assert_eq!(token, b"flush".to_vec()),
        other => panic!("expected unknown, got {:?}", other),
    }
}

#[test]
fn non_array_input_is_unknown() {
    assert!(matches!(extract_command(bulk("PING")), Command::Unknown(_)));
    assert!(matches!(extract_command(Value::Array(vec![])), Command::Unknown(_)));
}

#[test]
fn unpack_bulk_str_accepts_only_bulk_strings() {
    assert_eq!(unpack_bulk_str(bulk("x")).unwrap(), b"x".to_vec());
    assert!(unpack_bulk_str(Value::NullBulkString).is_err());
}

#[test]
fn scenario_ping() {
    let mut cache = Cache::new();
    assert_eq!(run(&mut cache, b"*1\r\n$4\r\nPING\r\n", 0), b"+PONG\r\n".to_vec());
}

#[test]
fn scenario_echo() {
    let mut cache = Cache::new();
    assert_eq!(
        run(&mut cache, b"*2\r\n$4\r\nECHO\r\n$5\r\nhello\r\n", 0),
        b"$5\r\nhello\r\n".to_vec(),
    );
}

#[test]
fn scenario_set_then_get() {
    let mut cache = Cache::new();
    assert_eq!(
        run(&mut cache, b"*3\r\n$3\r\nSET\r\n$3\r\nfoo\r\n$3\r\nbar\r\n", 0),
        b"+OK\r\n".to_vec(),
    );
    assert_eq!(
        run(&mut cache, b"*2\r\n$3\r\nGET\r\n$3\r\nfoo\r\n", 0),
        b"$3\r\nbar\r\n".to_vec(),
    );
}

#[test]
fn scenario_get_missing_key() {
    let mut cache = Cache::new();
    assert_eq!(
        run(&mut cache, b"*2\r\n$3\r\nGET\r\n$10\r\nmissingkey\r\n", 0),
        b"$-1\r\n".to_vec(),
    );
}

#[test]
fn scenario_set_with_one_second_expiry() {
    let mut cache = Cache::new();
    assert_eq!(
        run(&mut cache, b"*5\r\n$3\r\nSET\r\n$1\r\nk\r\n$1\r\nv\r\n$2\r\nEX\r\n$1\r\n1\r\n", 0),
        b"+OK\r\n".to_vec(),
    );
    assert_eq!(run(&mut cache, b"*2\r\n$3\r\nGET\r\n$1\r\nk\r\n", 0), b"$1\r\nv\r\n".to_vec());
    assert_eq!(run(&mut cache, b"*2\r\n$3\r\nGET\r\n$1\r\nk\r\n", 1100), b"$-1\r\n".to_vec());
}

#[test]
fn unknown_command_earns_an_error_reply() {
    let mut cache = Cache::new();
    let reply = run(&mut cache, b"*1\r\n$5\r\nFLUSH\r\n", 0);
    assert_eq!(reply, b"+ERR unknown command\r\n".to_vec());
}
