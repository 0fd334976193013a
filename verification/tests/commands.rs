use respkv::command::{extract_string, Command};
use respkv::resp::RespValue;

fn bulk(s: &[u8]) -> RespValue {
    RespValue::BulkString(s.to_vec())
}

fn req(parts: &[&[u8]]) -> RespValue {
    RespValue::Array(parts.iter().map(|p| bulk(p)).collect())
}

#[test]
fn ping_with_and_without_argument() {
    assert_eq!(
        Command::from_resp(req(&[b"PING"])),
        Ok(Command::Ping(None))
    );
    assert_eq!(
        Command::from_resp(req(&[b"PING", b"hello"])),
        Ok(Command::Ping(Some(b"hello".to_vec())))
    );
}

#[test]
fn command_names_match_case_insensitively() {
    assert_eq!(
        Command::from_resp(req(&[b"ping"])),
        Ok(Command::Ping(None))
    );
    assert_eq!(
        Command::from_resp(req(&[b"sEt", b"k", b"v"])),
        Ok(Command::Put(b"k".to_vec(), b"v".to_vec(), None))
    );
}

#[test]
fn echo_requires_argument() {
    assert_eq!(
        Command::from_resp(req(&[b"ECHO", b"hi"])),
        Ok(Command::Echo(b"hi".to_vec()))
    );
    assert_eq!(
        Command::from_resp(req(&[b"ECHO"])),
        Err(b"ECHO requires an argument".to_vec())
    );
}

#[test]
fn set_with_and_without_px() {
    assert_eq!(
        Command::from_resp(req(&[b"SET", b"foo", b"bar"])),
        Ok(Command::Put(b"foo".to_vec(), b"bar".to_vec(), None))
    );
    assert_eq!(
        Command::from_resp(req(&[b"SET", b"k", b"v", b"px", b"100"])),
        Ok(Command::Put(b"k".to_vec(), b"v".to_vec(), Some(100)))
    );
    // A trailing flag other than PX is passed over.
    assert_eq!(
        Command::from_resp(req(&[b"SET", b"k", b"v", b"EX", b"100"])),
        Ok(Command::Put(b"k".to_vec(), b"v".to_vec(), None))
    );
    assert_eq!(
        Command::from_resp(req(&[b"SET", b"k"])),
        Err(b"SET missing value".to_vec())
    );
    assert_eq!(
        Command::from_resp(req(&[b"SET"])),
        Err(b"SET missing key".to_vec())
    );
    assert_eq!(
        Command::from_resp(req(&[b"SET", b"k", b"v", b"PX"])),
        Err(b"PX requires milliseconds".to_vec())
    );
    assert_eq!(
        Command::from_resp(req(&[b"SET", b"k", b"v", b"PX", b"abc"])),
        Err(b"Invalid PX value".to_vec())
    );
}

#[test]
fn get_requires_key() {
    assert_eq!(
        Command::from_resp(req(&[b"GET", b"foo"])),
        Ok(Command::Get(b"foo".to_vec()))
    );
    assert_eq!(
        Command::from_resp(req(&[b"GET"])),
        Err(b"GET requires a key".to_vec())
    );
}

#[test]
fn rpush_gathers_values() {
    assert_eq!(
        Command::from_resp(req(&[b"RPUSH", b"L", b"a", b"b", b"c"])),
        Ok(Command::RPush(
            b"L".to_vec(),
            vec![b"a".to_vec(), b"b".to_vec(), b"c".to_vec()]
        ))
    );
    assert_eq!(
        Command::from_resp(req(&[b"RPUSH", b"L"])),
        Err(b"RPUSH requires at least one value".to_vec())
    );
    assert_eq!(
        Command::from_resp(req(&[b"RPUSH"])),
        Err(b"RPUSH missing key".to_vec())
    );
}

#[test]
fn rpush_passes_over_non_bulk_values() {
    let resp = RespValue::Array(vec![
        bulk(b"RPUSH"),
        bulk(b"L"),
        RespValue::Integer(1),
        bulk(b"a"),
    ]);
    assert_eq!(
        Command::from_resp(resp),
        Ok(Command::RPush(b"L".to_vec(), vec![b"a".to_vec()]))
    );
}

#[test]
fn lpush_gathers_values() {
    assert_eq!(
        Command::from_resp(req(&[b"LPUSH", b"L", b"x", b"y"])),
        Ok(Command::LPush(b"L".to_vec(), vec![b"x".to_vec(), b"y".to_vec()]))
    );
    assert_eq!(
        Command::from_resp(req(&[b"LPUSH", b"L"])),
        Err(b"LPUSH requires at least one value".to_vec())
    );
}

#[test]
fn lrange_parses_signed_indices() {
    assert_eq!(
        Command::from_resp(req(&[b"LRANGE", b"L", b"0", b"-1"])),
        Ok(Command::LRange(b"L".to_vec(), (0, -1)))
    );
    assert_eq!(
        Command::from_resp(req(&[b"LRANGE", b"L", b"x", b"-1"])),
        Err(b"value is not an integer or out of range".to_vec())
    );
    assert_eq!(
        Command::from_resp(req(&[b"LRANGE", b"L", b"0"])),
        Err(b"LRANGE missing stop".to_vec())
    );
    assert_eq!(
        Command::from_resp(req(&[b"LRANGE", b"L"])),
        Err(b"LRANGE missing start".to_vec())
    );
}

#[test]
fn llen_and_type_take_a_key() {
    assert_eq!(
        Command::from_resp(req(&[b"LLEN", b"L"])),
        Ok(Command::LLen(b"L".to_vec()))
    );
    assert_eq!(
        Command::from_resp(req(&[b"TYPE", b"k"])),
        Ok(Command::Type(b"k".to_vec()))
    );
    assert_eq!(
        Command::from_resp(req(&[b"TYPE"])),
        Err(b"TYPE missing key".to_vec())
    );
}

#[test]
fn lpop_with_optional_count() {
    assert_eq!(
        Command::from_resp(req(&[b"LPOP", b"L"])),
        Ok(Command::LPop(b"L".to_vec(), None))
    );
    assert_eq!(
        Command::from_resp(req(&[b"LPOP", b"L", b"2"])),
        Ok(Command::LPop(b"L".to_vec(), Some(2)))
    );
    assert_eq!(
        Command::from_resp(req(&[b"LPOP", b"L", b"x"])),
        Err(b"value is not an integer".to_vec())
    );
}

#[test]
fn blpop_reads_timeout_in_seconds() {
    assert_eq!(
        Command::from_resp(req(&[b"BLPOP", b"q", b"0"])),
        Ok(Command::BLPop(b"q".to_vec(), 0))
    );
    assert_eq!(
        Command::from_resp(req(&[b"BLPOP", b"q", b"5"])),
        Ok(Command::BLPop(b"q".to_vec(), 5000))
    );
    assert_eq!(
        Command::from_resp(req(&[b"BLPOP", b"q", b"1.5"])),
        Ok(Command::BLPop(b"q".to_vec(), 1500))
    );
    assert_eq!(
        Command::from_resp(req(&[b"BLPOP", b"q", b"0.2"])),
        Ok(Command::BLPop(b"q".to_vec(), 200))
    );
    // Sub-millisecond digits are cut off.
    assert_eq!(
        Command::from_resp(req(&[b"BLPOP", b"q", b"0.0015"])),
        Ok(Command::BLPop(b"q".to_vec(), 1))
    );
    assert_eq!(
        Command::from_resp(req(&[b"BLPOP", b"q", b"-1"])),
        Err(b"value is not an integer".to_vec())
    );
    assert_eq!(
        Command::from_resp(req(&[b"BLPOP", b"q"])),
        Err(b"BLPOP missing timeout duration".to_vec())
    );
}

#[test]
fn unknown_command_is_named_in_error() {
    assert_eq!(
        Command::from_resp(req(&[b"flush", b"x"])),
        Err(b"Unknown command: FLUSH".to_vec())
    );
}

#[test]
fn non_array_request_is_rejected() {
    assert_eq!(
        Command::from_resp(RespValue::SimpleString(b"PING".to_vec())),
        Err(b"Expected array of bulk strings".to_vec())
    );
    assert_eq!(
        Command::from_resp(RespValue::Array(vec![RespValue::Integer(1)])),
        Err(b"Invalid command format".to_vec())
    );
}

#[test]
fn extract_string_reads_bulk_elements() {
    let elems = vec![bulk(b"GET"), bulk(b"foo"), RespValue::Integer(2)];
    assert_eq!(extract_string(&elems, 1), Some(b"foo".to_vec()));
    assert_eq!(extract_string(&elems, 2), None);
    assert_eq!(extract_string(&elems, 9), None);
}
