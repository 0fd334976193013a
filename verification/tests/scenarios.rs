//! End-to-end runs: request bytes through the parser, the command
//! reader and the executor, reply bytes back through the serializer.

use respkv::command::Command;
use respkv::resp::{parse_resp, RespValue};
use respkv::storage::{execute_command, ExecOutcome, Store};

/// Runs one request against the store at the given time and returns the
/// exact reply bytes, the way a session does.
fn roundtrip(store: &mut Store, request: &[u8], now_ms: u64) -> Vec<u8> {
    let frame = parse_resp(request).expect("request frame");
    let reply = match Command::from_resp(frame) {
        Ok(cmd) => match execute_command(cmd, store, now_ms) {
            ExecOutcome::Reply(v) => v,
            ExecOutcome::Block(..) => panic!("blocked"),
        },
        Err(e) => RespValue::Error(e),
    };
    reply.serialize()
}

fn req(parts: &[&[u8]]) -> Vec<u8> {
    let mut out = format!("*{}\r\n", parts.len()).into_bytes();
    for p in parts {
        out.extend_from_slice(format!("${}\r\n", p.len()).as_bytes());
        out.extend_from_slice(p);
        out.extend_from_slice(b"\r\n");
    }
    out
}

#[test]
fn ping_scenario() {
    let mut s = Store::new();
    assert_eq!(roundtrip(&mut s, &req(&[b"PING"]), 0), b"+PONG\r\n".to_vec());
    assert_eq!(
        roundtrip(&mut s, &req(&[b"PING", b"hello"]), 0),
        b"$5\r\nhello\r\n".to_vec()
    );
}

#[test]
fn set_get_scenario() {
    let mut s = Store::new();
    assert_eq!(
        roundtrip(&mut s, &req(&[b"SET", b"foo", b"bar"]), 0),
        b"+OK\r\n".to_vec()
    );
    assert_eq!(
        roundtrip(&mut s, &req(&[b"GET", b"foo"]), 1),
        b"$3\r\nbar\r\n".to_vec()
    );
    assert_eq!(
        roundtrip(&mut s, &req(&[b"GET", b"missing"]), 2),
        b"$-1\r\n".to_vec()
    );
}

#[test]
fn expiry_scenario() {
    let mut s = Store::new();
    assert_eq!(
        roundtrip(&mut s, &req(&[b"SET", b"k", b"v", b"PX", b"100"]), 0),
        b"+OK\r\n".to_vec()
    );
    // 150 ms later the value is gone.
    assert_eq!(roundtrip(&mut s, &req(&[b"GET", b"k"]), 150), b"$-1\r\n".to_vec());
    assert_eq!(
        roundtrip(&mut s, &req(&[b"TYPE", b"k"]), 151),
        b"+none\r\n".to_vec()
    );
}

#[test]
fn rpush_lrange_llen_scenario() {
    let mut s = Store::new();
    assert_eq!(
        roundtrip(&mut s, &req(&[b"RPUSH", b"L", b"a", b"b", b"c"]), 0),
        b":3\r\n".to_vec()
    );
    assert_eq!(
        roundtrip(&mut s, &req(&[b"LRANGE", b"L", b"0", b"-1"]), 0),
        b"*3\r\n$1\r\na\r\n$1\r\nb\r\n$1\r\nc\r\n".to_vec()
    );
    assert_eq!(
        roundtrip(&mut s, &req(&[b"LRANGE", b"L", b"-2", b"-1"]), 0),
        b"*2\r\n$1\r\nb\r\n$1\r\nc\r\n".to_vec()
    );
    assert_eq!(roundtrip(&mut s, &req(&[b"LLEN", b"L"]), 0), b":3\r\n".to_vec());
}

#[test]
fn lpush_lpop_scenario() {
    let mut s = Store::new();
    assert_eq!(
        roundtrip(&mut s, &req(&[b"LPUSH", b"L", b"x", b"y", b"z"]), 0),
        b":3\r\n".to_vec()
    );
    // The list now reads [z, y, x].
    assert_eq!(
        roundtrip(&mut s, &req(&[b"LPOP", b"L", b"2"]), 0),
        b"*2\r\n$1\r\nz\r\n$1\r\ny\r\n".to_vec()
    );
    assert_eq!(
        roundtrip(&mut s, &req(&[b"LPOP", b"L"]), 0),
        b"$1\r\nx\r\n".to_vec()
    );
    assert_eq!(
        roundtrip(&mut s, &req(&[b"TYPE", b"L"]), 0),
        b"+none\r\n".to_vec()
    );
}

#[test]
fn blocking_pop_scenario() {
    // Connection A parks; connection B pushes; A's wake-up pops.
    let mut s = Store::new();
    let a_frame = parse_resp(&req(&[b"BLPOP", b"q", b"0"])).unwrap();
    let a_cmd = Command::from_resp(a_frame).unwrap();
    let parked = match execute_command(a_cmd, &mut s, 0) {
        ExecOutcome::Block(key, deadline) => (key, deadline),
        ExecOutcome::Reply(_) => panic!("should park"),
    };
    assert_eq!(
        roundtrip(&mut s, &req(&[b"RPUSH", b"q", b"hello"]), 10),
        b":1\r\n".to_vec()
    );
    let woken = s.blpop_attempt(&parked.0, parked.1, 20).expect("pops now");
    assert_eq!(
        woken.serialize(),
        b"*2\r\n$1\r\nq\r\n$5\r\nhello\r\n".to_vec()
    );
}

#[test]
fn wrongtype_goes_out_without_err_prefix() {
    let mut s = Store::new();
    roundtrip(&mut s, &req(&[b"SET", b"k", b"v"]), 0);
    assert_eq!(
        roundtrip(&mut s, &req(&[b"RPUSH", b"k", b"a"]), 0),
        b"-WRONGTYPE Operation against a key holding the wrong kind of value\r\n".to_vec()
    );
}

#[test]
fn command_errors_go_out_with_err_prefix() {
    let mut s = Store::new();
    assert_eq!(
        roundtrip(&mut s, &req(&[b"NOSUCH"]), 0),
        b"-ERR Unknown command: NOSUCH\r\n".to_vec()
    );
    assert_eq!(
        roundtrip(&mut s, &req(&[b"LRANGE", b"L", b"zero", b"-1"]), 0),
        b"-ERR value is not an integer or out of range\r\n".to_vec()
    );
}
