use respkv::command::Command;
use respkv::resp::RespValue;
use respkv::storage::{command_notifies, execute_command, stateless_reply, ExecOutcome, Store};

fn bulks(parts: &[&[u8]]) -> Vec<Vec<u8>> {
    parts.iter().map(|p| p.to_vec()).collect()
}

#[test]
fn blpop_pops_immediately_when_list_has_elements() {
    let mut s = Store::new();
    s.rpush(b"q".to_vec(), bulks(&[b"x", b"y"]), 0);
    let r = s.blpop_attempt(b"q", None, 0);
    assert_eq!(
        r,
        Some(RespValue::Array(vec![
            RespValue::BulkString(b"q".to_vec()),
            RespValue::BulkString(b"x".to_vec()),
        ]))
    );
    let mut s2 = Store::new();
    s2.rpush(b"q".to_vec(), bulks(&[b"only"]), 0);
    s2.blpop_attempt(b"q", None, 0);
    // The list emptied, so the key is gone.
    assert_eq!(s2.type_of(b"q", 0), RespValue::SimpleString(b"none".to_vec()));
}

#[test]
fn blpop_waits_while_nothing_can_be_popped() {
    let mut s = Store::new();
    // No deadline: wait forever.
    assert_eq!(s.blpop_attempt(b"q", None, 1_000_000), None);
    // A deadline not yet reached: keep waiting.
    assert_eq!(s.blpop_attempt(b"q", Some(500), 499), None);
}

#[test]
fn blpop_times_out_with_null_array() {
    let mut s = Store::new();
    assert_eq!(s.blpop_attempt(b"q", Some(500), 500), Some(RespValue::NullArray));
    assert_eq!(s.blpop_attempt(b"q", Some(500), 9_000), Some(RespValue::NullArray));
}

#[test]
fn blpop_handshake_after_push() {
    // Connection A parks on an absent key; connection B pushes; A's next
    // attempt pops the pushed value, paired with the key.
    let mut s = Store::new();
    let a = execute_command(Command::BLPop(b"q".to_vec(), 0), &mut s, 100);
    assert_eq!(a, ExecOutcome::Block(b"q".to_vec(), None));
    let b = execute_command(
        Command::RPush(b"q".to_vec(), bulks(&[b"hello"])),
        &mut s,
        150,
    );
    assert_eq!(b, ExecOutcome::Reply(RespValue::Integer(1)));
    let woken = s.blpop_attempt(b"q", None, 200);
    assert_eq!(
        woken,
        Some(RespValue::Array(vec![
            RespValue::BulkString(b"q".to_vec()),
            RespValue::BulkString(b"hello".to_vec()),
        ]))
    );
}

#[test]
fn blpop_deadline_comes_from_timeout() {
    let mut s = Store::new();
    // 500 ms timeout issued at t=100: the deadline is t=600.
    let a = execute_command(Command::BLPop(b"q".to_vec(), 500), &mut s, 100);
    assert_eq!(a, ExecOutcome::Block(b"q".to_vec(), Some(600)));
    assert_eq!(s.blpop_attempt(b"q", Some(600), 599), None);
    assert_eq!(s.blpop_attempt(b"q", Some(600), 600), Some(RespValue::NullArray));
}

#[test]
fn blpop_on_a_text_fails_at_once() {
    let mut s = Store::new();
    s.set(b"q".to_vec(), b"v".to_vec(), None, 0);
    let r = execute_command(Command::BLPop(b"q".to_vec(), 0), &mut s, 1);
    assert_eq!(
        r,
        ExecOutcome::Reply(RespValue::Error(
            b"WRONGTYPE Operation against a key holding the wrong kind of value".to_vec()
        ))
    );
}

#[test]
fn writers_broadcast_and_readers_do_not() {
    assert!(command_notifies(&Command::Put(b"k".to_vec(), b"v".to_vec(), None)));
    assert!(command_notifies(&Command::RPush(b"k".to_vec(), bulks(&[b"a"]))));
    assert!(command_notifies(&Command::LPush(b"k".to_vec(), bulks(&[b"a"]))));
    assert!(!command_notifies(&Command::Get(b"k".to_vec())));
    assert!(!command_notifies(&Command::LPop(b"k".to_vec(), None)));
    assert!(!command_notifies(&Command::BLPop(b"k".to_vec(), 0)));
    assert!(!command_notifies(&Command::Ping(None)));
}

#[test]
fn executor_runs_plain_commands() {
    let mut s = Store::new();
    assert_eq!(
        execute_command(Command::Ping(None), &mut s, 0),
        ExecOutcome::Reply(RespValue::SimpleString(b"PONG".to_vec()))
    );
    assert_eq!(
        execute_command(Command::Ping(Some(b"hi".to_vec())), &mut s, 0),
        ExecOutcome::Reply(RespValue::BulkString(b"hi".to_vec()))
    );
    assert_eq!(
        execute_command(Command::Echo(b"x".to_vec()), &mut s, 0),
        ExecOutcome::Reply(RespValue::BulkString(b"x".to_vec()))
    );
    assert_eq!(
        execute_command(Command::Put(b"a".to_vec(), b"1".to_vec(), None), &mut s, 0),
        ExecOutcome::Reply(RespValue::SimpleString(b"OK".to_vec()))
    );
    assert_eq!(
        execute_command(Command::Get(b"a".to_vec()), &mut s, 0),
        ExecOutcome::Reply(RespValue::BulkString(b"1".to_vec()))
    );
    assert_eq!(
        execute_command(Command::Type(b"a".to_vec()), &mut s, 0),
        ExecOutcome::Reply(RespValue::SimpleString(b"string".to_vec()))
    );
}

#[test]
fn ping_and_echo_need_no_store() {
    assert_eq!(
        stateless_reply(Command::Ping(None)),
        Ok(RespValue::SimpleString(b"PONG".to_vec()))
    );
    assert_eq!(
        stateless_reply(Command::Ping(Some(b"hi".to_vec()))),
        Ok(RespValue::BulkString(b"hi".to_vec()))
    );
    assert_eq!(
        stateless_reply(Command::Echo(b"x".to_vec())),
        Ok(RespValue::BulkString(b"x".to_vec()))
    );
    assert_eq!(
        stateless_reply(Command::Get(b"k".to_vec())),
        Err(Command::Get(b"k".to_vec()))
    );
}
