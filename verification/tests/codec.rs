use respkv::resp::{parse_frame, parse_resp, ParseOutcome, RespValue};

fn ser(v: RespValue) -> Vec<u8> {
    v.serialize()
}

#[test]
fn serialize_simple_string() {
    assert_eq!(ser(RespValue::SimpleString(b"PONG".to_vec())), b"+PONG\r\n".to_vec());
    assert_eq!(ser(RespValue::SimpleString(b"OK".to_vec())), b"+OK\r\n".to_vec());
}

#[test]
fn serialize_bulk_string() {
    assert_eq!(ser(RespValue::BulkString(b"hello".to_vec())), b"$5\r\nhello\r\n".to_vec());
    assert_eq!(ser(RespValue::BulkString(b"".to_vec())), b"$0\r\n\r\n".to_vec());
    // Binary-safe: embedded CRLF stays inside the counted payload.
    assert_eq!(ser(RespValue::BulkString(b"a\r\nb".to_vec())), b"$4\r\na\r\nb\r\n".to_vec());
}

#[test]
fn serialize_integers() {
    assert_eq!(ser(RespValue::Integer(3)), b":3\r\n".to_vec());
    assert_eq!(ser(RespValue::Integer(0)), b":0\r\n".to_vec());
    assert_eq!(ser(RespValue::Integer(-42)), b":-42\r\n".to_vec());
    assert_eq!(
        ser(RespValue::Integer(i64::MIN)),
        b":-9223372036854775808\r\n".to_vec()
    );
    assert_eq!(
        ser(RespValue::Integer(i64::MAX)),
        b":9223372036854775807\r\n".to_vec()
    );
}

#[test]
fn serialize_nulls() {
    assert_eq!(ser(RespValue::Null), b"$-1\r\n".to_vec());
    assert_eq!(ser(RespValue::NullArray), b"*-1\r\n".to_vec());
}

#[test]
fn serialize_error_gets_err_prefix() {
    assert_eq!(
        ser(RespValue::Error(b"SET missing key".to_vec())),
        b"-ERR SET missing key\r\n".to_vec()
    );
}

#[test]
fn serialize_wrongtype_error_written_as_is() {
    let msg = b"WRONGTYPE Operation against a key holding the wrong kind of value".to_vec();
    let mut expected = b"-".to_vec();
    expected.extend_from_slice(&msg);
    expected.extend_from_slice(b"\r\n");
    assert_eq!(ser(RespValue::Error(msg)), expected);
}

#[test]
fn serialize_array() {
    let arr = RespValue::Array(vec![
        RespValue::BulkString(b"a".to_vec()),
        RespValue::BulkString(b"b".to_vec()),
        RespValue::BulkString(b"c".to_vec()),
    ]);
    assert_eq!(ser(arr), b"*3\r\n$1\r\na\r\n$1\r\nb\r\n$1\r\nc\r\n".to_vec());
    assert_eq!(ser(RespValue::Array(vec![])), b"*0\r\n".to_vec());
}

#[test]
fn parse_simple_and_error_frames() {
    assert_eq!(
        parse_frame(b"+OK\r\n"),
        ParseOutcome::Complete(RespValue::SimpleString(b"OK".to_vec()), 5)
    );
    assert_eq!(
        parse_frame(b"-ERR boom\r\n"),
        ParseOutcome::Complete(RespValue::Error(b"ERR boom".to_vec()), 11)
    );
}

#[test]
fn parse_integer_frames() {
    assert_eq!(
        parse_frame(b":123\r\n"),
        ParseOutcome::Complete(RespValue::Integer(123), 6)
    );
    assert_eq!(
        parse_frame(b":-7\r\n"),
        ParseOutcome::Complete(RespValue::Integer(-7), 5)
    );
    assert_eq!(parse_frame(b":abc\r\n"), ParseOutcome::Invalid);
    assert_eq!(parse_frame(b":\r\n"), ParseOutcome::Invalid);
}

#[test]
fn parse_bulk_frames() {
    assert_eq!(
        parse_frame(b"$5\r\nhello\r\n"),
        ParseOutcome::Complete(RespValue::BulkString(b"hello".to_vec()), 11)
    );
    assert_eq!(
        parse_frame(b"$-1\r\n"),
        ParseOutcome::Complete(RespValue::Null, 5)
    );
    // The payload is counted, not scanned: CRLF inside it is data.
    assert_eq!(
        parse_frame(b"$4\r\na\r\nb\r\n"),
        ParseOutcome::Complete(RespValue::BulkString(b"a\r\nb".to_vec()), 10)
    );
    // A payload that does not end in CRLF is malformed.
    assert_eq!(parse_frame(b"$3\r\nabcde\r\n"), ParseOutcome::Invalid);
    // A signed bulk length other than -1 is malformed.
    assert_eq!(parse_frame(b"$-2\r\n"), ParseOutcome::Invalid);
    assert_eq!(parse_frame(b"$+3\r\nabc\r\n"), ParseOutcome::Invalid);
}

#[test]
fn parse_array_frames() {
    assert_eq!(
        parse_frame(b"*2\r\n$1\r\na\r\n$1\r\nb\r\n"),
        ParseOutcome::Complete(
            RespValue::Array(vec![
                RespValue::BulkString(b"a".to_vec()),
                RespValue::BulkString(b"b".to_vec()),
            ]),
            18
        )
    );
    assert_eq!(
        parse_frame(b"*-1\r\n"),
        ParseOutcome::Complete(RespValue::NullArray, 5)
    );
    assert_eq!(
        parse_frame(b"*0\r\n"),
        ParseOutcome::Complete(RespValue::Array(vec![]), 4)
    );
}

#[test]
fn parse_nested_array() {
    let input = b"*2\r\n*1\r\n:5\r\n+ok\r\n";
    assert_eq!(
        parse_frame(input),
        ParseOutcome::Complete(
            RespValue::Array(vec![
                RespValue::Array(vec![RespValue::Integer(5)]),
                RespValue::SimpleString(b"ok".to_vec()),
            ]),
            input.len()
        )
    );
}

#[test]
fn parse_incomplete_frames() {
    assert_eq!(parse_frame(b""), ParseOutcome::Incomplete);
    assert_eq!(parse_frame(b"+OK"), ParseOutcome::Incomplete);
    assert_eq!(parse_frame(b"$5\r\nhel"), ParseOutcome::Incomplete);
    assert_eq!(parse_frame(b"*2\r\n$1\r\na\r\n"), ParseOutcome::Incomplete);
}

#[test]
fn parse_invalid_tag() {
    assert_eq!(parse_frame(b"hello\r\n"), ParseOutcome::Invalid);
}

#[test]
fn parse_leaves_trailing_bytes() {
    // A pipelined buffer: the first frame is complete after 5 bytes.
    assert_eq!(
        parse_frame(b"+OK\r\n+NEXT\r\n"),
        ParseOutcome::Complete(RespValue::SimpleString(b"OK".to_vec()), 5)
    );
}

#[test]
fn parse_resp_reads_one_frame() {
    assert_eq!(
        parse_resp(b"*1\r\n$4\r\nPING\r\n"),
        Some(RespValue::Array(vec![RespValue::BulkString(b"PING".to_vec())]))
    );
    assert_eq!(parse_resp(b"+OK"), None);
    assert_eq!(parse_resp(b"hello\r\n"), None);
}

#[test]
fn round_trip_through_codec() {
    let values = vec![
        RespValue::SimpleString(b"PONG".to_vec()),
        RespValue::BulkString(b"a\r\nb\x00c".to_vec()),
        RespValue::Integer(-99),
        RespValue::Null,
        RespValue::NullArray,
        RespValue::Array(vec![
            RespValue::BulkString(b"x".to_vec()),
            RespValue::Integer(7),
            RespValue::Array(vec![]),
        ]),
    ];
    for v in values {
        let bytes = v.serialize();
        let n = bytes.len();
        let reparsed = parse_frame(&bytes);
        assert_eq!(reparsed, ParseOutcome::Complete(v, n));
    }
}
