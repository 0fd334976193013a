use respkv::resp::RespValue;
use respkv::storage::Store;

const WRONGTYPE: &[u8] = b"WRONGTYPE Operation against a key holding the wrong kind of value";

fn wrongtype() -> RespValue {
    RespValue::Error(WRONGTYPE.to_vec())
}

fn bulks(parts: &[&[u8]]) -> Vec<Vec<u8>> {
    parts.iter().map(|p| p.to_vec()).collect()
}

fn arr(parts: &[&[u8]]) -> RespValue {
    RespValue::Array(parts.iter().map(|p| RespValue::BulkString(p.to_vec())).collect())
}

#[test]
fn absent_key_reads_as_absent() {
    let mut s = Store::new();
    assert_eq!(s.get(b"k", 0), RespValue::Null);
    assert_eq!(s.llen(b"k", 0), RespValue::Integer(0));
    assert_eq!(s.lrange(b"k", 0, -1, 0), RespValue::Array(vec![]));
    assert_eq!(s.type_of(b"k", 0), RespValue::SimpleString(b"none".to_vec()));
    assert_eq!(s.lpop(b"k", None, 0), RespValue::Null);
    assert_eq!(s.lpop(b"k", Some(3), 0), RespValue::Null);
}

#[test]
fn set_then_get_returns_value() {
    let mut s = Store::new();
    assert_eq!(
        s.set(b"foo".to_vec(), b"bar".to_vec(), None, 0),
        RespValue::SimpleString(b"OK".to_vec())
    );
    assert_eq!(s.get(b"foo", 5), RespValue::BulkString(b"bar".to_vec()));
    assert_eq!(s.get(b"foo", 1_000_000), RespValue::BulkString(b"bar".to_vec()));
    assert_eq!(s.get(b"missing", 5), RespValue::Null);
}

#[test]
fn set_overwrites_any_prior_entry() {
    let mut s = Store::new();
    s.rpush(b"k".to_vec(), bulks(&[b"a"]), 0);
    s.set(b"k".to_vec(), b"v".to_vec(), None, 1);
    assert_eq!(s.get(b"k", 2), RespValue::BulkString(b"v".to_vec()));
    s.set(b"k".to_vec(), b"w".to_vec(), None, 3);
    assert_eq!(s.get(b"k", 4), RespValue::BulkString(b"w".to_vec()));
}

#[test]
fn expiry_is_lazy_and_strict() {
    let mut s = Store::new();
    s.set(b"k".to_vec(), b"v".to_vec(), Some(100), 1000);
    // Not yet past the deadline, the exact deadline included.
    assert_eq!(s.get(b"k", 1050), RespValue::BulkString(b"v".to_vec()));
    assert_eq!(s.get(b"k", 1100), RespValue::BulkString(b"v".to_vec()));
    // Strictly past it, the key is gone and stays gone.
    assert_eq!(s.get(b"k", 1101), RespValue::Null);
    assert_eq!(s.type_of(b"k", 1102), RespValue::SimpleString(b"none".to_vec()));
}

#[test]
fn expired_string_reads_none_without_prior_get() {
    let mut s = Store::new();
    s.set(b"k".to_vec(), b"v".to_vec(), Some(100), 0);
    assert_eq!(s.type_of(b"k", 150), RespValue::SimpleString(b"none".to_vec()));
}

#[test]
fn rpush_appends_in_argument_order() {
    let mut s = Store::new();
    assert_eq!(
        s.rpush(b"K".to_vec(), bulks(&[b"a", b"b", b"c"]), 0),
        RespValue::Integer(3)
    );
    assert_eq!(s.lrange(b"K", 0, -1, 0), arr(&[b"a", b"b", b"c"]));
    assert_eq!(s.rpush(b"K".to_vec(), bulks(&[b"d"]), 0), RespValue::Integer(4));
    assert_eq!(s.lrange(b"K", 0, -1, 0), arr(&[b"a", b"b", b"c", b"d"]));
}

#[test]
fn lpush_prepends_with_last_argument_at_head() {
    let mut s = Store::new();
    assert_eq!(
        s.lpush(b"K".to_vec(), bulks(&[b"a", b"b", b"c"]), 0),
        RespValue::Integer(3)
    );
    assert_eq!(s.lrange(b"K", 0, -1, 0), arr(&[b"c", b"b", b"a"]));
    assert_eq!(s.lpush(b"K".to_vec(), bulks(&[b"d"]), 0), RespValue::Integer(4));
    assert_eq!(s.lrange(b"K", 0, -1, 0), arr(&[b"d", b"c", b"b", b"a"]));
}

#[test]
fn llen_counts_the_list() {
    let mut s = Store::new();
    s.rpush(b"K".to_vec(), bulks(&[b"a", b"b", b"c"]), 0);
    assert_eq!(s.llen(b"K", 0), RespValue::Integer(3));
    // The read of a missing key does not materialize an entry.
    assert_eq!(s.llen(b"other", 0), RespValue::Integer(0));
    assert_eq!(s.type_of(b"other", 0), RespValue::SimpleString(b"none".to_vec()));
}

#[test]
fn lrange_normalizes_indices() {
    let mut s = Store::new();
    s.rpush(b"K".to_vec(), bulks(&[b"a", b"b", b"c", b"d", b"e"]), 0);
    assert_eq!(s.lrange(b"K", 0, -1, 0), arr(&[b"a", b"b", b"c", b"d", b"e"]));
    assert_eq!(s.lrange(b"K", -2, -1, 0), arr(&[b"d", b"e"]));
    assert_eq!(s.lrange(b"K", 1, 3, 0), arr(&[b"b", b"c", b"d"]));
    assert_eq!(s.lrange(b"K", -100, 100, 0), arr(&[b"a", b"b", b"c", b"d", b"e"]));
    assert_eq!(s.lrange(b"K", 3, 1, 0), RespValue::Array(vec![]));
    assert_eq!(s.lrange(b"K", 5, 9, 0), RespValue::Array(vec![]));
    assert_eq!(s.lrange(b"K", -1, -2, 0), RespValue::Array(vec![]));
}

#[test]
fn lpop_head_drains_in_insertion_order() {
    let mut s = Store::new();
    s.rpush(b"K".to_vec(), bulks(&[b"a", b"b"]), 0);
    assert_eq!(s.lpop(b"K", None, 0), RespValue::BulkString(b"a".to_vec()));
    assert_eq!(s.llen(b"K", 0), RespValue::Integer(1));
    assert_eq!(s.lpop(b"K", None, 0), RespValue::BulkString(b"b".to_vec()));
    // The key vanishes when the list empties.
    assert_eq!(s.type_of(b"K", 0), RespValue::SimpleString(b"none".to_vec()));
    assert_eq!(s.lpop(b"K", None, 0), RespValue::Null);
}

#[test]
fn lpop_with_count_takes_at_most_count() {
    let mut s = Store::new();
    s.rpush(b"K".to_vec(), bulks(&[b"a", b"b", b"c"]), 0);
    assert_eq!(s.lpop(b"K", Some(2), 0), arr(&[b"a", b"b"]));
    assert_eq!(s.lrange(b"K", 0, -1, 0), arr(&[b"c"]));
    // More than remain: everything comes out and the key vanishes.
    assert_eq!(s.lpop(b"K", Some(10), 0), arr(&[b"c"]));
    assert_eq!(s.type_of(b"K", 0), RespValue::SimpleString(b"none".to_vec()));
    // Absent key answers the bulk null, not an empty array.
    assert_eq!(s.lpop(b"K", Some(10), 0), RespValue::Null);
}

#[test]
fn lpop_zero_count_leaves_list_unchanged() {
    let mut s = Store::new();
    s.rpush(b"K".to_vec(), bulks(&[b"a", b"b"]), 0);
    assert_eq!(s.lpop(b"K", Some(0), 0), RespValue::Array(vec![]));
    assert_eq!(s.lrange(b"K", 0, -1, 0), arr(&[b"a", b"b"]));
}

#[test]
fn type_reports_kind_in_words() {
    let mut s = Store::new();
    s.set(b"t".to_vec(), b"v".to_vec(), None, 0);
    s.rpush(b"l".to_vec(), bulks(&[b"x"]), 0);
    assert_eq!(s.type_of(b"t", 0), RespValue::SimpleString(b"string".to_vec()));
    assert_eq!(s.type_of(b"l", 0), RespValue::SimpleString(b"list".to_vec()));
    assert_eq!(s.type_of(b"n", 0), RespValue::SimpleString(b"none".to_vec()));
}

#[test]
fn list_operations_on_a_text_answer_wrongtype() {
    let mut s = Store::new();
    s.set(b"k".to_vec(), b"v".to_vec(), None, 0);
    assert_eq!(s.rpush(b"k".to_vec(), bulks(&[b"a"]), 0), wrongtype());
    assert_eq!(s.lpush(b"k".to_vec(), bulks(&[b"a"]), 0), wrongtype());
    assert_eq!(s.lrange(b"k", 0, -1, 0), wrongtype());
    assert_eq!(s.llen(b"k", 0), wrongtype());
    assert_eq!(s.lpop(b"k", None, 0), wrongtype());
    assert_eq!(s.lpop(b"k", Some(1), 0), wrongtype());
    assert_eq!(s.blpop_attempt(b"k", None, 0), Some(wrongtype()));
    // The value is untouched throughout.
    assert_eq!(s.get(b"k", 0), RespValue::BulkString(b"v".to_vec()));
}

#[test]
fn get_on_a_list_answers_wrongtype() {
    let mut s = Store::new();
    s.rpush(b"l".to_vec(), bulks(&[b"x"]), 0);
    assert_eq!(s.get(b"l", 0), wrongtype());
}
