//! The keyspace and the command executor.
//!
//! A [`Store`] maps byte-string keys to entries; an entry holds either a
//! text value with an optional expiry time or a list of texts. Every
//! operation takes the current time as a millisecond reading of a
//! monotonic clock and treats a text entry whose expiry lies in the past
//! as absent, removing it on sight. The contracts state each operation
//! over the store's view, a map from key to entry model.

use vstd::prelude::*;

verus! {

use crate::command::Command;
use crate::command::CommandModel;
use crate::resp::RespModel;
use crate::resp::RespValue;

/// One key's stored value: a text or a list of texts.
#[derive(Debug, PartialEq, Eq)]
pub enum DbData {
    String(Vec<u8>),
    List(Vec<Vec<u8>>),
}

/// One key's entry: its value and, for texts only, an optional absolute
/// expiry time in milliseconds.
#[derive(Debug, PartialEq, Eq)]
pub struct DbEntry {
    pub data: DbData,
    pub expires_at: Option<u64>,
}

/// The mathematical shape of a stored value.
pub enum DataModel {
    Str(Seq<u8>),
    Lst(Seq<Seq<u8>>),
}

/// The mathematical shape of an entry.
pub struct EntryModel {
    pub data: DataModel,
    pub expires_at: Option<u64>,
}

impl View for DbData {
    type V = DataModel;

    open spec fn view(&self) -> DataModel {
        match self {
            DbData::String(s) => DataModel::Str(s@),
            DbData::List(l) => DataModel::Lst(l.deep_view()),
        }
    }
}

impl View for DbEntry {
    type V = EntryModel;

    open spec fn view(&self) -> EntryModel {
        EntryModel { data: self.data@, expires_at: self.expires_at }
    }
}

/// The map held by a run of key-entry pairs; a later pair wins a repeated
/// key.
pub open spec fn entries_map(s: Seq<(Vec<u8>, DbEntry)>) -> Map<Seq<u8>, EntryModel>
    decreases s.len(),
{
    if s.len() == 0 {
        Map::empty()
    } else {
        entries_map(s.drop_last()).insert(s.last().0@, s.last().1@)
    }
}

/// True when no two pairs hold the same key.
pub open spec fn keys_distinct(s: Seq<(Vec<u8>, DbEntry)>) -> bool {
    forall|i: int, j: int| 0 <= i < j < s.len() ==> s[i].0@ != s[j].0@
}

/// With distinct keys, the map holds exactly the keys of the run, each at
/// its pair's entry.
pub proof fn lemma_entries_map_props(s: Seq<(Vec<u8>, DbEntry)>)
    requires
        keys_distinct(s),
    ensures
        forall|k: Seq<u8>|
            entries_map(s).contains_key(k) == exists|i: int|
                0 <= i < s.len() && (#[trigger] s[i]).0@ == k,
        forall|i: int|
            0 <= i < s.len() ==> entries_map(s).contains_key((#[trigger] s[i]).0@) && entries_map(
                s,
            )[s[i].0@] == s[i].1@,
    decreases s.len(),
{
    if s.len() > 0 {
        assert(keys_distinct(s.drop_last()));
        lemma_entries_map_props(s.drop_last());
        assert forall|i: int| 0 <= i < s.len() implies entries_map(s).contains_key(
            (#[trigger] s[i]).0@,
        ) && entries_map(s)[s[i].0@] == s[i].1@ by {
            if i < s.len() - 1 {
                assert(s.drop_last()[i] == s[i]);
                assert(s[i].0@ != s[s.len() - 1].0@);
            }
        }
        assert forall|k: Seq<u8>| entries_map(s).contains_key(k) implies exists|i: int|
            0 <= i < s.len() && (#[trigger] s[i]).0@ == k by {
            if k == s.last().0@ {
                assert(s[s.len() - 1].0@ == k);
            } else {
                let t = s.drop_last();
                assert(entries_map(t).contains_key(k));
                let i = choose|i: int| 0 <= i < t.len() && (#[trigger] t[i]).0@ == k;
                assert(t[i] == s[i]);
                assert(s[i].0@ == k);
            }
        }
        assert forall|k: Seq<u8>|
            (exists|i: int| 0 <= i < s.len() && (#[trigger] s[i]).0@ == k) implies entries_map(
            s,
        ).contains_key(k) by {
            let i = choose|i: int| 0 <= i < s.len() && (#[trigger] s[i]).0@ == k;
            if i < s.len() - 1 {
                assert(s.drop_last()[i] == s[i]);
            }
        }
    }
}

/// Removing the pair at `i` removes its key from the map.
pub proof fn lemma_entries_map_remove(s: Seq<(Vec<u8>, DbEntry)>, i: int)
    requires
        keys_distinct(s),
        0 <= i < s.len(),
    ensures
        entries_map(s.remove(i)) == entries_map(s).remove(s[i].0@),
    decreases s.len(),
{
    lemma_entries_map_props(s);
    if i == s.len() - 1 {
        assert(s.remove(i) =~= s.drop_last());
        assert(keys_distinct(s.drop_last()));
        lemma_entries_map_props(s.drop_last());
        assert(!entries_map(s.drop_last()).contains_key(s[i].0@));
        assert(entries_map(s.drop_last()).remove(s[i].0@) =~= entries_map(s.drop_last()));
        assert(entries_map(s).remove(s[i].0@) =~= entries_map(s.drop_last()));
    } else {
        assert(keys_distinct(s.drop_last()));
        lemma_entries_map_remove(s.drop_last(), i);
        assert(s.remove(i).drop_last() =~= s.drop_last().remove(i));
        assert(s.remove(i).last() == s.last());
        assert(entries_map(s.remove(i)) == entries_map(s.drop_last().remove(i)).insert(
            s.last().0@,
            s.last().1@,
        ));
        assert(s[i].0@ != s.last().0@);
        assert(entries_map(s.drop_last()).remove(s[i].0@).insert(s.last().0@, s.last().1@)
            =~= entries_map(s.drop_last()).insert(s.last().0@, s.last().1@).remove(s[i].0@));
    }
}

/// Appending a pair adds its key to the map.
pub proof fn lemma_entries_map_push(s: Seq<(Vec<u8>, DbEntry)>, k: Vec<u8>, e: DbEntry)
    ensures
        entries_map(s.push((k, e))) == entries_map(s).insert(k@, e@),
{
    assert(s.push((k, e)).drop_last() =~= s);
    assert(s.push((k, e)).last() == (k, e));
}


/// A store's view: the map over keys.
pub type StoreModel = Map<Seq<u8>, EntryModel>;

/// `a + b`, stopping at the largest representable value.
pub open spec fn sat_add(a: u64, b: u64) -> u64 {
    if a + b > u64::MAX {
        u64::MAX
    } else {
        (a + b) as u64
    }
}

/// True when the entry's expiry lies strictly in the past.
pub open spec fn expired(e: EntryModel, now: u64) -> bool {
    e.expires_at matches Some(d) && now > d
}

/// The map with the key purged if its entry has expired: an expired entry
/// is semantically absent, and the operation that sees it removes it.
pub open spec fn live(m: StoreModel, k: Seq<u8>, now: u64) -> StoreModel {
    if m.contains_key(k) && expired(m[k], now) {
        m.remove(k)
    } else {
        m
    }
}

/// A store is well formed when list entries are never empty and never
/// carry an expiry.
pub open spec fn wf_model(m: StoreModel) -> bool {
    forall|k: Seq<u8>|
        m.contains_key(k) ==> ((#[trigger] m[k]).data matches DataModel::Lst(l) ==> l.len() > 0
            && m[k].expires_at is None)
}

/// The list at `k`, or the empty list where none is held.
pub open spec fn list_at(m: StoreModel, k: Seq<u8>) -> Seq<Seq<u8>> {
    if m.contains_key(k) {
        match m[k].data {
            DataModel::Lst(l) => l,
            DataModel::Str(_) => Seq::empty(),
        }
    } else {
        Seq::empty()
    }
}

/// True when `k` holds a text value in `m`.
pub open spec fn holds_text(m: StoreModel, k: Seq<u8>) -> bool {
    m.contains_key(k) && m[k].data is Str
}

/// The fixed type-mismatch error reply.
pub open spec fn wrongtype_reply() -> RespModel {
    RespModel::Error(crate::texts::wrongtype_msg())
}

/// What `Set` does: the key is overwritten with the text and the expiry
/// computed from now, and the reply is `OK`.
pub open spec fn set_step(m: StoreModel, k: Seq<u8>, v: Seq<u8>, px: Option<u64>, now: u64) -> (
    RespModel,
    StoreModel,
) {
    let deadline = match px {
        Some(ms) => Some(sat_add(now, ms)),
        None => None,
    };
    (
        RespModel::Simple(crate::ascii::lit_bytes("OK"@)),
        m.insert(k, EntryModel { data: DataModel::Str(v), expires_at: deadline }),
    )
}

/// What `Get` does: a missing or expired key is `Null` (the expired entry
/// is removed), a text is returned whole, a list is a type error.
pub open spec fn get_step(m: StoreModel, k: Seq<u8>, now: u64) -> (RespModel, StoreModel) {
    let m1 = live(m, k, now);
    if !m1.contains_key(k) {
        (RespModel::Null, m1)
    } else {
        match m1[k].data {
            DataModel::Str(v) => (RespModel::Bulk(v), m1),
            DataModel::Lst(_) => (wrongtype_reply(), m1),
        }
    }
}

/// What `RPush` does: onto a text the type error; otherwise the values
/// are appended in argument order and the new length is returned.
pub open spec fn rpush_step(m: StoreModel, k: Seq<u8>, vals: Seq<Seq<u8>>, now: u64) -> (
    RespModel,
    StoreModel,
) {
    let m1 = live(m, k, now);
    if holds_text(m1, k) {
        (wrongtype_reply(), m1)
    } else {
        let l = list_at(m1, k) + vals;
        (
            RespModel::Int(l.len() as i64),
            m1.insert(k, EntryModel { data: DataModel::Lst(l), expires_at: None }),
        )
    }
}

/// What `LPush` does: onto a text the type error; otherwise the values
/// are prepended, the last argument ending at the head, and the new
/// length is returned.
pub open spec fn lpush_step(m: StoreModel, k: Seq<u8>, vals: Seq<Seq<u8>>, now: u64) -> (
    RespModel,
    StoreModel,
) {
    let m1 = live(m, k, now);
    if holds_text(m1, k) {
        (wrongtype_reply(), m1)
    } else {
        let l = vals.reverse() + list_at(m1, k);
        (
            RespModel::Int(l.len() as i64),
            m1.insert(k, EntryModel { data: DataModel::Lst(l), expires_at: None }),
        )
    }
}

/// The normalized bounds of a range request against a list of length `n`:
/// negative indices count from the end, the start is clamped to the
/// front, the stop to the back.
pub open spec fn norm_range(n: int, start: int, stop: int) -> (int, int) {
    let s0 = if start < 0 {
        n + start
    } else {
        start
    };
    let s1 = if s0 < 0 {
        0
    } else {
        s0
    };
    let e0 = if stop < 0 {
        n + stop
    } else {
        stop
    };
    let e1 = if e0 >= n {
        n - 1
    } else {
        e0
    };
    (s1, e1)
}

/// What `LRange` does: a missing key is the empty array, a text the type
/// error; otherwise the inclusive normalized slice of the list, each
/// element a bulk text.
pub open spec fn lrange_step(m: StoreModel, k: Seq<u8>, start: int, stop: int, now: u64) -> (
    RespModel,
    StoreModel,
) {
    let m1 = live(m, k, now);
    if !m1.contains_key(k) {
        (RespModel::Arr(Seq::empty()), m1)
    } else {
        match m1[k].data {
            DataModel::Str(_) => (wrongtype_reply(), m1),
            DataModel::Lst(l) => {
                let (s1, e1) = norm_range(l.len() as int, start, stop);
                if s1 >= l.len() || s1 > e1 {
                    (RespModel::Arr(Seq::empty()), m1)
                } else {
                    (
                        RespModel::Arr(
                            l.subrange(s1, e1 + 1).map(|i: int, v: Seq<u8>| RespModel::Bulk(v)),
                        ),
                        m1,
                    )
                }
            },
        }
    }
}

/// What `LLen` does: zero for a missing key, the type error for a text,
/// the length for a list. A missing key is not materialized.
pub open spec fn llen_step(m: StoreModel, k: Seq<u8>, now: u64) -> (RespModel, StoreModel) {
    let m1 = live(m, k, now);
    if !m1.contains_key(k) {
        (RespModel::Int(0), m1)
    } else {
        match m1[k].data {
            DataModel::Str(_) => (wrongtype_reply(), m1),
            DataModel::Lst(l) => (RespModel::Int(l.len() as i64), m1),
        }
    }
}

/// What `LPop` does. Without a count: the head of the list, the entry
/// removed when it empties. With a count `c`: the first `min(c, length)`
/// elements as an array. A missing key or empty list is `Null`; a text is
/// the type error.
pub open spec fn lpop_step(m: StoreModel, k: Seq<u8>, count: Option<u64>, now: u64) -> (
    RespModel,
    StoreModel,
) {
    let m1 = live(m, k, now);
    if !m1.contains_key(k) {
        (RespModel::Null, m1)
    } else {
        match m1[k].data {
            DataModel::Str(_) => (wrongtype_reply(), m1),
            DataModel::Lst(l) => {
                if l.len() == 0 {
                    (RespModel::Null, m1)
                } else {
                    match count {
                        None => {
                            let rest = l.drop_first();
                            let post = if rest.len() == 0 {
                                m1.remove(k)
                            } else {
                                m1.insert(k, EntryModel { data: DataModel::Lst(rest), expires_at: None })
                            };
                            (RespModel::Bulk(l[0]), post)
                        },
                        Some(c) => {
                            let take = if c < l.len() {
                                c as int
                            } else {
                                l.len() as int
                            };
                            let rest = l.skip(take);
                            let post = if rest.len() == 0 {
                                m1.remove(k)
                            } else {
                                m1.insert(k, EntryModel { data: DataModel::Lst(rest), expires_at: None })
                            };
                            (
                                RespModel::Arr(
                                    l.take(take).map(|i: int, v: Seq<u8>| RespModel::Bulk(v)),
                                ),
                                post,
                            )
                        },
                    }
                }
            },
        }
    }
}

/// What `Type` does: the kind of the live entry, in words.
pub open spec fn type_step(m: StoreModel, k: Seq<u8>, now: u64) -> (RespModel, StoreModel) {
    let m1 = live(m, k, now);
    if !m1.contains_key(k) {
        (RespModel::Simple(crate::ascii::lit_bytes("none"@)), m1)
    } else {
        match m1[k].data {
            DataModel::Str(_) => (RespModel::Simple(crate::ascii::lit_bytes("string"@)), m1),
            DataModel::Lst(_) => (RespModel::Simple(crate::ascii::lit_bytes("list"@)), m1),
        }
    }
}

/// What one attempt of `BLPop` does. A text is the type error; a
/// non-empty list is popped at the head, key and head returned together;
/// otherwise a passed deadline is the null array, and `None` says the
/// caller must wait for a push.
pub open spec fn blpop_attempt_step(
    m: StoreModel,
    k: Seq<u8>,
    deadline: Option<u64>,
    now: u64,
) -> (Option<RespModel>, StoreModel) {
    let m1 = live(m, k, now);
    if holds_text(m1, k) {
        (Some(wrongtype_reply()), m1)
    } else if list_at(m1, k).len() > 0 {
        let l = list_at(m1, k);
        let rest = l.drop_first();
        let post = if rest.len() == 0 {
            m1.remove(k)
        } else {
            m1.insert(k, EntryModel { data: DataModel::Lst(rest), expires_at: None })
        };
        (Some(RespModel::Arr(seq![RespModel::Bulk(k), RespModel::Bulk(l[0])])), post)
    } else if deadline matches Some(d) && now >= d {
        (Some(RespModel::NullArray), m1)
    } else {
        (None, m1)
    }
}


/// The shared keyspace: a run of key-entry pairs with distinct keys.
pub struct Store {
    entries: Vec<(Vec<u8>, DbEntry)>,
}

impl View for Store {
    type V = StoreModel;

    closed spec fn view(&self) -> StoreModel {
        entries_map(self.entries@)
    }
}

/// `a + b`, stopping at the largest representable value.
pub fn sat_add_u64(a: u64, b: u64) -> (r: u64)
    ensures
        r == sat_add(a, b),
{
    if b > u64::MAX - a {
        u64::MAX
    } else {
        a + b
    }
}

/// The list held by an entry known to hold one.
fn take_list(e: DbEntry) -> (r: Vec<Vec<u8>>)
    requires
        e@.data is Lst,
    ensures
        e@.data == DataModel::Lst(r.deep_view()),
{
    match e.data {
        DbData::List(l) => l,
        DbData::String(_) => {
            proof {
                assert(false);
            }
            Vec::new()
        },
    }
}

/// An owned copy of a byte string.
fn copy_bytes(v: &[u8]) -> (r: Vec<u8>)
    ensures
        r@ == v@,
{
    vstd::slice::slice_to_vec(v)
}

/// The elements `from .. to` of a list, each as a bulk reply.
fn bulk_range(l: &Vec<Vec<u8>>, from: usize, to: usize) -> (r: Vec<RespValue>)
    requires
        from <= to <= l@.len(),
    ensures
        crate::resp::resp_models(r@) == l.deep_view().subrange(from as int, to as int).map(
            |i: int, v: Seq<u8>| RespModel::Bulk(v),
        ),
{
    let ghost target = l.deep_view().subrange(from as int, to as int).map(
        |i: int, v: Seq<u8>| RespModel::Bulk(v),
    );
    let mut r: Vec<RespValue> = Vec::new();
    let mut j = from;
    while j < to
        invariant
            from <= j <= to <= l@.len(),
            target == l.deep_view().subrange(from as int, to as int).map(
                |i: int, v: Seq<u8>| RespModel::Bulk(v),
            ),
            r@.len() == j - from,
            forall|idx: int|
                0 <= idx < r@.len() ==> #[trigger] crate::resp::resp_model(r@[idx])
                    == RespModel::Bulk(l.deep_view()[from + idx]),
        decreases to - j,
    {
        r.push(RespValue::BulkString(copy_bytes(l[j].as_slice())));
        proof {
            assert(l.deep_view()[j as int] == l@[j as int]@);
            assert(crate::resp::resp_model(r@[r@.len() - 1]) == RespModel::Bulk(
                l.deep_view()[j as int],
            ));
        }
        j += 1;
    }
    proof {
        crate::resp::lemma_resp_models(r@);
        assert(crate::resp::resp_models(r@) =~= target);
    }
    r
}

impl Store {
    /// True when the store's representation is sound: keys distinct,
    /// list entries non-empty and without expiry.
    pub closed spec fn wf(&self) -> bool {
        keys_distinct(self.entries@) && wf_model(entries_map(self.entries@))
    }

    /// A new, empty store.
    pub fn new() -> (r: Store)
        ensures
            r.wf(),
            r@ == Map::<Seq<u8>, EntryModel>::empty(),
    {
        Store { entries: Vec::new() }
    }

    /// The index holding `key`, if any.
    fn find(&self, key: &[u8]) -> (r: Option<usize>)
        requires
            self.wf(),
        ensures
            match r {
                Some(i) => i < self.entries@.len() && self.entries@[i as int].0@ == key@
                    && self@.contains_key(key@) && self@[key@] == self.entries@[i as int].1@,
                None => !self@.contains_key(key@),
            },
    {
        proof {
            lemma_entries_map_props(self.entries@);
        }
        let n = self.entries.len();
        let mut i: usize = 0;
        while i < n
            invariant
                0 <= i <= n,
                n == self.entries@.len(),
                self.wf(),
                forall|j: int| 0 <= j < i ==> (#[trigger] self.entries@[j]).0@ != key@,
            decreases n - i,
        {
            if crate::ascii::bytes_eq(self.entries[i].0.as_slice(), key) {
                proof {
                    lemma_entries_map_props(self.entries@);
                }
                return Some(i);
            }
            i += 1;
        }
        proof {
            lemma_entries_map_props(self.entries@);
        }
        None
    }

    /// Writes `key` to the given text, overwriting any prior entry of
    /// either kind, with the expiry computed from `now_ms` when `px`
    /// milliseconds are given. Replies `OK`.
    pub fn set(&mut self, key: Vec<u8>, val: Vec<u8>, px: Option<u64>, now_ms: u64) -> (r:
        RespValue)
        requires
            old(self).wf(),
        ensures
            final(self).wf(),
            r@ == set_step(old(self)@, key@, val@, px, now_ms).0,
            final(self)@ == set_step(old(self)@, key@, val@, px, now_ms).1,
    {
        let deadline = match px {
            Some(ms) => Some(sat_add_u64(now_ms, ms)),
            None => None,
        };
        match self.find(key.as_slice()) {
            Some(i) => {
                proof {
                    lemma_entries_map_remove(self.entries@, i as int);
                    lemma_keys_distinct_remove(self.entries@, i as int);
                }
                let _ = self.entries.remove(i);
            },
            None => {
                proof {
                    lemma_absent_key(self.entries@, key@);
                }
            },
        }
        let entry = DbEntry { data: DbData::String(val), expires_at: deadline };
        proof {
            lemma_insert_pair(self.entries@, key, entry);
        }
        self.entries.push((key, entry));
        proof {
            assert(final(self)@ =~= set_step(old(self)@, key@, val@, px, now_ms).1);
        }
        RespValue::SimpleString(crate::texts::ok_bytes())
    }

    /// Reads the text at `key`: `Null` when the key is absent or its
    /// entry has expired (the entry is then removed), the text as a bulk
    /// reply when it is live, the type error when the key holds a list.
    pub fn get(&mut self, key: &[u8], now_ms: u64) -> (r: RespValue)
        requires
            old(self).wf(),
        ensures
            final(self).wf(),
            r@ == get_step(old(self)@, key@, now_ms).0,
            final(self)@ == get_step(old(self)@, key@, now_ms).1,
    {
        self.purge_expired(key, now_ms);
        match self.find(key) {
            None => RespValue::Null,
            Some(i) => {
                match &self.entries[i].1.data {
                    DbData::String(sv) => RespValue::BulkString(copy_bytes(sv.as_slice())),
                    DbData::List(_) => RespValue::Error(crate::texts::wrongtype_bytes()),
                }
            },
        }
    }

    /// Appends the given values, in argument order, to the list at `key`,
    /// creating the list when absent. Replies the new length, or the type
    /// error when the key holds a text.
    pub fn rpush(&mut self, key: Vec<u8>, vals: Vec<Vec<u8>>, now_ms: u64) -> (r: RespValue)
        requires
            old(self).wf(),
            vals@.len() > 0,
        ensures
            final(self).wf(),
            r@ == rpush_step(old(self)@, key@, vals.deep_view(), now_ms).0,
            final(self)@ == rpush_step(old(self)@, key@, vals.deep_view(), now_ms).1,
    {
        let mut vs = vals;
        self.purge_expired(key.as_slice(), now_ms);
        let ghost m1 = self@;
        let mut l: Vec<Vec<u8>>;
        match self.find(key.as_slice()) {
            Some(i) => {
                let is_text = match &self.entries[i].1.data {
                    DbData::String(_) => true,
                    DbData::List(_) => false,
                };
                if is_text {
                    return RespValue::Error(crate::texts::wrongtype_bytes());
                }
                proof {
                    lemma_entries_map_remove(self.entries@, i as int);
                    lemma_keys_distinct_remove(self.entries@, i as int);
                }
                let (_k0, e) = self.entries.remove(i);
                l = take_list(e);
            },
            None => {
                proof {
                    lemma_absent_key(self.entries@, key@);
                }
                l = Vec::new();
            },
        }
        proof {
            assert(l.deep_view() =~= list_at(m1, key@));
        }
        l.append(&mut vs);
        proof {
            assert(l.deep_view() =~= list_at(m1, key@) + vals.deep_view());
        }
        let n = l.len();
        let entry = DbEntry { data: DbData::List(l), expires_at: None };
        proof {
            lemma_insert_pair(self.entries@, key, entry);
        }
        self.entries.push((key, entry));
        proof {
            assert(final(self)@ =~= rpush_step(old(self)@, key@, vals.deep_view(), now_ms).1);
        }
        RespValue::Integer(#[verifier::truncate] (n as i64))
    }

    /// Prepends the given values to the list at `key`, the last argument
    /// ending at the head, creating the list when absent. Replies the new
    /// length, or the type error when the key holds a text.
    pub fn lpush(&mut self, key: Vec<u8>, vals: Vec<Vec<u8>>, now_ms: u64) -> (r: RespValue)
        requires
            old(self).wf(),
            vals@.len() > 0,
        ensures
            final(self).wf(),
            r@ == lpush_step(old(self)@, key@, vals.deep_view(), now_ms).0,
            final(self)@ == lpush_step(old(self)@, key@, vals.deep_view(), now_ms).1,
    {
        let mut vs = vals;
        self.purge_expired(key.as_slice(), now_ms);
        let ghost m1 = self@;
        let mut tail: Vec<Vec<u8>>;
        match self.find(key.as_slice()) {
            Some(i) => {
                let is_text = match &self.entries[i].1.data {
                    DbData::String(_) => true,
                    DbData::List(_) => false,
                };
                if is_text {
                    return RespValue::Error(crate::texts::wrongtype_bytes());
                }
                proof {
                    lemma_entries_map_remove(self.entries@, i as int);
                    lemma_keys_distinct_remove(self.entries@, i as int);
                }
                let (_k0, e) = self.entries.remove(i);
                tail = take_list(e);
            },
            None => {
                proof {
                    lemma_absent_key(self.entries@, key@);
                }
                tail = Vec::new();
            },
        }
        proof {
            assert(tail.deep_view() =~= list_at(m1, key@));
        }
        let ghost v0 = vals.deep_view();
        let mut l: Vec<Vec<u8>> = Vec::new();
        loop
            invariant
                vs@.len() <= v0.len(),
                vs.deep_view() == v0.take(vs@.len() as int),
                l.deep_view() == v0.skip(vs@.len() as int).reverse(),
                v0 == vals.deep_view(),
            ensures
                l.deep_view() == v0.reverse(),
            decreases vs@.len(),
        {
            let ghost pre_vs = vs.deep_view();
            let ghost pre_l = l.deep_view();
            let ghost j: int = vs@.len() as int - 1;
            match vs.pop() {
                Some(v) => {
                    proof {
                        assert(vs.deep_view() =~= pre_vs.drop_last());
                        assert(pre_vs.drop_last() =~= v0.take(j as int));
                        assert(v@ == pre_vs[j as int]);
                        assert(pre_vs[j as int] == v0[j as int]);
                    }
                    l.push(v);
                    proof {
                        assert(l.deep_view() =~= pre_l.push(v@));
                        assert(v0.skip(j as int) =~= seq![v0[j as int]] + v0.skip(j + 1));
                        assert(v0.skip(j as int).reverse() =~= v0.skip(j + 1).reverse().push(
                            v0[j as int],
                        ));
                        assert(l.deep_view() =~= v0.skip(vs@.len() as int).reverse());
                    }
                },
                None => {
                    proof {
                        assert(v0.skip(0) =~= v0);
                        assert(l.deep_view() =~= v0.reverse());
                    }
                    break ;
                },
            }
        }
        l.append(&mut tail);
        proof {
            assert(l.deep_view() =~= vals.deep_view().reverse() + list_at(m1, key@));
        }
        let n = l.len();
        let entry = DbEntry { data: DbData::List(l), expires_at: None };
        proof {
            lemma_insert_pair(self.entries@, key, entry);
        }
        self.entries.push((key, entry));
        proof {
            assert(final(self)@ =~= lpush_step(old(self)@, key@, vals.deep_view(), now_ms).1);
        }
        RespValue::Integer(#[verifier::truncate] (n as i64))
    }

    /// Replies the length of the list at `key`: zero when the key is
    /// absent (nothing is created), the type error when it holds a text.
    pub fn llen(&mut self, key: &[u8], now_ms: u64) -> (r: RespValue)
        requires
            old(self).wf(),
        ensures
            final(self).wf(),
            r@ == llen_step(old(self)@, key@, now_ms).0,
            final(self)@ == llen_step(old(self)@, key@, now_ms).1,
    {
        self.purge_expired(key, now_ms);
        match self.find(key) {
            None => RespValue::Integer(0),
            Some(i) => {
                match &self.entries[i].1.data {
                    DbData::String(_) => RespValue::Error(crate::texts::wrongtype_bytes()),
                    DbData::List(l) => {
                        let n = l.len();
                        proof {
                            assert(l.deep_view().len() == l@.len());
                        }
                        RespValue::Integer(#[verifier::truncate] (n as i64))
                    },
                }
            },
        }
    }

    /// Replies the kind of the live entry at `key`, in words: `none`,
    /// `string` or `list`.
    pub fn type_of(&mut self, key: &[u8], now_ms: u64) -> (r: RespValue)
        requires
            old(self).wf(),
        ensures
            final(self).wf(),
            r@ == type_step(old(self)@, key@, now_ms).0,
            final(self)@ == type_step(old(self)@, key@, now_ms).1,
    {
        self.purge_expired(key, now_ms);
        match self.find(key) {
            None => RespValue::SimpleString(crate::texts::none_bytes()),
            Some(i) => {
                match &self.entries[i].1.data {
                    DbData::String(_) => RespValue::SimpleString(crate::texts::string_bytes()),
                    DbData::List(_) => RespValue::SimpleString(crate::texts::list_bytes()),
                }
            },
        }
    }

    /// Replies the inclusive slice `start ..= stop` of the list at `key`,
    /// negative indices counting from the end: the empty array when the
    /// key is absent or the normalized range is empty, the type error
    /// when the key holds a text.
    pub fn lrange(&mut self, key: &[u8], start: i64, stop: i64, now_ms: u64) -> (r: RespValue)
        requires
            old(self).wf(),
        ensures
            final(self).wf(),
            r@ == lrange_step(old(self)@, key@, start as int, stop as int, now_ms).0,
            final(self)@ == lrange_step(old(self)@, key@, start as int, stop as int, now_ms).1,
    {
        self.purge_expired(key, now_ms);
        match self.find(key) {
            None => RespValue::Array(Vec::new()),
            Some(i) => {
                match &self.entries[i].1.data {
                    DbData::String(_) => RespValue::Error(crate::texts::wrongtype_bytes()),
                    DbData::List(l) => {
                        let n128 = l.len() as i128;
                        let s0: i128 = if start < 0 {
                            n128 + start as i128
                        } else {
                            start as i128
                        };
                        let s1: i128 = if s0 < 0 {
                            0
                        } else {
                            s0
                        };
                        let e0: i128 = if stop < 0 {
                            n128 + stop as i128
                        } else {
                            stop as i128
                        };
                        let e1: i128 = if e0 >= n128 {
                            n128 - 1
                        } else {
                            e0
                        };
                        proof {
                            assert(l.deep_view().len() == l@.len());
                            assert((s1 as int, e1 as int) == norm_range(
                                l.deep_view().len() as int,
                                start as int,
                                stop as int,
                            ));
                        }
                        if s1 >= n128 || s1 > e1 {
                            RespValue::Array(Vec::new())
                        } else {
                            let su = s1 as usize;
                            let eu = e1 as usize;
                            let items = bulk_range(l, su, eu + 1);
                            RespValue::Array(items)
                        }
                    },
                }
            },
        }
    }

    /// Pops from the head of the list at `key`. Without a count, replies
    /// the head as a bulk text; with a count `c`, replies the first
    /// `min(c, length)` elements as an array. The entry is removed when
    /// the list empties. An absent key is `Null`; a text is the type
    /// error.
    pub fn lpop(&mut self, key: &[u8], count: Option<u64>, now_ms: u64) -> (r: RespValue)
        requires
            old(self).wf(),
        ensures
            final(self).wf(),
            r@ == lpop_step(old(self)@, key@, count, now_ms).0,
            final(self)@ == lpop_step(old(self)@, key@, count, now_ms).1,
    {
        self.purge_expired(key, now_ms);
        let ghost m1 = self@;
        let i = match self.find(key) {
            None => {
                return RespValue::Null;
            },
            Some(i) => i,
        };
        let is_text = match &self.entries[i].1.data {
            DbData::String(_) => true,
            DbData::List(_) => false,
        };
        if is_text {
            return RespValue::Error(crate::texts::wrongtype_bytes());
        }
        proof {
            lemma_entries_map_remove(self.entries@, i as int);
            lemma_keys_distinct_remove(self.entries@, i as int);
        }
        let (k0, e) = self.entries.remove(i);
        let mut l = take_list(e);
        let ghost l0 = l.deep_view();
        if l.len() == 0 {
            // A well-formed store never holds an empty list.
            proof {
                assert(false);
            }
            return RespValue::Null;
        }
        match count {
            None => {
                let ghost pre = l.deep_view();
                let head = l.remove(0);
                proof {
                    assert(l.deep_view() =~= pre.drop_first());
                    assert(head@ == pre[0]);
                }
                if l.len() > 0 {
                    let entry = DbEntry { data: DbData::List(l), expires_at: None };
                    proof {
                        lemma_insert_pair(self.entries@, k0, entry);
                    }
                    self.entries.push((k0, entry));
                    proof {
                        assert(final(self)@ =~= lpop_step(old(self)@, key@, count, now_ms).1);
                    }
                } else {
                    proof {
                        assert(l.deep_view() =~= Seq::<Seq<u8>>::empty());
                        assert(final(self)@ =~= lpop_step(old(self)@, key@, count, now_ms).1);
                    }
                }
                RespValue::BulkString(head)
            },
            Some(c) => {
                let take: usize = if c < l.len() as u64 {
                    c as usize
                } else {
                    l.len()
                };
                let mut popped: Vec<Vec<u8>> = Vec::new();
                let mut t: usize = 0;
                while t < take
                    invariant
                        0 <= t <= take <= l0.len(),
                        l@.len() == l0.len() - t,
                        popped.deep_view() == l0.take(t as int),
                        l.deep_view() == l0.skip(t as int),
                    decreases take - t,
                {
                    let ghost pre = l.deep_view();
                    let ghost pre_p = popped.deep_view();
                    let v = l.remove(0);
                    popped.push(v);
                    proof {
                        assert(l.deep_view() =~= pre.drop_first());
                        assert(v@ == pre[0]);
                        assert(pre[0] == l0[t as int]);
                        assert(popped.deep_view() =~= pre_p.push(v@));
                        assert(popped.deep_view() =~= l0.take(t + 1));
                        assert(l.deep_view() =~= l0.skip(t + 1));
                    }
                    t += 1;
                }
                let items = bulk_range(&popped, 0, popped.len());
                proof {
                    assert(popped.deep_view().subrange(0, popped.deep_view().len() as int)
                        =~= l0.take(take as int));
                }
                if l.len() > 0 {
                    let entry = DbEntry { data: DbData::List(l), expires_at: None };
                    proof {
                        lemma_insert_pair(self.entries@, k0, entry);
                    }
                    self.entries.push((k0, entry));
                    proof {
                        assert(final(self)@ =~= lpop_step(old(self)@, key@, count, now_ms).1);
                    }
                } else {
                    proof {
                        assert(l.deep_view() =~= Seq::<Seq<u8>>::empty());
                        assert(final(self)@ =~= lpop_step(old(self)@, key@, count, now_ms).1);
                    }
                }
                RespValue::Array(items)
            },
        }
    }

    /// One attempt of a blocking pop. A non-empty list at `key` is popped
    /// and the reply pairs the key with the head; a text is the type
    /// error; past the deadline the reply is the null array; otherwise
    /// `None` says the caller must wait for a push and try again.
    pub fn blpop_attempt(&mut self, key: &[u8], deadline_ms: Option<u64>, now_ms: u64) -> (r:
        Option<RespValue>)
        requires
            old(self).wf(),
        ensures
            final(self).wf(),
            match r {
                Some(v) => blpop_attempt_step(old(self)@, key@, deadline_ms, now_ms).0 == Some(v@),
                None => blpop_attempt_step(old(self)@, key@, deadline_ms, now_ms).0 is None,
            },
            final(self)@ == blpop_attempt_step(old(self)@, key@, deadline_ms, now_ms).1,
    {
        self.purge_expired(key, now_ms);
        let ghost m1 = self@;
        let found = self.find(key);
        if let Some(i) = found {
            let is_text = match &self.entries[i].1.data {
                DbData::String(_) => true,
                DbData::List(_) => false,
            };
            if is_text {
                return Some(RespValue::Error(crate::texts::wrongtype_bytes()));
            }
            proof {
                lemma_entries_map_remove(self.entries@, i as int);
                lemma_keys_distinct_remove(self.entries@, i as int);
            }
            let (k0, e) = self.entries.remove(i);
            let mut l = take_list(e);
            let ghost pre = l.deep_view();
            if l.len() == 0 {
                // A well-formed store never holds an empty list.
                proof {
                    assert(false);
                }
                return None;
            }
            let head = l.remove(0);
            proof {
                assert(l.deep_view() =~= pre.drop_first());
                assert(head@ == pre[0]);
            }
            if l.len() > 0 {
                let entry = DbEntry { data: DbData::List(l), expires_at: None };
                proof {
                    lemma_insert_pair(self.entries@, k0, entry);
                }
                self.entries.push((k0, entry));
            } else {
                proof {
                    assert(l.deep_view() =~= Seq::<Seq<u8>>::empty());
                }
            }
            let mut items: Vec<RespValue> = Vec::new();
            items.push(RespValue::BulkString(copy_bytes(key)));
            items.push(RespValue::BulkString(head));
            proof {
                crate::resp::lemma_resp_models(items@);
                assert(crate::resp::resp_models(items@) =~= seq![
                    RespModel::Bulk(key@),
                    RespModel::Bulk(pre[0]),
                ]);
                assert(final(self)@ =~= blpop_attempt_step(old(self)@, key@, deadline_ms, now_ms).1);
            }
            return Some(RespValue::Array(items));
        }
        match deadline_ms {
            Some(d) => {
                if now_ms >= d {
                    Some(RespValue::NullArray)
                } else {
                    None
                }
            },
            None => None,
        }
    }

    /// Removes the entry at `key` if it has expired; every operation does
    /// this first, so an expired entry is never observed.
    fn purge_expired(&mut self, key: &[u8], now_ms: u64)
        requires
            old(self).wf(),
        ensures
            final(self).wf(),
            final(self)@ == live(old(self)@, key@, now_ms),
    {
        let i = match self.find(key) {
            Some(i) => i,
            None => {
                return ;
            },
        };
        let is_past = match self.entries[i].1.expires_at {
            Some(d) => now_ms > d,
            None => false,
        };
        if is_past {
            proof {
                lemma_entries_map_remove(self.entries@, i as int);
                lemma_keys_distinct_remove(self.entries@, i as int);
            }
            let _ = self.entries.remove(i);
        }
    }
}

/// Removing a pair keeps the keys distinct, and its key is held by no
/// other pair.
pub proof fn lemma_keys_distinct_remove(s: Seq<(Vec<u8>, DbEntry)>, i: int)
    requires
        keys_distinct(s),
        0 <= i < s.len(),
    ensures
        keys_distinct(s.remove(i)),
        forall|j: int| 0 <= j < s.remove(i).len() ==> (#[trigger] s.remove(i)[j]).0@ != s[i].0@,
{
    let t = s.remove(i);
    assert forall|a: int, b: int| 0 <= a < b < t.len() implies t[a].0@ != t[b].0@ by {
        let a0 = if a < i {
            a
        } else {
            a + 1
        };
        let b0 = if b < i {
            b
        } else {
            b + 1
        };
        assert(t[a] == s[a0]);
        assert(t[b] == s[b0]);
    }
    assert forall|j: int| 0 <= j < t.len() implies (#[trigger] t[j]).0@ != s[i].0@ by {
        let j0 = if j < i {
            j
        } else {
            j + 1
        };
        assert(t[j] == s[j0]);
    }
}

/// Appending a pair whose key no other pair holds keeps the keys
/// distinct and inserts the key.
pub proof fn lemma_insert_pair(s: Seq<(Vec<u8>, DbEntry)>, k: Vec<u8>, e: DbEntry)
    requires
        keys_distinct(s),
        forall|j: int| 0 <= j < s.len() ==> (#[trigger] s[j]).0@ != k@,
    ensures
        keys_distinct(s.push((k, e))),
        entries_map(s.push((k, e))) == entries_map(s).insert(k@, e@),
{
    lemma_entries_map_push(s, k, e);
    let t = s.push((k, e));
    assert forall|a: int, b: int| 0 <= a < b < t.len() implies t[a].0@ != t[b].0@ by {
        if b < s.len() {
            assert(t[a] == s[a] && t[b] == s[b]);
        } else {
            assert(t[a] == s[a] && t[b] == (k, e));
        }
    }
}

/// A key absent from the map is held by no pair.
pub proof fn lemma_absent_key(s: Seq<(Vec<u8>, DbEntry)>, k: Seq<u8>)
    requires
        keys_distinct(s),
        !entries_map(s).contains_key(k),
    ensures
        forall|j: int| 0 <= j < s.len() ==> (#[trigger] s[j]).0@ != k,
{
    lemma_entries_map_props(s);
    assert forall|j: int| 0 <= j < s.len() implies (#[trigger] s[j]).0@ != k by {
        if s[j].0@ == k {
            assert(exists|i: int| 0 <= i < s.len() && (#[trigger] s[i]).0@ == k);
        }
    }
}


/// What the executor hands back: a reply to write, or an instruction to
/// park the session on `key` until a push or the deadline, then try
/// again.
#[derive(Debug, PartialEq, Eq)]
pub enum ExecOutcome {
    Reply(RespValue),
    Block(Vec<u8>, Option<u64>),
}

/// The reply to a liveness probe: the message echoed as a bulk text, or
/// the fixed word.
pub open spec fn ping_reply(msg: Option<Seq<u8>>) -> RespModel {
    match msg {
        Some(v) => RespModel::Bulk(v),
        None => RespModel::Simple(crate::ascii::lit_bytes("PONG"@)),
    }
}

/// True when the command broadcasts on the store's condition variable
/// after it runs: every write that can feed a parked pop does.
pub open spec fn notifies(c: CommandModel) -> bool {
    c matches CommandModel::Put(_, _, _) || c matches CommandModel::RPush(_, _)
        || c matches CommandModel::LPush(_, _)
}

/// True when the command's caller must wake all waiters after it: the
/// writes that can feed a parked pop.
pub fn command_notifies(cmd: &Command) -> (r: bool)
    ensures
        r == notifies(cmd@),
{
    match cmd {
        Command::Put(_, _, _) => true,
        Command::RPush(_, _) => true,
        Command::LPush(_, _) => true,
        _ => false,
    }
}

/// The deadline of a blocking pop: none for a zero timeout, which waits
/// forever, else now plus the timeout.
pub open spec fn blpop_deadline(now: u64, timeout_ms: u64) -> Option<u64> {
    if timeout_ms == 0 {
        None
    } else {
        Some(sat_add(now, timeout_ms))
    }
}

/// True when running `c` against `m` at `now` yields the outcome `r` and
/// leaves the store at `m2`: each command acts as its step function
/// states, and a blocking pop that cannot pop parks the session.
pub open spec fn outcome_ok(
    m: StoreModel,
    c: CommandModel,
    now: u64,
    r: ExecOutcome,
    m2: StoreModel,
) -> bool {
    match c {
        CommandModel::Ping(msg) => r matches ExecOutcome::Reply(v) && v@ == ping_reply(msg) && m2
            == m,
        CommandModel::Echo(x) => r matches ExecOutcome::Reply(v) && v@ == RespModel::Bulk(x) && m2
            == m,
        CommandModel::Put(k, val, px) => r matches ExecOutcome::Reply(v) && v@ == set_step(
            m,
            k,
            val,
            px,
            now,
        ).0 && m2 == set_step(m, k, val, px, now).1,
        CommandModel::Get(k) => r matches ExecOutcome::Reply(v) && v@ == get_step(m, k, now).0
            && m2 == get_step(m, k, now).1,
        CommandModel::RPush(k, vs) => r matches ExecOutcome::Reply(v) && v@ == rpush_step(
            m,
            k,
            vs,
            now,
        ).0 && m2 == rpush_step(m, k, vs, now).1,
        CommandModel::LPush(k, vs) => r matches ExecOutcome::Reply(v) && v@ == lpush_step(
            m,
            k,
            vs,
            now,
        ).0 && m2 == lpush_step(m, k, vs, now).1,
        CommandModel::LRange(k, a, b) => r matches ExecOutcome::Reply(v) && v@ == lrange_step(
            m,
            k,
            a as int,
            b as int,
            now,
        ).0 && m2 == lrange_step(m, k, a as int, b as int, now).1,
        CommandModel::LLen(k) => r matches ExecOutcome::Reply(v) && v@ == llen_step(m, k, now).0
            && m2 == llen_step(m, k, now).1,
        CommandModel::LPop(k, c0) => r matches ExecOutcome::Reply(v) && v@ == lpop_step(
            m,
            k,
            c0,
            now,
        ).0 && m2 == lpop_step(m, k, c0, now).1,
        CommandModel::Type(k) => r matches ExecOutcome::Reply(v) && v@ == type_step(m, k, now).0
            && m2 == type_step(m, k, now).1,
        CommandModel::BLPop(k, t) => {
            let dl = blpop_deadline(now, t);
            let stepped = blpop_attempt_step(m, k, dl, now);
            match stepped.0 {
                Some(rm) => r matches ExecOutcome::Reply(v) && v@ == rm && m2 == stepped.1,
                None => r matches ExecOutcome::Block(bk, bdl) && bk@ == k && bdl == dl && m2
                    == stepped.1,
            }
        },
    }
}

/// Answers the commands that never touch the store — the liveness probe
/// and the echo — so a caller need not take the store's lock for them.
/// Every other command is handed back.
pub fn stateless_reply(cmd: Command) -> (r: Result<RespValue, Command>)
    ensures
        match r {
            Ok(v) => (cmd@ matches CommandModel::Ping(msg) && v@ == ping_reply(msg)) || (cmd@
                matches CommandModel::Echo(x) && v@ == RespModel::Bulk(x)),
            Err(c) => c == cmd && !(cmd@ is Ping) && !(cmd@ is Echo),
        },
{
    match cmd {
        Command::Ping(msg) => match msg {
            Some(m) => Ok(RespValue::BulkString(m)),
            None => Ok(RespValue::SimpleString(crate::texts::pong_bytes())),
        },
        Command::Echo(x) => Ok(RespValue::BulkString(x)),
        other => Err(other),
    }
}

/// Runs one command against the store at the given time. Every command
/// but a blocking pop replies at once; a blocking pop that finds nothing
/// to pop and no passed deadline asks the caller to park the session and
/// try again after a push or at the deadline.
pub fn execute_command(cmd: Command, store: &mut Store, now_ms: u64) -> (r: ExecOutcome)
    requires
        old(store).wf(),
        crate::command::cmd_valid(cmd@),
    ensures
        final(store).wf(),
        outcome_ok(old(store)@, cmd@, now_ms, r, final(store)@),
{
    match cmd {
        Command::Ping(msg) => match msg {
            Some(m) => ExecOutcome::Reply(RespValue::BulkString(m)),
            None => ExecOutcome::Reply(RespValue::SimpleString(crate::texts::pong_bytes())),
        },
        Command::Echo(x) => ExecOutcome::Reply(RespValue::BulkString(x)),
        Command::Put(k, val, px) => ExecOutcome::Reply(store.set(k, val, px, now_ms)),
        Command::Get(k) => ExecOutcome::Reply(store.get(k.as_slice(), now_ms)),
        Command::RPush(k, vs) => ExecOutcome::Reply(store.rpush(k, vs, now_ms)),
        Command::LPush(k, vs) => ExecOutcome::Reply(store.lpush(k, vs, now_ms)),
        Command::LRange(k, range) => ExecOutcome::Reply(
            store.lrange(k.as_slice(), range.0, range.1, now_ms),
        ),
        Command::LLen(k) => ExecOutcome::Reply(store.llen(k.as_slice(), now_ms)),
        Command::LPop(k, c0) => ExecOutcome::Reply(store.lpop(k.as_slice(), c0, now_ms)),
        Command::Type(k) => ExecOutcome::Reply(store.type_of(k.as_slice(), now_ms)),
        Command::BLPop(k, t) => {
            let deadline = if t == 0 {
                None
            } else {
                Some(sat_add_u64(now_ms, t))
            };
            match store.blpop_attempt(k.as_slice(), deadline, now_ms) {
                Some(v) => ExecOutcome::Reply(v),
                None => ExecOutcome::Block(k, deadline),
            }
        },
    }
}

} // verus!
