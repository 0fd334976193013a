//! The laws of the store: what holds of every key and every sequence of
//! operations, proved once and for all over the step functions that the
//! operations' contracts state.

use vstd::prelude::*;

verus! {

use crate::resp::RespModel;
use crate::storage::DataModel;
use crate::storage::EntryModel;
use crate::storage::StoreModel;
use crate::storage::blpop_attempt_step;
use crate::storage::get_step;
use crate::storage::holds_text;
use crate::storage::list_at;
use crate::storage::live;
use crate::storage::llen_step;
use crate::storage::lpop_step;
use crate::storage::lpush_step;
use crate::storage::lrange_step;
use crate::storage::norm_range;
use crate::storage::rpush_step;
use crate::storage::sat_add;
use crate::storage::set_step;
use crate::storage::type_step;
use crate::storage::wf_model;
use crate::storage::wrongtype_reply;

/// A key never written reads as absent everywhere: its text is `Null`,
/// its length zero, its full range empty, its kind `none`, and a pop of
/// it `Null`. Nothing in the store changes.
pub proof fn lemma_absent_key_reads(m: StoreModel, k: Seq<u8>, now: u64)
    requires
        !m.contains_key(k),
    ensures
        get_step(m, k, now) == (RespModel::Null, m),
        llen_step(m, k, now) == (RespModel::Int(0), m),
        lrange_step(m, k, 0, -1, now) == (RespModel::Arr(Seq::<RespModel>::empty()), m),
        type_step(m, k, now) == (RespModel::Simple(crate::ascii::lit_bytes("none"@)), m),
        lpop_step(m, k, None, now) == (RespModel::Null, m),
{
}

/// A text once written reads back whole, at any later time, until
/// overwritten or expired; a write without expiry never expires, and the
/// read changes nothing.
pub proof fn lemma_set_then_get(m: StoreModel, k: Seq<u8>, v: Seq<u8>, now: u64, later: u64)
    ensures
        get_step(set_step(m, k, v, None, now).1, k, later) == (
            RespModel::Bulk(v),
            set_step(m, k, v, None, now).1,
        ),
{
    let m2 = set_step(m, k, v, None, now).1;
    assert(live(m2, k, later) == m2);
}

/// A text written with an expiry reads back whole at any time not past
/// the expiry; at any time strictly past it, the read is `Null` and the
/// key is removed.
pub proof fn lemma_set_px_then_get(
    m: StoreModel,
    k: Seq<u8>,
    v: Seq<u8>,
    ttl_ms: u64,
    now: u64,
    later: u64,
)
    requires
        now + ttl_ms <= u64::MAX,
    ensures
        later <= now + ttl_ms ==> get_step(set_step(m, k, v, Some(ttl_ms), now).1, k, later) == (
            RespModel::Bulk(v),
            set_step(m, k, v, Some(ttl_ms), now).1,
        ),
        later > now + ttl_ms ==> get_step(set_step(m, k, v, Some(ttl_ms), now).1, k, later) == (
            RespModel::Null,
            set_step(m, k, v, Some(ttl_ms), now).1.remove(k),
        ),
{
    let m2 = set_step(m, k, v, Some(ttl_ms), now).1;
    assert(sat_add(now, ttl_ms) == now + ttl_ms);
    if later > now + ttl_ms {
        assert(!live(m2, k, later).contains_key(k));
    } else {
        assert(live(m2, k, later) == m2);
    }
}

/// Pushes onto an absent key build exactly the pushed run: appended at
/// the tail they stand in argument order, prepended at the head they
/// stand reversed, and the reply counts them.
pub proof fn lemma_push_on_empty(m: StoreModel, k: Seq<u8>, vals: Seq<Seq<u8>>, now: u64)
    requires
        !m.contains_key(k),
        vals.len() > 0,
    ensures
        rpush_step(m, k, vals, now).0 == RespModel::Int(vals.len() as i64),
        rpush_step(m, k, vals, now).1[k] == (EntryModel {
            data: DataModel::Lst(vals),
            expires_at: None,
        }),
        lpush_step(m, k, vals, now).0 == RespModel::Int(vals.len() as i64),
        lpush_step(m, k, vals, now).1[k] == (EntryModel {
            data: DataModel::Lst(vals.reverse()),
            expires_at: None,
        }),
{
    assert(list_at(live(m, k, now), k) + vals =~= vals);
    assert(vals.reverse() + list_at(live(m, k, now), k) =~= vals.reverse());
}

/// The reported length of a list always equals the number of elements
/// its full range returns, and the two reads fail together on a text.
pub proof fn lemma_llen_matches_lrange(m: StoreModel, k: Seq<u8>, now: u64)
    ensures
        match (llen_step(m, k, now).0, lrange_step(m, k, 0, -1, now).0) {
            (RespModel::Int(n), RespModel::Arr(vs)) => n == vs.len() as i64,
            (RespModel::Error(a), RespModel::Error(b)) => a == b,
            _ => false,
        },
{
    let m1 = live(m, k, now);
    if m1.contains_key(k) {
        match m1[k].data {
            DataModel::Str(_) => {},
            DataModel::Lst(l) => {
                let n = l.len() as int;
                if n > 0 {
                    let (s1, e1) = norm_range(n, 0, -1);
                    assert(s1 == 0 && e1 == n - 1);
                    assert(l.subrange(0, n).map(|i: int, v: Seq<u8>| RespModel::Bulk(v)).len()
                        == n);
                }
            },
        }
    }
}

/// The full range of a list of length `n` returns its elements in order;
/// in general the range returns the inclusive normalized slice, and the
/// empty array when that slice is empty.
pub proof fn lemma_lrange_is_slice(m: StoreModel, k: Seq<u8>, a: int, b: int, now: u64, l: Seq<
    Seq<u8>,
>)
    requires
        live(m, k, now).contains_key(k),
        live(m, k, now)[k].data == DataModel::Lst(l),
    ensures
        ({
            let (s1, e1) = norm_range(l.len() as int, a, b);
            if s1 >= l.len() || s1 > e1 {
                lrange_step(m, k, a, b, now).0 == RespModel::Arr(Seq::<RespModel>::empty())
            } else {
                lrange_step(m, k, a, b, now).0 == RespModel::Arr(
                    l.subrange(s1, e1 + 1).map(|i: int, v: Seq<u8>| RespModel::Bulk(v)),
                )
            }
        }),
{
}

/// One head pop of a non-empty list returns the head and shortens the
/// list by one; the entry vanishes exactly when the last element left.
pub proof fn lemma_lpop_head(m: StoreModel, k: Seq<u8>, now: u64, l: Seq<Seq<u8>>)
    requires
        wf_model(m),
        m.contains_key(k),
        m[k] == (EntryModel { data: DataModel::Lst(l), expires_at: None }),
        l.len() > 0,
    ensures
        lpop_step(m, k, None, now).0 == RespModel::Bulk(l[0]),
        l.len() == 1 ==> lpop_step(m, k, None, now).1 == m.remove(k),
        l.len() > 1 ==> lpop_step(m, k, None, now).1 == m.insert(
            k,
            EntryModel { data: DataModel::Lst(l.drop_first()), expires_at: None },
        ),
        wf_model(lpop_step(m, k, None, now).1),
{
    let post = lpop_step(m, k, None, now).1;
    assert(live(m, k, now) == m);
    assert forall|k2: Seq<u8>| post.contains_key(k2) implies ((#[trigger] post[k2]).data matches
        DataModel::Lst(l2) ==> l2.len() > 0 && post[k2].expires_at is None) by {
        if k2 != k {
            assert(post[k2] == m[k2]);
        }
    }
}

/// Popping the head over and over empties a list in insertion order: the
/// run of replies is the list itself, each element a bulk text, and the
/// key is gone at the end.
pub proof fn lemma_lpop_drains(m: StoreModel, k: Seq<u8>, now: u64, l: Seq<Seq<u8>>)
    requires
        wf_model(m),
        m.contains_key(k),
        m[k] == (EntryModel { data: DataModel::Lst(l), expires_at: None }),
        l.len() > 0,
    ensures
        pop_replies(m, k, now, l.len()) == l.map(|i: int, v: Seq<u8>| RespModel::Bulk(v)),
        !pop_state(m, k, now, l.len()).contains_key(k),
    decreases l.len(),
{
    lemma_lpop_head(m, k, now, l);
    let m2 = lpop_step(m, k, None, now).1;
    lemma_pop_run_shift(m, k, now, l.len());
    if l.len() == 1 {
        assert(pop_replies(m2, k, now, 0) == Seq::<RespModel>::empty());
        assert(pop_state(m2, k, now, 0) == m2);
        assert(pop_replies(m, k, now, 1) =~= seq![RespModel::Bulk(l[0])]);
        assert(l.map(|i: int, v: Seq<u8>| RespModel::Bulk(v)) =~= seq![RespModel::Bulk(l[0])]);
        assert(pop_state(m, k, now, 1) == m2);
        assert(!m2.contains_key(k));
    } else {
        let l2 = l.drop_first();
        assert(m2[k] == (EntryModel { data: DataModel::Lst(l2), expires_at: None }));
        lemma_lpop_drains(m2, k, now, l2);
        assert(pop_replies(m, k, now, l.len()) == seq![RespModel::Bulk(l[0])] + pop_replies(
            m2,
            k,
            now,
            (l.len() - 1) as nat,
        ));
        assert(seq![RespModel::Bulk(l[0])] + l2.map(|i: int, v: Seq<u8>| RespModel::Bulk(v)) =~= l.map(
            |i: int, v: Seq<u8>| RespModel::Bulk(v),
        ));
    }
}

/// The run of replies from popping the head `n` times.
pub open spec fn pop_replies(m: StoreModel, k: Seq<u8>, now: u64, n: nat) -> Seq<RespModel>
    decreases n,
{
    if n == 0 {
        Seq::empty()
    } else {
        seq![lpop_step(m, k, None, now).0] + pop_replies(lpop_step(m, k, None, now).1, k, now, (n
            - 1) as nat)
    }
}

/// The store after popping the head `n` times.
pub open spec fn pop_state(m: StoreModel, k: Seq<u8>, now: u64, n: nat) -> StoreModel
    decreases n,
{
    if n == 0 {
        m
    } else {
        pop_state(lpop_step(m, k, None, now).1, k, now, (n - 1) as nat)
    }
}

/// A run of pops is one pop followed by a run one shorter.
pub proof fn lemma_pop_run_shift(m: StoreModel, k: Seq<u8>, now: u64, n: nat)
    requires
        n > 0,
    ensures
        pop_replies(m, k, now, n) == seq![lpop_step(m, k, None, now).0] + pop_replies(
            lpop_step(m, k, None, now).1,
            k,
            now,
            (n - 1) as nat,
        ),
        pop_state(m, k, now, n) == pop_state(lpop_step(m, k, None, now).1, k, now, (n - 1) as nat),
{
}

/// A counted pop returns at most the asked number of elements, from the
/// head and in order, and an absent key is `Null`, never an empty array.
pub proof fn lemma_lpop_counted(m: StoreModel, k: Seq<u8>, c: u64, now: u64)
    ensures
        !live(m, k, now).contains_key(k) ==> lpop_step(m, k, Some(c), now).0 == RespModel::Null,
        ({
            let m1 = live(m, k, now);
            m1.contains_key(k) ==> match m1[k].data {
                DataModel::Lst(l) => l.len() > 0 ==> {
                    let take = if c < l.len() {
                        c as int
                    } else {
                        l.len() as int
                    };
                    lpop_step(m, k, Some(c), now).0 == RespModel::Arr(
                        l.take(take).map(|i: int, v: Seq<u8>| RespModel::Bulk(v)),
                    ) && take <= c && take <= l.len()
                },
                DataModel::Str(_) => lpop_step(m, k, Some(c), now).0 == wrongtype_reply(),
            }
        }),
{
}

/// The kind of a key, in words: a text reads `string`, a list `list`,
/// an absent key `none`.
pub proof fn lemma_type_words(m: StoreModel, k: Seq<u8>, now: u64)
    ensures
        !live(m, k, now).contains_key(k) ==> type_step(m, k, now).0 == RespModel::Simple(
            crate::ascii::lit_bytes("none"@),
        ),
        holds_text(live(m, k, now), k) ==> type_step(m, k, now).0 == RespModel::Simple(
            crate::ascii::lit_bytes("string"@),
        ),
        (live(m, k, now).contains_key(k) && live(m, k, now)[k].data is Lst) ==> type_step(
            m,
            k,
            now,
        ).0 == RespModel::Simple(crate::ascii::lit_bytes("list"@)),
{
}

/// After a text is written without expiry, every list operation on its
/// key answers the fixed type-mismatch error and leaves the store as it
/// stands.
pub proof fn lemma_wrongtype_after_set(
    m: StoreModel,
    k: Seq<u8>,
    v: Seq<u8>,
    vals: Seq<Seq<u8>>,
    a: int,
    b: int,
    c: Option<u64>,
    dl: Option<u64>,
    now: u64,
    later: u64,
)
    ensures
        ({
            let m2 = set_step(m, k, v, None, now).1;
            &&& rpush_step(m2, k, vals, later) == (wrongtype_reply(), m2)
            &&& lpush_step(m2, k, vals, later) == (wrongtype_reply(), m2)
            &&& lrange_step(m2, k, a, b, later) == (wrongtype_reply(), m2)
            &&& llen_step(m2, k, later) == (wrongtype_reply(), m2)
            &&& lpop_step(m2, k, c, later) == (wrongtype_reply(), m2)
            &&& blpop_attempt_step(m2, k, dl, later) == (Some(wrongtype_reply()), m2)
        }),
{
    let m2 = set_step(m, k, v, None, now).1;
    assert(live(m2, k, later) == m2);
    assert(holds_text(m2, k));
}

/// The heart of the blocking handshake: once a value is pushed onto a
/// key that held nothing, a waiter's next attempt pops exactly that
/// value, paired with the key, and the push itself reported length one.
pub proof fn lemma_blpop_handshake(
    m: StoreModel,
    k: Seq<u8>,
    x: Seq<u8>,
    dl: Option<u64>,
    now: u64,
    later: u64,
)
    requires
        !m.contains_key(k),
    ensures
        rpush_step(m, k, seq![x], now).0 == RespModel::Int(1),
        blpop_attempt_step(rpush_step(m, k, seq![x], now).1, k, dl, later).0 == Some(
            RespModel::Arr(seq![RespModel::Bulk(k), RespModel::Bulk(x)]),
        ),
        !blpop_attempt_step(rpush_step(m, k, seq![x], now).1, k, dl, later).1.contains_key(k),
{
    let m2 = rpush_step(m, k, seq![x], now).1;
    assert(list_at(live(m, k, now), k) + seq![x] =~= seq![x]);
    assert(live(m2, k, later) == m2);
    assert(list_at(m2, k) == seq![x]);
    assert(seq![x].drop_first() =~= Seq::<Seq<u8>>::empty());
}

/// A waiting pop neither answers early nor hangs past its deadline: with
/// nothing to pop, an attempt before the deadline keeps waiting, and an
/// attempt at or past it answers the null array.
pub proof fn lemma_blpop_timeout(m: StoreModel, k: Seq<u8>, d: u64, now: u64)
    requires
        !live(m, k, now).contains_key(k),
    ensures
        now < d ==> blpop_attempt_step(m, k, Some(d), now).0 is None,
        now >= d ==> blpop_attempt_step(m, k, Some(d), now).0 == Some(RespModel::NullArray),
{
}

/// Appends compose: two appends in a row, in any store state where the
/// key holds no text, leave the two runs contiguous and in order behind
/// what stood there, and the second reply counts everything.
pub proof fn lemma_rpush_composes(
    m: StoreModel,
    k: Seq<u8>,
    vs1: Seq<Seq<u8>>,
    vs2: Seq<Seq<u8>>,
    now: u64,
    later: u64,
)
    requires
        !holds_text(live(m, k, now), k),
    ensures
        ({
            let l0 = list_at(live(m, k, now), k);
            let m2 = rpush_step(m, k, vs1, now).1;
            &&& rpush_step(m, k, vs1, now).0 == RespModel::Int((l0 + vs1).len() as i64)
            &&& rpush_step(m2, k, vs2, later).0 == RespModel::Int((l0 + vs1 + vs2).len() as i64)
            &&& rpush_step(m2, k, vs2, later).1[k] == (EntryModel {
                data: DataModel::Lst(l0 + vs1 + vs2),
                expires_at: None,
            })
        }),
{
    let l0 = list_at(live(m, k, now), k);
    let m2 = rpush_step(m, k, vs1, now).1;
    assert(live(m2, k, later) == m2);
    assert(list_at(m2, k) == l0 + vs1);
    assert(list_at(m2, k) + vs2 =~= l0 + vs1 + vs2);
}


} // verus!
