//! Typed commands and their parsing from a request frame.
//!
//! A request is an array of bulk texts: the command name, matched without
//! regard to ASCII case, then its arguments. Parsing yields a [`Command`]
//! or the text of a command error; the session replies that text as an
//! error frame and carries on.

use vstd::prelude::*;

verus! {

broadcast use crate::ascii::lemma_bytes_deep;

use crate::ascii::bytes_eq;
use crate::ascii::lit_bytes;
use crate::ascii::str_bytes;
use crate::num::all_digits;
use crate::num::dec_value;
use crate::num::digit_val;
use crate::num::is_digit;
use crate::resp::RespModel;
use crate::resp::RespValue;
use crate::resp::resp_models;

/// One typed command.
#[derive(Debug, PartialEq, Eq)]
pub enum Command {
    Ping(Option<Vec<u8>>),
    Echo(Vec<u8>),
    Put(Vec<u8>, Vec<u8>, Option<u64>),
    Get(Vec<u8>),
    RPush(Vec<u8>, Vec<Vec<u8>>),
    LPush(Vec<u8>, Vec<Vec<u8>>),
    LRange(Vec<u8>, (i64, i64)),
    LLen(Vec<u8>),
    LPop(Vec<u8>, Option<u64>),
    BLPop(Vec<u8>, u64),
    Type(Vec<u8>),
}

/// The mathematical shape of a command.
pub enum CommandModel {
    Ping(Option<Seq<u8>>),
    Echo(Seq<u8>),
    Put(Seq<u8>, Seq<u8>, Option<u64>),
    Get(Seq<u8>),
    RPush(Seq<u8>, Seq<Seq<u8>>),
    LPush(Seq<u8>, Seq<Seq<u8>>),
    LRange(Seq<u8>, i64, i64),
    LLen(Seq<u8>),
    LPop(Seq<u8>, Option<u64>),
    BLPop(Seq<u8>, u64),
    Type(Seq<u8>),
}

impl View for Command {
    type V = CommandModel;

    open spec fn view(&self) -> CommandModel {
        match self {
            Command::Ping(m) => CommandModel::Ping(
                match m {
                    Some(v) => Some(v@),
                    None => None,
                },
            ),
            Command::Echo(v) => CommandModel::Echo(v@),
            Command::Put(k, v, px) => CommandModel::Put(k@, v@, *px),
            Command::Get(k) => CommandModel::Get(k@),
            Command::RPush(k, vs) => CommandModel::RPush(k@, vs.deep_view()),
            Command::LPush(k, vs) => CommandModel::LPush(k@, vs.deep_view()),
            Command::LRange(k, range) => CommandModel::LRange(k@, range.0, range.1),
            Command::LLen(k) => CommandModel::LLen(k@),
            Command::LPop(k, c) => CommandModel::LPop(k@, *c),
            Command::BLPop(k, t) => CommandModel::BLPop(k@, *t),
            Command::Type(k) => CommandModel::Type(k@),
        }
    }
}

/// A command is fit for execution when its pushed values, where it has
/// any, are non-empty; the parser enforces this.
pub open spec fn cmd_valid(c: CommandModel) -> bool {
    match c {
        CommandModel::RPush(_, vs) => vs.len() > 0,
        CommandModel::LPush(_, vs) => vs.len() > 0,
        _ => true,
    }
}

/// A byte with a lower-case letter raised to its upper-case form.
pub open spec fn ascii_upper(b: u8) -> u8 {
    if 'a' as u8 <= b <= 'z' as u8 {
        (b - 32) as u8
    } else {
        b
    }
}

/// A byte string with its letters raised to upper case.
pub open spec fn upper_seq(s: Seq<u8>) -> Seq<u8> {
    s.map(|i: int, b: u8| ascii_upper(b))
}

/// Raises a byte string's letters to upper case.
pub fn to_upper(s: &[u8]) -> (r: Vec<u8>)
    ensures
        r@ == upper_seq(s@),
{
    let n = s.len();
    let mut r: Vec<u8> = Vec::new();
    let mut i: usize = 0;
    while i < n
        invariant
            0 <= i <= n,
            n == s@.len(),
            r@.len() == i,
            forall|j: int| 0 <= j < i ==> r@[j] == ascii_upper(s@[j]),
        decreases n - i,
    {
        let b = s[i];
        if 'a' as u8 <= b && b <= 'z' as u8 {
            r.push(b - 32);
        } else {
            r.push(b);
        }
        i += 1;
    }
    proof {
        assert(r@ =~= upper_seq(s@));
    }
    r
}

/// The payload of the bulk text at `i`, if a bulk text stands there.
pub open spec fn bulk_at(elems: Seq<RespModel>, i: int) -> Option<Seq<u8>> {
    if 0 <= i < elems.len() {
        match elems[i] {
            RespModel::Bulk(s) => Some(s),
            _ => None,
        }
    } else {
        None
    }
}

/// Reads the bulk text at `index` of a request, if one stands there.
pub fn extract_string(elems: &[RespValue], index: usize) -> (r: Option<Vec<u8>>)
    ensures
        match r {
            Some(v) => bulk_at(resp_models(elems@), index as int) == Some(v@),
            None => bulk_at(resp_models(elems@), index as int) is None,
        },
{
    proof {
        resp_models_len_and_index(elems@);
    }
    if index >= elems.len() {
        return None;
    }
    match &elems[index] {
        RespValue::BulkString(s) => Some(vstd::slice::slice_to_vec(s.as_slice())),
        _ => None,
    }
}

/// The models of a run of frames, element by element.
proof fn resp_models_len_and_index(s: Seq<RespValue>)
    ensures
        resp_models(s).len() == s.len(),
        forall|i: int| 0 <= i < s.len() ==> resp_models(s)[i] == crate::resp::resp_model(s[i]),
{
    crate::resp::lemma_resp_models(s);
}

/// The bulk payloads among the frames from `from` on; any frame of
/// another shape is passed over.
pub open spec fn collect_bulks(elems: Seq<RespModel>, from: int) -> Seq<Seq<u8>>
    decreases elems.len() - from,
{
    if from < 0 || from >= elems.len() {
        Seq::empty()
    } else {
        match elems[from] {
            RespModel::Bulk(s) => seq![s] + collect_bulks(elems, from + 1),
            _ => collect_bulks(elems, from + 1),
        }
    }
}

/// Gathers the bulk payloads among the frames from `from` on.
fn gather_bulks(elems: &[RespValue], from: usize) -> (r: Vec<Vec<u8>>)
    requires
        from <= elems@.len(),
    ensures
        r.deep_view() == collect_bulks(resp_models(elems@), from as int),
{
    proof {
        resp_models_len_and_index(elems@);
    }
    let n = elems.len();
    let mut r: Vec<Vec<u8>> = Vec::new();
    let mut i = n;
    // Walk backwards so each step prepends to the already-gathered tail
    // exactly as the specification unfolds.
    while i > from
        invariant
            from <= i <= n,
            n == elems@.len(),
            forall|j: int|
                0 <= j < elems@.len() ==> resp_models(elems@)[j] == crate::resp::resp_model(
                    elems@[j],
                ),
            resp_models(elems@).len() == elems@.len(),
            r.deep_view() == collect_bulks(resp_models(elems@), i as int),
        decreases i,
    {
        i -= 1;
        match &elems[i] {
            RespValue::BulkString(s) => {
                let ghost pre = r.deep_view();
                r.insert(0, vstd::slice::slice_to_vec(s.as_slice()));
                proof {
                    assert(r.deep_view() =~= seq![s@] + pre);
                }
            },
            _ => {},
        }
    }
    r
}


/// The first `.` at or after `pos`, if any.
pub open spec fn spec_find_dot(s: Seq<u8>, pos: int) -> Option<int>
    decreases s.len() - pos,
{
    if pos < 0 || pos >= s.len() {
        None
    } else if s[pos] == '.' as u8 {
        Some(pos)
    } else {
        spec_find_dot(s, pos + 1)
    }
}

/// A found dot lies inside the byte string, at or after the start of the
/// search, and nothing before it is a dot.
pub proof fn lemma_find_dot_bounds(s: Seq<u8>, pos: int)
    ensures
        spec_find_dot(s, pos) matches Some(d) ==> pos <= d < s.len() && s[d] == '.' as u8,
    decreases s.len() - pos,
{
    if pos < 0 || pos >= s.len() {
    } else if s[pos] == '.' as u8 {
    } else {
        lemma_find_dot_bounds(s, pos + 1);
    }
}

/// The largest number of whole seconds a timeout may name, so that its
/// milliseconds fit the word size.
pub open spec fn timeout_cap() -> nat {
    ((u64::MAX - 999) / 1000) as nat
}

/// The milliseconds named by a fraction: its first three digits, padded
/// with zeros.
pub open spec fn frac_ms(frac: Seq<u8>) -> nat {
    dec_value((frac + seq!['0' as u8, '0' as u8, '0' as u8]).take(3))
}

/// True when the signless body of a timeout is well formed: digits, or
/// digits around one dot with at least one digit in all, the whole
/// seconds within [`timeout_cap`].
pub open spec fn timeout_body_ok(b: Seq<u8>) -> bool {
    match spec_find_dot(b, 0) {
        None => b.len() > 0 && all_digits(b) && dec_value(b) <= timeout_cap(),
        Some(d) => {
            let ip = b.take(d);
            let fr = b.skip(d + 1);
            ip.len() + fr.len() > 0 && all_digits(ip) && all_digits(fr) && dec_value(ip)
                <= timeout_cap()
        },
    }
}

/// The milliseconds named by the signless body of a timeout: whole
/// seconds times a thousand, plus the fraction to millisecond depth.
pub open spec fn timeout_ms_of(b: Seq<u8>) -> nat {
    match spec_find_dot(b, 0) {
        None => dec_value(b) * 1000,
        Some(d) => dec_value(b.take(d)) * 1000 + frac_ms(b.skip(d + 1)),
    }
}

/// True when `s` is a well-formed timeout in decimal seconds: an optional
/// `+`, then a well-formed body.
pub open spec fn parses_as_timeout(s: Seq<u8>) -> bool {
    timeout_body_ok(crate::num::unsigned_body(s))
}

/// The first `.` in `s`, if any.
fn find_dot(s: &[u8]) -> (r: Option<usize>)
    ensures
        match r {
            Some(d) => spec_find_dot(s@, 0) == Some(d as int),
            None => spec_find_dot(s@, 0) is None,
        },
{
    let n = s.len();
    let mut i: usize = 0;
    while i < n
        invariant
            0 <= i <= n,
            n == s@.len(),
            spec_find_dot(s@, 0) == spec_find_dot(s@, i as int),
        decreases n - i,
    {
        if s[i] == '.' as u8 {
            return Some(i);
        }
        i += 1;
    }
    None
}

/// True when `s` holds digits only.
fn all_digits_exec(s: &[u8]) -> (r: bool)
    ensures
        r == all_digits(s@),
{
    let n = s.len();
    let mut i: usize = 0;
    while i < n
        invariant
            0 <= i <= n,
            n == s@.len(),
            forall|j: int| 0 <= j < i ==> is_digit(#[trigger] s@[j]),
        decreases n - i,
    {
        let b = s[i];
        if b < '0' as u8 || b > '9' as u8 {
            assert(!is_digit(s@[i as int]));
            return false;
        }
        i += 1;
    }
    true
}

/// The value of a digit string, or nothing when a byte is no digit or
/// the value does not fit the word. The empty string counts zero.
fn digits_val(s: &[u8]) -> (r: Option<u64>)
    ensures
        r is Some ==> all_digits(s@) && r->Some_0 == dec_value(s@),
        r is None ==> !(all_digits(s@) && dec_value(s@) <= u64::MAX),
{
    let n = s.len();
    let mut acc: u64 = 0;
    let mut i: usize = 0;
    while i < n
        invariant
            0 <= i <= n,
            n == s@.len(),
            all_digits(s@.take(i as int)),
            acc == dec_value(s@.take(i as int)),
        decreases n - i,
    {
        let c = s[i];
        if c < '0' as u8 || c > '9' as u8 {
            assert(!is_digit(s@[i as int]));
            return None;
        }
        let d = c - '0' as u8;
        if acc > (u64::MAX - d as u64) / 10 {
            proof {
                assert(s@.take(i + 1).drop_last() =~= s@.take(i as int));
                assert(dec_value(s@.take(i + 1)) > u64::MAX);
                crate::num::lemma_dec_value_prefix(s@, i + 1);
            }
            return None;
        }
        proof {
            assert(s@.take(i + 1).drop_last() =~= s@.take(i as int));
        }
        acc = acc * 10 + d as u64;
        i += 1;
    }
    proof {
        assert(s@.take(n as int) =~= s@);
    }
    Some(acc)
}

/// The milliseconds named by a fraction's first three digits.
fn frac3(s: &[u8]) -> (r: u64)
    requires
        all_digits(s@),
    ensures
        r == frac_ms(s@),
        r <= 999,
{
    let d0: u64 = if s.len() > 0 {
        (s[0] - '0' as u8) as u64
    } else {
        0
    };
    let d1: u64 = if s.len() > 1 {
        (s[1] - '0' as u8) as u64
    } else {
        0
    };
    let d2: u64 = if s.len() > 2 {
        (s[2] - '0' as u8) as u64
    } else {
        0
    };
    proof {
        let t = (s@ + seq!['0' as u8, '0' as u8, '0' as u8]).take(3);
        assert(t.len() == 3);
        assert(t.drop_last() =~= t.take(2));
        assert(t.take(2).drop_last() =~= t.take(1));
        assert(t.take(1).drop_last() =~= Seq::<u8>::empty());
        assert(dec_value(Seq::<u8>::empty()) == 0);
        assert(t.take(1).last() == t[0]);
        assert(dec_value(t.take(1)) == digit_val(t[0]));
        assert(t.take(2).last() == t[1]);
        assert(dec_value(t.take(2)) == digit_val(t[0]) * 10 + digit_val(t[1]));
        assert(t.last() == t[2]);
        assert(dec_value(t) == (digit_val(t[0]) * 10 + digit_val(t[1])) * 10 + digit_val(t[2]));
        assert(digit_val(t[0]) == d0 && digit_val(t[1]) == d1 && digit_val(t[2]) == d2);
    }
    d0 * 100 + d1 * 10 + d2
}

/// Reads a timeout given in decimal seconds into milliseconds, exactly
/// as stated by [`parses_as_timeout`]. A negative or malformed text is
/// rejected.
pub fn parse_timeout_ms(s: &[u8]) -> (r: Option<u64>)
    ensures
        r is Some ==> parses_as_timeout(s@) && r->Some_0 == timeout_ms_of(
            crate::num::unsigned_body(s@),
        ),
        r is None ==> !parses_as_timeout(s@),
{
    let body: &[u8] = if s.len() > 0 && s[0] == '+' as u8 {
        vstd::slice::slice_subrange(s, 1, s.len())
    } else {
        s
    };
    proof {
        assert(body@ =~= crate::num::unsigned_body(s@));
    }
    let cap: u64 = (u64::MAX - 999) / 1000;
    match find_dot(body) {
        None => {
            if body.len() == 0 {
                return None;
            }
            match digits_val(body) {
                None => None,
                Some(v) => {
                    if v > cap {
                        None
                    } else {
                        Some(v * 1000)
                    }
                },
            }
        },
        Some(d) => {
            proof {
                lemma_find_dot_bounds(body@, 0);
            }
            let ip = vstd::slice::slice_subrange(body, 0, d);
            let fr = vstd::slice::slice_subrange(body, d + 1, body.len());
            proof {
                assert(ip@ =~= body@.take(d as int));
                assert(fr@ =~= body@.skip(d + 1));
            }
            if ip.len() == 0 && fr.len() == 0 {
                return None;
            }
            let iv = match digits_val(ip) {
                None => {
                    return None;
                },
                Some(iv) => iv,
            };
            if iv > cap {
                return None;
            }
            if !all_digits_exec(fr) {
                return None;
            }
            let fv = frac3(fr);
            Some(iv * 1000 + fv)
        },
    }
}


/// What parsing a request names: the command, or the text of the command
/// error the session must reply.
pub open spec fn parse_command(r: RespModel) -> Result<CommandModel, Seq<u8>> {
    match r {
        RespModel::Arr(elems) => match bulk_at(elems, 0) {
            Some(name0) => parse_named(upper_seq(name0), elems),
            None => Err(lit_bytes("Invalid command format"@)),
        },
        _ => Err(lit_bytes("Expected array of bulk strings"@)),
    }
}

/// Parses the arguments of the command called `name` (already raised to
/// upper case).
pub open spec fn parse_named(name: Seq<u8>, elems: Seq<RespModel>) -> Result<
    CommandModel,
    Seq<u8>,
> {
    if name == lit_bytes("PING"@) {
        Ok(CommandModel::Ping(bulk_at(elems, 1)))
    } else if name == lit_bytes("ECHO"@) {
        match bulk_at(elems, 1) {
            Some(v) => Ok(CommandModel::Echo(v)),
            None => Err(lit_bytes("ECHO requires an argument"@)),
        }
    } else if name == lit_bytes("SET"@) {
        parse_set_args(elems)
    } else if name == lit_bytes("GET"@) {
        match bulk_at(elems, 1) {
            Some(k) => Ok(CommandModel::Get(k)),
            None => Err(lit_bytes("GET requires a key"@)),
        }
    } else if name == lit_bytes("RPUSH"@) {
        match bulk_at(elems, 1) {
            Some(k) => {
                let vs = collect_bulks(elems, 2);
                if vs.len() == 0 {
                    Err(lit_bytes("RPUSH requires at least one value"@))
                } else {
                    Ok(CommandModel::RPush(k, vs))
                }
            },
            None => Err(lit_bytes("RPUSH missing key"@)),
        }
    } else if name == lit_bytes("LPUSH"@) {
        match bulk_at(elems, 1) {
            Some(k) => {
                let vs = collect_bulks(elems, 2);
                if vs.len() == 0 {
                    Err(lit_bytes("LPUSH requires at least one value"@))
                } else {
                    Ok(CommandModel::LPush(k, vs))
                }
            },
            None => Err(lit_bytes("LPUSH missing key"@)),
        }
    } else if name == lit_bytes("LRANGE"@) {
        parse_lrange_args(elems)
    } else if name == lit_bytes("LLEN"@) {
        match bulk_at(elems, 1) {
            Some(k) => Ok(CommandModel::LLen(k)),
            None => Err(lit_bytes("LRANGE missing key"@)),
        }
    } else if name == lit_bytes("LPOP"@) {
        match bulk_at(elems, 1) {
            Some(k) => match bulk_at(elems, 2) {
                None => Ok(CommandModel::LPop(k, None)),
                Some(c) => {
                    if crate::num::parses_as_u64(c) {
                        Ok(
                            CommandModel::LPop(
                                k,
                                Some(dec_value(crate::num::unsigned_body(c)) as u64),
                            ),
                        )
                    } else {
                        Err(lit_bytes("value is not an integer"@))
                    }
                },
            },
            None => Err(lit_bytes("LPOP missing key"@)),
        }
    } else if name == lit_bytes("BLPOP"@) {
        match bulk_at(elems, 1) {
            Some(k) => match bulk_at(elems, 2) {
                None => Err(lit_bytes("BLPOP missing timeout duration"@)),
                Some(t) => {
                    if parses_as_timeout(t) {
                        Ok(
                            CommandModel::BLPop(
                                k,
                                timeout_ms_of(crate::num::unsigned_body(t)) as u64,
                            ),
                        )
                    } else {
                        Err(lit_bytes("value is not an integer"@))
                    }
                },
            },
            None => Err(lit_bytes("BLPOP missing key"@)),
        }
    } else if name == lit_bytes("TYPE"@) {
        match bulk_at(elems, 1) {
            Some(k) => Ok(CommandModel::Type(k)),
            None => Err(lit_bytes("TYPE missing key"@)),
        }
    } else {
        Err(lit_bytes("Unknown command: "@) + name)
    }
}

/// Parses the arguments of a write of a text value: key, value, and an
/// optional trailing `PX` with its milliseconds. A third argument other
/// than `PX` is passed over.
pub open spec fn parse_set_args(elems: Seq<RespModel>) -> Result<CommandModel, Seq<u8>> {
    match bulk_at(elems, 1) {
        None => Err(lit_bytes("SET missing key"@)),
        Some(k) => match bulk_at(elems, 2) {
            None => Err(lit_bytes("SET missing value"@)),
            Some(v) => match bulk_at(elems, 3) {
                None => Ok(CommandModel::Put(k, v, None)),
                Some(flag) => {
                    if upper_seq(flag) == lit_bytes("PX"@) {
                        match bulk_at(elems, 4) {
                            None => Err(lit_bytes("PX requires milliseconds"@)),
                            Some(ms) => {
                                if crate::num::parses_as_u64(ms) {
                                    Ok(
                                        CommandModel::Put(
                                            k,
                                            v,
                                            Some(dec_value(crate::num::unsigned_body(ms)) as u64),
                                        ),
                                    )
                                } else {
                                    Err(lit_bytes("Invalid PX value"@))
                                }
                            },
                        }
                    } else {
                        Ok(CommandModel::Put(k, v, None))
                    }
                },
            },
        },
    }
}

/// Parses the arguments of a range read: key and two signed indices.
pub open spec fn parse_lrange_args(elems: Seq<RespModel>) -> Result<CommandModel, Seq<u8>> {
    match bulk_at(elems, 1) {
        None => Err(lit_bytes("LRANGE missing key"@)),
        Some(k) => match bulk_at(elems, 2) {
            None => Err(lit_bytes("LRANGE missing start"@)),
            Some(a) => {
                if !crate::num::parses_as_i64(a) {
                    Err(lit_bytes("value is not an integer or out of range"@))
                } else {
                    match bulk_at(elems, 3) {
                        None => Err(lit_bytes("LRANGE missing stop"@)),
                        Some(b) => {
                            if !crate::num::parses_as_i64(b) {
                                Err(lit_bytes("value is not an integer or out of range"@))
                            } else {
                                Ok(
                                    CommandModel::LRange(
                                        k,
                                        crate::num::signed_value(a) as i64,
                                        crate::num::signed_value(b) as i64,
                                    ),
                                )
                            }
                        },
                    }
                }
            },
        },
    }
}

impl Command {
    /// Reads a request frame into a typed command, or the text of the
    /// command error to reply.
    pub fn from_resp(resp: RespValue) -> (r: Result<Command, Vec<u8>>)
        ensures
            match r {
                Ok(c) => parse_command(resp@) == Ok::<CommandModel, Seq<u8>>(c@) && cmd_valid(c@),
                Err(e) => parse_command(resp@) == Err::<CommandModel, Seq<u8>>(e@),
            },
    {
        proof {
            reveal_strlit("Invalid command format");
            reveal_strlit("Expected array of bulk strings");
            reveal_strlit("PING");
            reveal_strlit("ECHO");
            reveal_strlit("ECHO requires an argument");
            reveal_strlit("SET");
            reveal_strlit("SET missing key");
            reveal_strlit("SET missing value");
            reveal_strlit("PX");
            reveal_strlit("PX requires milliseconds");
            reveal_strlit("Invalid PX value");
            reveal_strlit("GET");
            reveal_strlit("GET requires a key");
            reveal_strlit("RPUSH");
            reveal_strlit("RPUSH missing key");
            reveal_strlit("RPUSH requires at least one value");
            reveal_strlit("LPUSH");
            reveal_strlit("LPUSH missing key");
            reveal_strlit("LPUSH requires at least one value");
            reveal_strlit("LRANGE");
            reveal_strlit("LRANGE missing key");
            reveal_strlit("LRANGE missing start");
            reveal_strlit("LRANGE missing stop");
            reveal_strlit("value is not an integer or out of range");
            reveal_strlit("LLEN");
            reveal_strlit("LPOP");
            reveal_strlit("LPOP missing key");
            reveal_strlit("value is not an integer");
            reveal_strlit("BLPOP");
            reveal_strlit("BLPOP missing key");
            reveal_strlit("BLPOP missing timeout duration");
            reveal_strlit("TYPE");
            reveal_strlit("TYPE missing key");
            reveal_strlit("Unknown command: ");
        }
        let elems = match resp {
            RespValue::Array(e) => e,
            _ => {
                return Err(str_bytes("Expected array of bulk strings"));
            },
        };
        let name0 = match extract_string(elems.as_slice(), 0) {
            Some(s) => s,
            None => {
                return Err(str_bytes("Invalid command format"));
            },
        };
        let name = to_upper(name0.as_slice());
        let ghost ems = resp_models(elems@);
        if bytes_eq(name.as_slice(), str_bytes("PING").as_slice()) {
            let arg = extract_string(elems.as_slice(), 1);
            Ok(Command::Ping(arg))
        } else if bytes_eq(name.as_slice(), str_bytes("ECHO").as_slice()) {
            match extract_string(elems.as_slice(), 1) {
                Some(v) => Ok(Command::Echo(v)),
                None => Err(str_bytes("ECHO requires an argument")),
            }
        } else if bytes_eq(name.as_slice(), str_bytes("SET").as_slice()) {
            let k = match extract_string(elems.as_slice(), 1) {
                Some(k) => k,
                None => {
                    return Err(str_bytes("SET missing key"));
                },
            };
            let v = match extract_string(elems.as_slice(), 2) {
                Some(v) => v,
                None => {
                    return Err(str_bytes("SET missing value"));
                },
            };
            match extract_string(elems.as_slice(), 3) {
                None => Ok(Command::Put(k, v, None)),
                Some(flag) => {
                    let flag_up = to_upper(flag.as_slice());
                    if bytes_eq(flag_up.as_slice(), str_bytes("PX").as_slice()) {
                        match extract_string(elems.as_slice(), 4) {
                            None => Err(str_bytes("PX requires milliseconds")),
                            Some(ms) => match crate::num::parse_u64(ms.as_slice()) {
                                Some(n) => Ok(Command::Put(k, v, Some(n))),
                                None => Err(str_bytes("Invalid PX value")),
                            },
                        }
                    } else {
                        Ok(Command::Put(k, v, None))
                    }
                },
            }
        } else if bytes_eq(name.as_slice(), str_bytes("GET").as_slice()) {
            match extract_string(elems.as_slice(), 1) {
                Some(k) => Ok(Command::Get(k)),
                None => Err(str_bytes("GET requires a key")),
            }
        } else if bytes_eq(name.as_slice(), str_bytes("RPUSH").as_slice()) {
            let k = match extract_string(elems.as_slice(), 1) {
                Some(k) => k,
                None => {
                    return Err(str_bytes("RPUSH missing key"));
                },
            };
            proof {
                resp_models_len_and_index(elems@);
            }
            let vs = gather_bulks(elems.as_slice(), 2);
            if vs.len() == 0 {
                Err(str_bytes("RPUSH requires at least one value"))
            } else {
                Ok(Command::RPush(k, vs))
            }
        } else if bytes_eq(name.as_slice(), str_bytes("LPUSH").as_slice()) {
            let k = match extract_string(elems.as_slice(), 1) {
                Some(k) => k,
                None => {
                    return Err(str_bytes("LPUSH missing key"));
                },
            };
            proof {
                resp_models_len_and_index(elems@);
            }
            let vs = gather_bulks(elems.as_slice(), 2);
            if vs.len() == 0 {
                Err(str_bytes("LPUSH requires at least one value"))
            } else {
                Ok(Command::LPush(k, vs))
            }
        } else if bytes_eq(name.as_slice(), str_bytes("LRANGE").as_slice()) {
            let k = match extract_string(elems.as_slice(), 1) {
                Some(k) => k,
                None => {
                    return Err(str_bytes("LRANGE missing key"));
                },
            };
            let a = match extract_string(elems.as_slice(), 2) {
                Some(a) => a,
                None => {
                    return Err(str_bytes("LRANGE missing start"));
                },
            };
            let start = match crate::num::parse_i64(a.as_slice()) {
                Some(n) => n,
                None => {
                    return Err(str_bytes("value is not an integer or out of range"));
                },
            };
            let b = match extract_string(elems.as_slice(), 3) {
                Some(b) => b,
                None => {
                    return Err(str_bytes("LRANGE missing stop"));
                },
            };
            let stop = match crate::num::parse_i64(b.as_slice()) {
                Some(n) => n,
                None => {
                    return Err(str_bytes("value is not an integer or out of range"));
                },
            };
            Ok(Command::LRange(k, (start, stop)))
        } else if bytes_eq(name.as_slice(), str_bytes("LLEN").as_slice()) {
            match extract_string(elems.as_slice(), 1) {
                Some(k) => Ok(Command::LLen(k)),
                None => Err(str_bytes("LRANGE missing key")),
            }
        } else if bytes_eq(name.as_slice(), str_bytes("LPOP").as_slice()) {
            let k = match extract_string(elems.as_slice(), 1) {
                Some(k) => k,
                None => {
                    return Err(str_bytes("LPOP missing key"));
                },
            };
            match extract_string(elems.as_slice(), 2) {
                None => Ok(Command::LPop(k, None)),
                Some(c) => match crate::num::parse_u64(c.as_slice()) {
                    Some(n) => Ok(Command::LPop(k, Some(n))),
                    None => Err(str_bytes("value is not an integer")),
                },
            }
        } else if bytes_eq(name.as_slice(), str_bytes("BLPOP").as_slice()) {
            let k = match extract_string(elems.as_slice(), 1) {
                Some(k) => k,
                None => {
                    return Err(str_bytes("BLPOP missing key"));
                },
            };
            match extract_string(elems.as_slice(), 2) {
                None => Err(str_bytes("BLPOP missing timeout duration")),
                Some(t) => match parse_timeout_ms(t.as_slice()) {
                    Some(ms) => Ok(Command::BLPop(k, ms)),
                    None => Err(str_bytes("value is not an integer")),
                },
            }
        } else if bytes_eq(name.as_slice(), str_bytes("TYPE").as_slice()) {
            match extract_string(elems.as_slice(), 1) {
                Some(k) => Ok(Command::Type(k)),
                None => Err(str_bytes("TYPE missing key")),
            }
        } else {
            let mut e = str_bytes("Unknown command: ");
            e.extend_from_slice(name.as_slice());
            proof {
                assert(e@ =~= lit_bytes("Unknown command: "@) + upper_seq(name0@));
            }
            Err(e)
        }
    }
}

} // verus!
