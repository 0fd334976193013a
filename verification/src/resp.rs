//! The wire codec: typed frames, their byte form, and the parser.
//!
//! Every frame is one line-framed value: a simple string `+text`, an error
//! `-text`, an integer `:n`, a length-prefixed bulk string `$len` followed
//! by the payload, or an array `*n` followed by `n` frames. Lines end in
//! CRLF. `$-1` is the null bulk, `*-1` the null array. Bulk payloads are
//! binary-safe: the parser counts bytes and never splits the payload.

use vstd::prelude::*;

verus! {

use crate::ascii::bytes_eq;
use crate::num::dec_digits;
use crate::num::dec_int;
use crate::num::fmt_i64_into;
use crate::num::fmt_u64_into;
use crate::texts::err_prefix;
use crate::texts::err_prefix_bytes;
use crate::texts::wrongtype_bytes;
use crate::texts::wrongtype_msg;

/// One typed frame of the wire protocol.
#[derive(Debug, PartialEq, Eq)]
pub enum RespValue {
    SimpleString(Vec<u8>),
    BulkString(Vec<u8>),
    Array(Vec<RespValue>),
    Error(Vec<u8>),
    Integer(i64),
    Null,
    NullArray,
}

/// The mathematical shape of a frame: byte strings as sequences.
pub enum RespModel {
    Simple(Seq<u8>),
    Bulk(Seq<u8>),
    Arr(Seq<RespModel>),
    Error(Seq<u8>),
    Int(i64),
    Null,
    NullArray,
}

/// The model of a frame, element by element.
pub open spec fn resp_model(v: RespValue) -> RespModel
    decreases v,
{
    match v {
        RespValue::SimpleString(s) => RespModel::Simple(s@),
        RespValue::BulkString(s) => RespModel::Bulk(s@),
        RespValue::Array(elems) => RespModel::Arr(resp_models(elems@)),
        RespValue::Error(s) => RespModel::Error(s@),
        RespValue::Integer(i) => RespModel::Int(i),
        RespValue::Null => RespModel::Null,
        RespValue::NullArray => RespModel::NullArray,
    }
}

/// The models of a run of frames.
pub open spec fn resp_models(s: Seq<RespValue>) -> Seq<RespModel>
    decreases s,
{
    if s.len() == 0 {
        Seq::empty()
    } else {
        resp_models(s.drop_last()).push(resp_model(s.last()))
    }
}

/// The model of a run of frames is the model of each frame in place.
pub broadcast proof fn lemma_resp_models(s: Seq<RespValue>)
    ensures
        (#[trigger] resp_models(s)).len() == s.len(),
        forall|i: int| 0 <= i < s.len() ==> resp_models(s)[i] == resp_model(s[i]),
    decreases s.len(),
{
    if s.len() > 0 {
        lemma_resp_models(s.drop_last());
    }
}

impl View for RespValue {
    type V = RespModel;

    open spec fn view(&self) -> RespModel {
        resp_model(*self)
    }
}

/// The two bytes that end every protocol line.
pub open spec fn crlf() -> Seq<u8> {
    seq!['\r' as u8, '\n' as u8]
}

/// The wire payload of an error frame: the fixed type-mismatch text is
/// written as-is, every other text gets the `ERR ` prefix.
pub open spec fn err_payload(s: Seq<u8>) -> Seq<u8> {
    if s == wrongtype_msg() {
        s
    } else {
        err_prefix() + s
    }
}

/// The byte form of a frame.
pub open spec fn ser(m: RespModel) -> Seq<u8>
    decreases m,
{
    match m {
        RespModel::Simple(s) => seq!['+' as u8] + s + crlf(),
        RespModel::Bulk(s) => seq!['$' as u8] + dec_digits(s.len()) + crlf() + s + crlf(),
        RespModel::Arr(elems) => seq!['*' as u8] + dec_digits(elems.len()) + crlf() + ser_elems(
            elems,
        ),
        RespModel::Error(s) => seq!['-' as u8] + err_payload(s) + crlf(),
        RespModel::Int(i) => seq![':' as u8] + dec_int(i as int) + crlf(),
        RespModel::Null => seq!['$' as u8, '-' as u8, '1' as u8] + crlf(),
        RespModel::NullArray => seq!['*' as u8, '-' as u8, '1' as u8] + crlf(),
    }
}

/// The byte form of a run of frames, one after the other.
pub open spec fn ser_elems(elems: Seq<RespModel>) -> Seq<u8>
    decreases elems,
{
    if elems.len() == 0 {
        Seq::empty()
    } else {
        ser(elems[0]) + ser_elems(elems.drop_first())
    }
}

/// Serializing a run of frames one longer appends the byte form of the
/// last frame.
pub proof fn lemma_ser_elems_take(elems: Seq<RespModel>, n: int)
    requires
        0 <= n < elems.len(),
    ensures
        ser_elems(elems.take(n + 1)) == ser_elems(elems.take(n)) + ser(elems[n]),
    decreases n,
{
    if n == 0 {
        assert(elems.take(1).drop_first() =~= Seq::<RespModel>::empty());
        assert(elems.take(0) =~= Seq::<RespModel>::empty());
        assert(elems.take(1)[0] == elems[0]);
        assert(ser_elems(Seq::<RespModel>::empty()) =~= Seq::<u8>::empty());
        assert(ser_elems(elems.take(1)) =~= ser(elems[0]) + Seq::<u8>::empty());
        assert(ser_elems(elems.take(1)) =~= ser(elems[0]));
        assert(ser_elems(elems.take(0)) + ser(elems[0]) =~= ser(elems[0]));
    } else {
        lemma_ser_elems_take(elems.drop_first(), n - 1);
        assert(elems.take(n + 1).drop_first() =~= elems.drop_first().take(n));
        assert(elems.take(n).drop_first() =~= elems.drop_first().take(n - 1));
        assert(elems.drop_first()[n - 1] == elems[n]);
        assert(ser_elems(elems.take(n + 1)) == ser(elems[0]) + ser_elems(elems.drop_first().take(n)));
        assert(ser(elems[0]) + (ser_elems(elems.drop_first().take(n - 1)) + ser(elems[n])) =~= (ser(
            elems[0],
        ) + ser_elems(elems.drop_first().take(n - 1))) + ser(elems[n]));
    }
}

impl RespValue {
    /// Writes the byte form of this frame.
    #[verifier::loop_isolation(false)]
    pub fn serialize(&self) -> (r: Vec<u8>)
        ensures
            r@ == ser(self@),
        decreases *self,
    {
        match self {
            RespValue::SimpleString(s) => {
                let mut out: Vec<u8> = Vec::new();
                out.push('+' as u8);
                out.extend_from_slice(s.as_slice());
                out.push('\r' as u8);
                out.push('\n' as u8);
                proof {
                    assert(out@ =~= ser(self@));
                }
                out
            },
            RespValue::Error(s) => {
                let mut out: Vec<u8> = Vec::new();
                out.push('-' as u8);
                let wrongtype = wrongtype_bytes();
                if bytes_eq(s.as_slice(), wrongtype.as_slice()) {
                    out.extend_from_slice(s.as_slice());
                } else {
                    let mut prefix = err_prefix_bytes();
                    out.append(&mut prefix);
                    out.extend_from_slice(s.as_slice());
                }
                out.push('\r' as u8);
                out.push('\n' as u8);
                proof {
                    assert(out@ =~= ser(self@));
                }
                out
            },
            RespValue::Integer(i) => {
                let mut out: Vec<u8> = Vec::new();
                out.push(':' as u8);
                fmt_i64_into(*i, &mut out);
                out.push('\r' as u8);
                out.push('\n' as u8);
                proof {
                    assert(out@ =~= ser(self@));
                }
                out
            },
            RespValue::BulkString(s) => {
                let mut out: Vec<u8> = Vec::new();
                out.push('$' as u8);
                fmt_u64_into(s.len() as u64, &mut out);
                out.push('\r' as u8);
                out.push('\n' as u8);
                out.extend_from_slice(s.as_slice());
                out.push('\r' as u8);
                out.push('\n' as u8);
                proof {
                    assert(out@ =~= ser(self@));
                }
                out
            },
            RespValue::Null => {
                let mut out: Vec<u8> = Vec::new();
                out.push('$' as u8);
                out.push('-' as u8);
                out.push('1' as u8);
                out.push('\r' as u8);
                out.push('\n' as u8);
                proof {
                    assert(out@ =~= ser(self@));
                }
                out
            },
            RespValue::NullArray => {
                let mut out: Vec<u8> = Vec::new();
                out.push('*' as u8);
                out.push('-' as u8);
                out.push('1' as u8);
                out.push('\r' as u8);
                out.push('\n' as u8);
                proof {
                    assert(out@ =~= ser(self@));
                }
                out
            },
            RespValue::Array(elems) => {
                let mut out: Vec<u8> = Vec::new();
                out.push('*' as u8);
                fmt_u64_into(elems.len() as u64, &mut out);
                out.push('\r' as u8);
                out.push('\n' as u8);
                let ghost models = resp_models(elems@);
                proof {
                    lemma_resp_models(elems@);
                }
                let ghost header = out@;
                let n = elems.len();
                let mut i: usize = 0;
                while i < n
                    invariant
                        0 <= i <= n,
                        n == elems@.len(),
                        models == resp_models(elems@),
                        models.len() == n,
                        forall|k: int| 0 <= k < n ==> models[k] == resp_model(#[trigger] elems@[k]),
                        out@ == header + ser_elems(models.take(i as int)),
                    decreases n - i,
                {
                    proof {
                        assert(decreases_to!(*self => self->Array_0));
                        assert(decreases_to!(self->Array_0 => self->Array_0@));
                        assert(decreases_to!(self->Array_0@ => self->Array_0@[i as int]));
                        assert(decreases_to!(*self => elems@[i as int]));
                    }
                    let mut piece = elems[i].serialize();
                    out.append(&mut piece);
                    proof {
                        lemma_ser_elems_take(models, i as int);
                        assert(out@ =~= header + ser_elems(models.take(i + 1)));
                    }
                    i += 1;
                }
                proof {
                    assert(models.take(n as int) =~= models);
                    assert(out@ =~= ser(self@));
                }
                out
            },
        }
    }
}


/// What parsing finds at a position: a complete frame and where it ends,
/// too few bytes so far, or a malformed frame.
pub enum ParseModel {
    Complete { v: RespModel, end: int },
    Incomplete,
    Invalid,
}

/// What parsing a run of frames finds: the frames and where the run ends,
/// too few bytes, or a malformed frame.
pub enum ElemsModel {
    Complete { vs: Seq<RespModel>, end: int },
    Incomplete,
    Invalid,
}

/// The first position at or after `pos` where a CRLF pair stands, if any.
pub open spec fn spec_find_crlf(s: Seq<u8>, pos: int) -> Option<int>
    decreases s.len() - pos,
{
    if pos < 0 || pos + 2 > s.len() {
        None
    } else if s[pos] == '\r' as u8 && s[pos + 1] == '\n' as u8 {
        Some(pos)
    } else {
        spec_find_crlf(s, pos + 1)
    }
}

/// A found CRLF lies at or after the start of the search and fits inside
/// the byte string.
pub proof fn lemma_find_crlf_bounds(s: Seq<u8>, pos: int)
    ensures
        spec_find_crlf(s, pos) matches Some(i) ==> pos <= i && i + 2 <= s.len(),
    decreases s.len() - pos,
{
    if pos < 0 || pos + 2 > s.len() {
    } else if s[pos] == '\r' as u8 && s[pos + 1] == '\n' as u8 {
    } else {
        lemma_find_crlf_bounds(s, pos + 1);
    }
}

/// True when `s` is the two-byte text `-1`, the marker of a null bulk or
/// null array header.
pub open spec fn is_neg_one(s: Seq<u8>) -> bool {
    s == seq!['-' as u8, '1' as u8]
}

/// True when `s` is a plain run of digits whose value fits a `usize`:
/// the only accepted form of a bulk or array length.
pub open spec fn is_plain_len(s: Seq<u8>) -> bool {
    s.len() > 0 && crate::num::all_digits(s) && crate::num::dec_value(s) <= usize::MAX
}

/// Parses the frame standing at `pos`.
///
/// A frame is a tag byte and a CRLF-ended header line; bulk strings then
/// carry exactly as many payload bytes as the header says, ended by CRLF;
/// arrays then carry as many frames as the header says. Missing bytes are
/// `Incomplete`; a bad tag, a bad number or a bad payload ending is
/// `Invalid`.
pub open spec fn parse_at(s: Seq<u8>, pos: int) -> ParseModel
    decreases s.len() - pos, 0int, 1int,
        via parse_at_decreases
{
    if !(0 <= pos <= s.len()) {
        ParseModel::Invalid
    } else if pos == s.len() {
        ParseModel::Incomplete
    } else {
        let tag = s[pos];
        match spec_find_crlf(s, pos + 1) {
            None => {
                if tag == '+' as u8 || tag == '-' as u8 || tag == ':' as u8 || tag == '$' as u8
                    || tag == '*' as u8 {
                    ParseModel::Incomplete
                } else {
                    ParseModel::Invalid
                }
            },
            Some(i) => {
                let content = s.subrange(pos + 1, i);
                let rest = i + 2;
                if tag == '+' as u8 {
                    ParseModel::Complete { v: RespModel::Simple(content), end: rest }
                } else if tag == '-' as u8 {
                    ParseModel::Complete { v: RespModel::Error(content), end: rest }
                } else if tag == ':' as u8 {
                    if crate::num::parses_as_i64(content) {
                        ParseModel::Complete {
                            v: RespModel::Int(crate::num::signed_value(content) as i64),
                            end: rest,
                        }
                    } else {
                        ParseModel::Invalid
                    }
                } else if tag == '$' as u8 {
                    if is_neg_one(content) {
                        ParseModel::Complete { v: RespModel::Null, end: rest }
                    } else if is_plain_len(content) {
                        let len = crate::num::dec_value(content) as int;
                        if rest + len + 2 > s.len() {
                            ParseModel::Incomplete
                        } else if s[rest + len] == '\r' as u8 && s[rest + len + 1] == '\n' as u8 {
                            ParseModel::Complete {
                                v: RespModel::Bulk(s.subrange(rest, rest + len)),
                                end: rest + len + 2,
                            }
                        } else {
                            ParseModel::Invalid
                        }
                    } else {
                        ParseModel::Invalid
                    }
                } else if tag == '*' as u8 {
                    if is_neg_one(content) {
                        ParseModel::Complete { v: RespModel::NullArray, end: rest }
                    } else if is_plain_len(content) {
                        let n = crate::num::dec_value(content) as int;
                        match parse_elems(s, rest, n) {
                            ElemsModel::Complete { vs, end } => ParseModel::Complete {
                                v: RespModel::Arr(vs),
                                end: end,
                            },
                            ElemsModel::Incomplete => ParseModel::Incomplete,
                            ElemsModel::Invalid => ParseModel::Invalid,
                        }
                    } else {
                        ParseModel::Invalid
                    }
                } else {
                    ParseModel::Invalid
                }
            },
        }
    }
}

#[via_fn]
proof fn parse_at_decreases(s: Seq<u8>, pos: int) {
    lemma_find_crlf_bounds(s, pos + 1);
}

/// Parses a run of `n` frames standing one after the other at `pos`.
pub open spec fn parse_elems(s: Seq<u8>, pos: int, n: int) -> ElemsModel
    decreases s.len() - pos, n, 0int,
{
    if !(0 <= pos <= s.len()) {
        ElemsModel::Invalid
    } else if n <= 0 {
        ElemsModel::Complete { vs: Seq::empty(), end: pos }
    } else {
        match parse_at(s, pos) {
            ParseModel::Complete { v, end } => {
                if pos < end <= s.len() {
                    match parse_elems(s, end, n - 1) {
                        ElemsModel::Complete { vs, end: end2 } => ElemsModel::Complete {
                            vs: seq![v] + vs,
                            end: end2,
                        },
                        ElemsModel::Incomplete => ElemsModel::Incomplete,
                        ElemsModel::Invalid => ElemsModel::Invalid,
                    }
                } else {
                    ElemsModel::Invalid
                }
            },
            ParseModel::Incomplete => ElemsModel::Incomplete,
            ParseModel::Invalid => ElemsModel::Invalid,
        }
    }
}


/// What the parser returns: a complete frame and the number of bytes it
/// took, too few bytes so far, or a malformed frame.
#[derive(Debug, PartialEq, Eq)]
pub enum ParseOutcome {
    Complete(RespValue, usize),
    Incomplete,
    Invalid,
}

/// Finds the first CRLF pair at or after `pos`.
pub fn find_crlf(s: &[u8], pos: usize) -> (r: Option<usize>)
    requires
        pos <= s@.len(),
    ensures
        match r {
            Some(i) => spec_find_crlf(s@, pos as int) == Some(i as int),
            None => spec_find_crlf(s@, pos as int) is None,
        },
{
    let n = s.len();
    let mut i = pos;
    while i < n && i + 1 < n
        invariant
            pos <= i <= n,
            n == s@.len(),
            spec_find_crlf(s@, pos as int) == spec_find_crlf(s@, i as int),
        decreases n - i,
    {
        if s[i] == '\r' as u8 && s[i + 1] == '\n' as u8 {
            return Some(i);
        }
        i += 1;
    }
    None
}

/// Reads a bulk or array length: a plain run of digits that fits a
/// `usize`.
fn parse_len(s: &[u8]) -> (r: Option<usize>)
    ensures
        r is Some ==> is_plain_len(s@) && r->Some_0 == crate::num::dec_value(s@),
        r is None ==> !is_plain_len(s@),
{
    if s.len() > 0 && s[0] == '+' as u8 {
        assert(!crate::num::all_digits(s@)) by {
            assert(!crate::num::is_digit(s@[0]));
        }
        return None;
    }
    match crate::num::parse_u64(s) {
        Some(v) => {
            if v <= usize::MAX as u64 {
                Some(v as usize)
            } else {
                None
            }
        },
        None => None,
    }
}

/// Parses the frame standing at `pos`, exactly as [`parse_at`] states.
#[verifier::loop_isolation(false)]
pub fn parse_frame_at(input: &[u8], pos: usize) -> (r: ParseOutcome)
    requires
        pos <= input@.len(),
    ensures
        match r {
            ParseOutcome::Complete(v, end) => parse_at(input@, pos as int) == (ParseModel::Complete {
                v: v@,
                end: end as int,
            }) && pos < end <= input@.len(),
            ParseOutcome::Incomplete => parse_at(input@, pos as int) is Incomplete,
            ParseOutcome::Invalid => parse_at(input@, pos as int) is Invalid,
        },
    decreases input@.len() - pos,
{
    let n = input.len();
    if pos == n {
        return ParseOutcome::Incomplete;
    }
    let tag = input[pos];
    let known = tag == '+' as u8 || tag == '-' as u8 || tag == ':' as u8 || tag == '$' as u8
        || tag == '*' as u8;
    if !known {
        return ParseOutcome::Invalid;
    }
    let found = find_crlf(input, pos + 1);
    proof {
        lemma_find_crlf_bounds(input@, pos + 1);
    }
    let i = match found {
        None => {
            return ParseOutcome::Incomplete;
        },
        Some(i) => i,
    };
    let content = vstd::slice::slice_subrange(input, pos + 1, i);
    let rest = i + 2;
    if tag == '+' as u8 {
        ParseOutcome::Complete(RespValue::SimpleString(vstd::slice::slice_to_vec(content)), rest)
    } else if tag == '-' as u8 {
        ParseOutcome::Complete(RespValue::Error(vstd::slice::slice_to_vec(content)), rest)
    } else if tag == ':' as u8 {
        match crate::num::parse_i64(content) {
            Some(v) => ParseOutcome::Complete(RespValue::Integer(v), rest),
            None => ParseOutcome::Invalid,
        }
    } else if tag == '$' as u8 {
        if content.len() == 2 && content[0] == '-' as u8 && content[1] == '1' as u8 {
            proof {
                assert(content@ =~= seq!['-' as u8, '1' as u8]);
            }
            return ParseOutcome::Complete(RespValue::Null, rest);
        }
        proof {
            if content@.len() == 2 && content@ == seq!['-' as u8, '1' as u8] {
                assert(content@[0] == '-' as u8 && content@[1] == '1' as u8);
            }
        }
        let len = match parse_len(content) {
            Some(l) => l,
            None => {
                return ParseOutcome::Invalid;
            },
        };
        if (rest as u128) + (len as u128) + 2 > (n as u128) {
            return ParseOutcome::Incomplete;
        }
        if input[rest + len] == '\r' as u8 && input[rest + len + 1] == '\n' as u8 {
            let payload = vstd::slice::slice_subrange(input, rest, rest + len);
            ParseOutcome::Complete(RespValue::BulkString(vstd::slice::slice_to_vec(payload)), rest
                + len + 2)
        } else {
            ParseOutcome::Invalid
        }
    } else {
        if content.len() == 2 && content[0] == '-' as u8 && content[1] == '1' as u8 {
            proof {
                assert(content@ =~= seq!['-' as u8, '1' as u8]);
            }
            return ParseOutcome::Complete(RespValue::NullArray, rest);
        }
        proof {
            if content@.len() == 2 && content@ == seq!['-' as u8, '1' as u8] {
                assert(content@[0] == '-' as u8 && content@[1] == '1' as u8);
            }
        }
        let count = match parse_len(content) {
            Some(c) => c,
            None => {
                return ParseOutcome::Invalid;
            },
        };
        let mut items: Vec<RespValue> = Vec::new();
        let mut p = rest;
        let mut k: usize = 0;
        while k < count
            invariant
                0 <= k <= count,
                n == input@.len(),
                pos < rest <= p <= n,
                parse_elems(input@, rest as int, count as int) == (match parse_elems(
                    input@,
                    p as int,
                    (count - k) as int,
                ) {
                    ElemsModel::Complete { vs, end } => ElemsModel::Complete {
                        vs: resp_models(items@) + vs,
                        end: end,
                    },
                    ElemsModel::Incomplete => ElemsModel::Incomplete,
                    ElemsModel::Invalid => ElemsModel::Invalid,
                }),
            decreases count - k,
        {
            let item = parse_frame_at(input, p);
            match item {
                ParseOutcome::Complete(v, end) => {
                    proof {
                        let s_ = input@;
                        let tail1 = parse_elems(s_, end as int, count - k - 1);
                        assert(parse_elems(s_, p as int, count - k) == (match tail1 {
                            ElemsModel::Complete { vs, end: e2 } => ElemsModel::Complete {
                                vs: seq![v@] + vs,
                                end: e2,
                            },
                            ElemsModel::Incomplete => ElemsModel::Incomplete,
                            ElemsModel::Invalid => ElemsModel::Invalid,
                        }));
                        assert(items@.push(v).drop_last() =~= items@);
                        assert(resp_models(items@.push(v)) =~= resp_models(items@).push(
                            resp_model(v),
                        ));
                        match tail1 {
                            ElemsModel::Complete { vs, end: e2 } => {
                                assert(resp_models(items@.push(v)) + vs =~= resp_models(items@)
                                    + (seq![resp_model(v)] + vs));
                            },
                            ElemsModel::Incomplete => {},
                            ElemsModel::Invalid => {},
                        }
                    }
                    items.push(v);
                    p = end;
                    k += 1;
                },
                ParseOutcome::Incomplete => {
                    return ParseOutcome::Incomplete;
                },
                ParseOutcome::Invalid => {
                    return ParseOutcome::Invalid;
                },
            }
        }
        proof {
            assert(parse_elems(input@, p as int, 0) == (ElemsModel::Complete {
                vs: Seq::<RespModel>::empty(),
                end: p as int,
            }));
            assert(resp_models(items@) + Seq::<RespModel>::empty() =~= resp_models(items@));
        }
        ParseOutcome::Complete(RespValue::Array(items), p)
    }
}

/// Parses the frame standing at the start of `input`.
pub fn parse_frame(input: &[u8]) -> (r: ParseOutcome)
    ensures
        match r {
            ParseOutcome::Complete(v, end) => parse_at(input@, 0) == (ParseModel::Complete {
                v: v@,
                end: end as int,
            }) && 0 < end <= input@.len(),
            ParseOutcome::Incomplete => parse_at(input@, 0) is Incomplete,
            ParseOutcome::Invalid => parse_at(input@, 0) is Invalid,
        },
{
    parse_frame_at(input, 0)
}

/// Parses `input` as one frame, succeeding exactly when a complete frame
/// stands at its start; bytes after the frame are ignored.
pub fn parse_resp(input: &[u8]) -> (r: Option<RespValue>)
    ensures
        match r {
            Some(v) => parse_at(input@, 0) matches ParseModel::Complete { v: m, .. } && m == v@,
            None => !(parse_at(input@, 0) is Complete),
        },
{
    match parse_frame(input) {
        ParseOutcome::Complete(v, _) => Some(v),
        ParseOutcome::Incomplete => None,
        ParseOutcome::Invalid => None,
    }
}


/// True when no CRLF pair stands inside `s`.
pub open spec fn crlf_free(s: Seq<u8>) -> bool {
    forall|j: int|
        0 <= j < s.len() - 1 ==> !((#[trigger] s[j]) == '\r' as u8 && s[j + 1] == '\n' as u8)
}

/// Where a CRLF pair stands at `i` and none before it, the search from
/// `pos` finds `i`.
pub proof fn lemma_find_crlf_first(s: Seq<u8>, pos: int, i: int)
    requires
        0 <= pos <= i,
        i + 2 <= s.len(),
        forall|j: int| pos <= j < i ==> !((#[trigger] s[j]) == '\r' as u8 && s[j + 1] == '\n' as u8),
        s[i] == '\r' as u8,
        s[i + 1] == '\n' as u8,
    ensures
        spec_find_crlf(s, pos) == Some(i),
    decreases i - pos,
{
    if pos < i {
        lemma_find_crlf_first(s, pos + 1, i);
    }
}

/// Every frame takes at least the tag and line ending.
pub proof fn lemma_ser_len(m: RespModel)
    ensures
        ser(m).len() >= 3,
{
}

/// True when the frame can be written and read back: line payloads hold
/// no CRLF pair, and lengths fit the machine word.
pub open spec fn wf_frame(m: RespModel) -> bool
    decreases m,
{
    match m {
        RespModel::Simple(s) => crlf_free(s),
        RespModel::Error(s) => crlf_free(s),
        RespModel::Bulk(s) => s.len() <= usize::MAX,
        RespModel::Int(_) => true,
        RespModel::Null => true,
        RespModel::NullArray => true,
        RespModel::Arr(elems) => elems.len() <= usize::MAX && wf_elems(elems),
    }
}

/// True when every frame of the run is fit to write and read back.
pub open spec fn wf_elems(elems: Seq<RespModel>) -> bool
    decreases elems,
{
    if elems.len() == 0 {
        true
    } else {
        wf_frame(elems[0]) && wf_elems(elems.drop_first())
    }
}

/// The frame as the parser hands it back: the error payload carries its
/// wire prefix; everything else returns unchanged.
pub open spec fn reparsed(m: RespModel) -> RespModel
    decreases m,
{
    match m {
        RespModel::Error(s) => RespModel::Error(err_payload(s)),
        RespModel::Arr(elems) => RespModel::Arr(reparsed_elems(elems)),
        _ => m,
    }
}

/// The frames of a run as the parser hands them back.
pub open spec fn reparsed_elems(elems: Seq<RespModel>) -> Seq<RespModel>
    decreases elems,
{
    if elems.len() == 0 {
        Seq::empty()
    } else {
        seq![reparsed(elems[0])] + reparsed_elems(elems.drop_first())
    }
}

/// An error payload keeps clear of CRLF when its text does: the wire
/// prefix holds neither byte of the pair.
pub proof fn lemma_err_payload_crlf_free(s: Seq<u8>)
    requires
        crlf_free(s),
    ensures
        crlf_free(err_payload(s)),
{
    reveal_strlit("ERR ");
    let q = err_payload(s);
    if s != wrongtype_msg() {
        assert(q == err_prefix() + s);
        assert(err_prefix().len() == 4);
        assert forall|j: int|
            0 <= j < q.len() - 1 implies !((#[trigger] q[j]) == '\r' as u8 && q[j + 1]
            == '\n' as u8) by {
            if j >= 4 {
                assert(q[j] == s[j - 4] && q[j + 1] == s[j - 4 + 1]);
            } else {
                assert(q[j] != '\r' as u8);
            }
        }
    }
}

/// Digit strings, with or without a sign, hold neither byte of the CRLF
/// pair.
pub proof fn lemma_number_crlf_free(d: Seq<u8>)
    requires
        forall|j: int|
            0 <= j < d.len() ==> (crate::num::is_digit(#[trigger] d[j]) || d[j] == '-' as u8),
    ensures
        crlf_free(d),
{
    assert forall|j: int|
        0 <= j < d.len() - 1 implies !((#[trigger] d[j]) == '\r' as u8 && d[j + 1]
        == '\n' as u8) by {
        assert(crate::num::is_digit(d[j]) || d[j] == '-' as u8);
    }
}

/// Where a frame's header line stands at `pos` — the tag, a payload
/// free of CRLF, then the pair — the search finds the pair right after
/// the payload, and the line reads back as the payload.
proof fn lemma_header_line(s: Seq<u8>, pos: int, content: Seq<u8>)
    requires
        0 <= pos,
        pos + 3 + content.len() <= s.len(),
        crlf_free(content),
        forall|t: int| 0 <= t < content.len() ==> s[pos + 1 + t] == #[trigger] content[t],
        s[pos + 1 + content.len()] == '\r' as u8,
        s[pos + 2 + content.len()] == '\n' as u8,
    ensures
        spec_find_crlf(s, pos + 1) == Some(pos + 1 + content.len() as int),
        s.subrange(pos + 1, pos + 1 + content.len() as int) == content,
{
    let i = pos + 1 + content.len() as int;
    assert forall|j: int|
        pos + 1 <= j < i implies !((#[trigger] s[j]) == '\r' as u8 && s[j + 1]
        == '\n' as u8) by {
        let t = j - pos - 1;
        assert(s[pos + 1 + t] == content[t]);
        if t < content.len() - 1 {
            assert(s[pos + 1 + (t + 1)] == content[t + 1]);
            assert(!(content[t] == '\r' as u8 && content[t + 1] == '\n' as u8));
        }
    }
    lemma_find_crlf_first(s, pos + 1, i);
    assert(s.subrange(pos + 1, i) =~= content);
}

/// What the serializer wrote at `pos`, the parser reads back there: one
/// complete frame, ending exactly where the written bytes end.
pub proof fn lemma_reparse(s: Seq<u8>, pos: int, m: RespModel)
    requires
        wf_frame(m),
        0 <= pos,
        pos + ser(m).len() <= s.len(),
        s.subrange(pos, pos + ser(m).len() as int) == ser(m),
    ensures
        parse_at(s, pos) == (ParseModel::Complete {
            v: reparsed(m),
            end: pos + ser(m).len() as int,
        }),
    decreases m,
{
    let w = ser(m);
    let len = w.len() as int;
    let ss = s.subrange(pos, pos + len);
    lemma_ser_len(m);
    assert(s[pos] == w[0]) by {
        assert(ss[0] == s[pos]);
    }
    match m {
        RespModel::Simple(p) => {
            line_case_setup(s, pos, w, p);
            lemma_header_line(s, pos, p);
        },
        RespModel::Error(p) => {
            let q = err_payload(p);
            lemma_err_payload_crlf_free(p);
            line_case_setup(s, pos, w, q);
            lemma_header_line(s, pos, q);
        },
        RespModel::Int(v) => {
            let d = crate::num::dec_int(v as int);
            crate::num::lemma_dec_int_value(v as int);
            assert forall|j: int|
                0 <= j < d.len() implies (crate::num::is_digit(#[trigger] d[j]) || d[j]
                == '-' as u8) by {
                if v < 0 {
                    if j > 0 {
                        crate::num::lemma_dec_digits_value((-(v as int)) as nat);
                        let mag = crate::num::dec_digits((-(v as int)) as nat);
                        assert(d[j] == mag[j - 1]);
                        assert(crate::num::is_digit(mag[j - 1]));
                    }
                } else {
                    crate::num::lemma_dec_digits_value(v as nat);
                    assert(d[j] == crate::num::dec_digits(v as nat)[j]);
                    assert(crate::num::is_digit(crate::num::dec_digits(v as nat)[j]));
                }
            }
            lemma_number_crlf_free(d);
            line_case_setup(s, pos, w, d);
            lemma_header_line(s, pos, d);
            assert((crate::num::signed_value(d) as i64) == v);
        },
        RespModel::Null => {
            let p = seq!['-' as u8, '1' as u8];
            assert(w =~= seq!['$' as u8] + p + crlf());
            line_case_setup(s, pos, seq!['$' as u8] + p + crlf(), p);
            lemma_header_line(s, pos, p);
        },
        RespModel::NullArray => {
            let p = seq!['-' as u8, '1' as u8];
            assert(w =~= seq!['*' as u8] + p + crlf());
            line_case_setup(s, pos, seq!['*' as u8] + p + crlf(), p);
            lemma_header_line(s, pos, p);
        },
        RespModel::Bulk(p) => {
            let d = crate::num::dec_digits(p.len());
            crate::num::lemma_dec_digits_value(p.len());
            lemma_number_crlf_free(d);
            assert forall|t: int| 0 <= t < d.len() implies s[pos + 1 + t] == #[trigger] d[t] by {
                assert(ss[1 + t] == s[pos + (1 + t)]);
                assert(w[1 + t] == d[t]);
            }
            let i = pos + 1 + d.len() as int;
            assert(s[i] == '\r' as u8 && s[i + 1] == '\n' as u8) by {
                assert(ss[1 + d.len() as int] == s[pos + 1 + d.len() as int]);
                assert(ss[2 + d.len() as int] == s[pos + 2 + d.len() as int]);
                assert(w[1 + d.len() as int] == '\r' as u8);
                assert(w[2 + d.len() as int] == '\n' as u8);
            }
            lemma_header_line(s, pos, d);
            let content = s.subrange(pos + 1, i);
            assert(crate::num::is_digit(d[0]));
            assert(!is_neg_one(content)) by {
                if content == seq!['-' as u8, '1' as u8] {
                    assert(content[0] == '-' as u8);
                }
            }
            assert(is_plain_len(content));
            let rest = i + 2;
            assert forall|t: int| 0 <= t < p.len() implies s[rest + t] == #[trigger] p[t] by {
                let off = 3 + d.len() as int;
                assert(ss[off + t] == s[pos + (off + t)]);
                assert(w[off + t] == p[t]);
            }
            assert(s[rest + p.len() as int] == '\r' as u8 && s[rest + p.len() as int + 1] == '\n' as u8) by {
                assert(ss[len - 2] == s[pos + (len - 2)]);
                assert(ss[len - 1] == s[pos + (len - 1)]);
                assert(w[len - 2] == '\r' as u8);
                assert(w[len - 1] == '\n' as u8);
            }
            assert(s.subrange(rest, rest + p.len() as int) =~= p);
        },
        RespModel::Arr(elems) => {
            let d = crate::num::dec_digits(elems.len());
            crate::num::lemma_dec_digits_value(elems.len());
            lemma_number_crlf_free(d);
            assert forall|t: int| 0 <= t < d.len() implies s[pos + 1 + t] == #[trigger] d[t] by {
                assert(ss[1 + t] == s[pos + (1 + t)]);
                assert(w[1 + t] == d[t]);
            }
            let i = pos + 1 + d.len() as int;
            assert(s[i] == '\r' as u8 && s[i + 1] == '\n' as u8) by {
                assert(ss[1 + d.len() as int] == s[pos + 1 + d.len() as int]);
                assert(ss[2 + d.len() as int] == s[pos + 2 + d.len() as int]);
                assert(w[1 + d.len() as int] == '\r' as u8);
                assert(w[2 + d.len() as int] == '\n' as u8);
            }
            lemma_header_line(s, pos, d);
            let content = s.subrange(pos + 1, i);
            assert(crate::num::is_digit(d[0]));
            assert(!is_neg_one(content)) by {
                if content == seq!['-' as u8, '1' as u8] {
                    assert(content[0] == '-' as u8);
                }
            }
            assert(is_plain_len(content));
            let rest = i + 2;
            assert(s.subrange(rest, rest + ser_elems(elems).len() as int) =~= ser_elems(elems))
                by {
                let off = 3 + d.len() as int;
                assert forall|t: int|
                    0 <= t < ser_elems(elems).len() implies s.subrange(
                    rest,
                    rest + ser_elems(elems).len() as int,
                )[t] == ser_elems(elems)[t] by {
                    assert(ss[off + t] == s[pos + (off + t)]);
                    assert(w[off + t] == ser_elems(elems)[t]);
                }
            }
            lemma_reparse_elems(s, rest, elems);
        },
    }
}

/// The bytes of a line frame written at `pos`, read off its form: the
/// payload byte by byte, then the CRLF pair.
proof fn line_case_setup(s: Seq<u8>, pos: int, w: Seq<u8>, p: Seq<u8>)
    requires
        0 <= pos,
        w.len() == 3 + p.len(),
        forall|t: int| 0 <= t < p.len() ==> w[1 + t] == #[trigger] p[t],
        w[1 + p.len() as int] == '\r' as u8,
        w[2 + p.len() as int] == '\n' as u8,
        pos + w.len() <= s.len(),
        s.subrange(pos, pos + w.len() as int) == w,
    ensures
        forall|t: int| 0 <= t < p.len() ==> s[pos + 1 + t] == #[trigger] p[t],
        s[pos + 1 + p.len() as int] == '\r' as u8,
        s[pos + 2 + p.len() as int] == '\n' as u8,
{
    let ss = s.subrange(pos, pos + w.len() as int);
    assert forall|t: int| 0 <= t < p.len() implies s[pos + 1 + t] == #[trigger] p[t] by {
        assert(ss[1 + t] == s[pos + (1 + t)]);
    }
    assert(ss[1 + p.len() as int] == s[pos + 1 + p.len() as int]);
    assert(ss[2 + p.len() as int] == s[pos + 2 + p.len() as int]);
}

/// What the serializer wrote as a run of frames, the parser reads back
/// as that run.
pub proof fn lemma_reparse_elems(s: Seq<u8>, pos: int, elems: Seq<RespModel>)
    requires
        wf_elems(elems),
        0 <= pos,
        pos + ser_elems(elems).len() <= s.len(),
        s.subrange(pos, pos + ser_elems(elems).len() as int) == ser_elems(elems),
    ensures
        parse_elems(s, pos, elems.len() as int) == (ElemsModel::Complete {
            vs: reparsed_elems(elems),
            end: pos + ser_elems(elems).len() as int,
        }),
    decreases elems,
{
    if elems.len() == 0 {
        assert(reparsed_elems(elems) =~= Seq::<RespModel>::empty());
    } else {
        let e0 = elems[0];
        let rest = elems.drop_first();
        let w0 = ser(e0);
        let wr = ser_elems(rest);
        assert(ser_elems(elems) == w0 + wr);
        let len = ser_elems(elems).len() as int;
        let ss = s.subrange(pos, pos + len);
        assert(s.subrange(pos, pos + w0.len() as int) =~= w0) by {
            assert forall|t: int|
                0 <= t < w0.len() implies s.subrange(pos, pos + w0.len() as int)[t] == w0[t] by {
                assert(ss[t] == s[pos + t]);
                assert(ss[t] == (w0 + wr)[t]);
            }
        }
        lemma_reparse(s, pos, e0);
        lemma_ser_len(e0);
        let end0 = pos + w0.len() as int;
        assert(s.subrange(end0, end0 + wr.len() as int) =~= wr) by {
            assert forall|t: int|
                0 <= t < wr.len() implies s.subrange(end0, end0 + wr.len() as int)[t] == wr[t] by {
                let off = w0.len() as int;
                assert(ss[off + t] == s[pos + (off + t)]);
                assert(ss[off + t] == (w0 + wr)[off + t]);
            }
        }
        lemma_reparse_elems(s, end0, rest);
        assert(seq![reparsed(e0)] + reparsed_elems(rest) == reparsed_elems(elems));
    }
}

/// The codec round trip: a well-formed frame serialized and then parsed,
/// with any bytes following it, reads back as the same frame (the error
/// payload carrying its wire prefix), consuming exactly its own bytes.
pub proof fn lemma_codec_round_trip(m: RespModel, rest: Seq<u8>)
    requires
        wf_frame(m),
    ensures
        parse_at(ser(m) + rest, 0) == (ParseModel::Complete {
            v: reparsed(m),
            end: ser(m).len() as int,
        }),
{
    let s = ser(m) + rest;
    assert(s.subrange(0, ser(m).len() as int) =~= ser(m));
    lemma_reparse(s, 0, m);
}

} // verus!
