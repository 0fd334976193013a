//! Decimal numbers as byte strings.
//!
//! The wire protocol writes every number in decimal ASCII: integer replies,
//! bulk lengths and array lengths. Commands carry decimal arguments (indices,
//! counts, milliseconds). This module gives the decimal notation an exact
//! specification and provides verified parsing and formatting.

use vstd::prelude::*;

verus! {

/// True when `b` is an ASCII decimal digit.
pub open spec fn is_digit(b: u8) -> bool {
    '0' as u8 <= b <= '9' as u8
}

/// The numeric value of a digit byte.
pub open spec fn digit_val(b: u8) -> nat {
    (b - '0' as u8) as nat
}

/// True when `s` consists of decimal digits only.
pub open spec fn all_digits(s: Seq<u8>) -> bool {
    forall|i: int| 0 <= i < s.len() ==> is_digit(#[trigger] s[i])
}

/// The value of a digit string, most significant digit first.
pub open spec fn dec_value(s: Seq<u8>) -> nat
    decreases s.len(),
{
    if s.len() == 0 {
        0
    } else {
        dec_value(s.drop_last()) * 10 + digit_val(s.last())
    }
}

/// The canonical decimal digits of `n`, without sign or leading zeros.
pub open spec fn dec_digits(n: nat) -> Seq<u8>
    decreases n,
{
    if n < 10 {
        seq![('0' as u8 + n) as u8]
    } else {
        dec_digits(n / 10) + seq![('0' as u8 + n % 10) as u8]
    }
}

/// The canonical decimal notation of a signed number: a `-` sign for
/// negative values, then the digits of the magnitude.
pub open spec fn dec_int(i: int) -> Seq<u8> {
    if i < 0 {
        seq!['-' as u8] + dec_digits((-i) as nat)
    } else {
        dec_digits(i as nat)
    }
}

/// A digit string keeps or grows its value as digits are appended:
/// the value of any prefix is at most the value of the whole.
pub proof fn lemma_dec_value_prefix(s: Seq<u8>, n: int)
    requires
        0 <= n <= s.len(),
    ensures
        dec_value(s.take(n)) <= dec_value(s),
    decreases s.len(),
{
    if n < s.len() {
        assert(s.take(n) =~= s.drop_last().take(n));
        lemma_dec_value_prefix(s.drop_last(), n);
    } else {
        assert(s.take(n) =~= s);
    }
}

/// The body of an unsigned decimal string: an optional leading `+` sign
/// is skipped.
pub open spec fn unsigned_body(s: Seq<u8>) -> Seq<u8> {
    if s.len() > 0 && s[0] == '+' as u8 {
        s.drop_first()
    } else {
        s
    }
}

/// True when `s` is a well-formed unsigned decimal string whose value
/// fits in a `u64`: an optional `+`, then one or more digits.
pub open spec fn parses_as_u64(s: Seq<u8>) -> bool {
    let b = unsigned_body(s);
    b.len() > 0 && all_digits(b) && dec_value(b) <= u64::MAX
}

/// Parses an unsigned decimal byte string into a `u64`, accepting an
/// optional leading `+` and rejecting anything else, exactly as stated
/// by [`parses_as_u64`].
pub fn parse_u64(s: &[u8]) -> (r: Option<u64>)
    ensures
        r is Some ==> parses_as_u64(s@) && r->Some_0 == dec_value(unsigned_body(s@)),
        r is None ==> !parses_as_u64(s@),
{
    let n = s.len();
    let start: usize = if n > 0 && s[0] == '+' as u8 {
        1
    } else {
        0
    };
    let ghost body = unsigned_body(s@);
    proof {
        assert(body =~= s@.subrange(start as int, n as int));
    }
    if start >= n {
        return None;
    }
    let mut acc: u64 = 0;
    let mut i: usize = start;
    while i < n
        invariant
            start <= i <= n,
            n == s@.len(),
            body == s@.subrange(start as int, n as int),
            body == unsigned_body(s@),
            all_digits(body.take(i - start)),
            acc == dec_value(body.take(i - start)),
        decreases n - i,
    {
        let c = s[i];
        if c < '0' as u8 || c > '9' as u8 {
            assert(!is_digit(body[i - start]));
            return None;
        }
        let d = c - '0' as u8;
        if acc > (u64::MAX - d as u64) / 10 {
            proof {
                assert(body.take(i - start + 1).drop_last() =~= body.take(i - start));
                assert(dec_value(body.take(i - start + 1)) > u64::MAX);
                lemma_dec_value_prefix(body, i - start + 1);
            }
            return None;
        }
        proof {
            assert(body.take(i - start + 1).drop_last() =~= body.take(i - start));
        }
        acc = acc * 10 + d as u64;
        i += 1;
    }
    proof {
        assert(body.take(n - start) =~= body);
    }
    Some(acc)
}

/// True when `s` is a well-formed signed decimal string whose value fits
/// in an `i64`: an optional `+` or `-`, then one or more digits.
pub open spec fn parses_as_i64(s: Seq<u8>) -> bool {
    let b = signed_body(s);
    b.len() > 0 && all_digits(b) && i64::MIN <= signed_value(s) <= i64::MAX
}

/// The digits of a signed decimal string, the sign skipped.
pub open spec fn signed_body(s: Seq<u8>) -> Seq<u8> {
    if s.len() > 0 && (s[0] == '+' as u8 || s[0] == '-' as u8) {
        s.drop_first()
    } else {
        s
    }
}

/// The value of a signed decimal string.
pub open spec fn signed_value(s: Seq<u8>) -> int {
    if s.len() > 0 && s[0] == '-' as u8 {
        -(dec_value(signed_body(s)) as int)
    } else {
        dec_value(signed_body(s)) as int
    }
}

/// Parses a signed decimal byte string into an `i64`, accepting an
/// optional leading sign, exactly as stated by [`parses_as_i64`].
pub fn parse_i64(s: &[u8]) -> (r: Option<i64>)
    ensures
        r is Some ==> parses_as_i64(s@) && r->Some_0 == signed_value(s@),
        r is None ==> !parses_as_i64(s@),
{
    let n = s.len();
    let negative = n > 0 && s[0] == '-' as u8;
    let start: usize = if n > 0 && (s[0] == '+' as u8 || s[0] == '-' as u8) {
        1
    } else {
        0
    };
    let ghost body = signed_body(s@);
    proof {
        assert(body =~= s@.subrange(start as int, n as int));
    }
    if start >= n {
        return None;
    }
    // The magnitude bound differs by sign: -(2^63) is representable,
    // 2^63 is not.
    let limit: u64 = if negative {
        9223372036854775808u64
    } else {
        9223372036854775807u64
    };
    let mut acc: u64 = 0;
    let mut i: usize = start;
    while i < n
        invariant
            start <= i <= n,
            n == s@.len(),
            body == s@.subrange(start as int, n as int),
            body == signed_body(s@),
            negative == (n > 0 && s@[0] == '-' as u8),
            limit == if negative {
                9223372036854775808u64
            } else {
                9223372036854775807u64
            },
            all_digits(body.take(i - start)),
            acc == dec_value(body.take(i - start)),
            acc <= limit,
        decreases n - i,
    {
        let c = s[i];
        if c < '0' as u8 || c > '9' as u8 {
            assert(!is_digit(body[i - start]));
            return None;
        }
        let d = c - '0' as u8;
        if acc > (limit - d as u64) / 10 {
            proof {
                assert(body.take(i - start + 1).drop_last() =~= body.take(i - start));
                assert(dec_value(body.take(i - start + 1)) > limit);
                lemma_dec_value_prefix(body, i - start + 1);
            }
            return None;
        }
        proof {
            assert(body.take(i - start + 1).drop_last() =~= body.take(i - start));
        }
        acc = acc * 10 + d as u64;
        i += 1;
    }
    proof {
        assert(body.take(n - start) =~= body);
    }
    if negative {
        if acc == 9223372036854775808u64 {
            Some(i64::MIN)
        } else {
            Some(-(acc as i64))
        }
    } else {
        Some(acc as i64)
    }
}

/// Appends the decimal digits of `n` to `out`.
pub fn fmt_u64_into(n: u64, out: &mut Vec<u8>)
    ensures
        final(out)@ == old(out)@ + dec_digits(n as nat),
    decreases n,
{
    if n < 10 {
        out.push('0' as u8 + n as u8);
        assert(out@ =~= old(out)@ + dec_digits(n as nat));
    } else {
        fmt_u64_into(n / 10, out);
        out.push('0' as u8 + (n % 10) as u8);
        assert(out@ =~= old(out)@ + dec_digits(n as nat));
    }
}

/// Appends the decimal notation of `i` to `out`, sign included.
pub fn fmt_i64_into(i: i64, out: &mut Vec<u8>)
    ensures
        final(out)@ == old(out)@ + dec_int(i as int),
{
    if i >= 0 {
        fmt_u64_into(i as u64, out);
    } else {
        out.push('-' as u8);
        let mag: u64 = ((-(i as i128)) as u64);
        fmt_u64_into(mag, out);
        assert(out@ =~= old(out)@ + dec_int(i as int));
    }
}


/// The canonical digits of `n` are digits, at least one, and read back
/// as `n`.
pub proof fn lemma_dec_digits_value(n: nat)
    ensures
        all_digits(dec_digits(n)),
        dec_digits(n).len() > 0,
        dec_value(dec_digits(n)) == n,
    decreases n,
{
    if n < 10 {
        let d = dec_digits(n);
        assert(d.len() == 1);
        assert(is_digit(d[0]));
        assert(d.drop_last() =~= Seq::<u8>::empty());
        assert(dec_value(Seq::<u8>::empty()) == 0);
        assert(dec_value(d) == digit_val(d[0]));
    } else {
        lemma_dec_digits_value(n / 10);
        let head = dec_digits(n / 10);
        let d = dec_digits(n);
        assert(d == head + seq![('0' as u8 + n % 10) as u8]);
        assert(d.drop_last() =~= head);
        assert(d.last() == ('0' as u8 + n % 10) as u8);
        assert(dec_value(d) == dec_value(head) * 10 + digit_val(d.last()));
        assert(dec_value(d) == n);
        assert forall|i: int| 0 <= i < d.len() implies is_digit(#[trigger] d[i]) by {
            if i < head.len() {
                assert(d[i] == head[i]);
            }
        }
    }
}

/// The canonical notation of a signed number reads back as that number.
pub proof fn lemma_dec_int_value(i: int)
    requires
        i64::MIN <= i <= i64::MAX,
    ensures
        parses_as_i64(dec_int(i)),
        signed_value(dec_int(i)) == i,
{
    if i < 0 {
        let mag = (-i) as nat;
        lemma_dec_digits_value(mag);
        let d = dec_int(i);
        assert(d == seq!['-' as u8] + dec_digits(mag));
        assert(d[0] == '-' as u8);
        assert(signed_body(d) =~= dec_digits(mag));
    } else {
        lemma_dec_digits_value(i as nat);
        let d = dec_int(i);
        assert(d == dec_digits(i as nat));
        assert(is_digit(d[0]));
        assert(d[0] != '+' as u8 && d[0] != '-' as u8);
        assert(signed_body(d) == d);
    }
}

} // verus!
