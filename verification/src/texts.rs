//! The fixed ASCII texts of the protocol: reply words, the type-mismatch
//! message, and the texts of command errors.

use vstd::prelude::*;

verus! {

use crate::ascii::lit_bytes;
use crate::ascii::str_bytes;

/// The fixed message returned when an operation targets a key holding a
/// value of an incompatible kind.
pub open spec fn wrongtype_msg() -> Seq<u8> {
    lit_bytes("WRONGTYPE Operation against a key holding the wrong kind of value"@)
}

/// The owned bytes of [`wrongtype_msg`].
pub fn wrongtype_bytes() -> (r: Vec<u8>)
    ensures
        r@ == wrongtype_msg(),
{
    proof {
        reveal_strlit("WRONGTYPE Operation against a key holding the wrong kind of value");
    }
    str_bytes("WRONGTYPE Operation against a key holding the wrong kind of value")
}

/// The error prefix written on the wire before every error payload other
/// than the fixed type-mismatch message.
pub open spec fn err_prefix() -> Seq<u8> {
    lit_bytes("ERR "@)
}

/// The owned bytes of [`err_prefix`].
pub fn err_prefix_bytes() -> (r: Vec<u8>)
    ensures
        r@ == err_prefix(),
{
    proof {
        reveal_strlit("ERR ");
    }
    str_bytes("ERR ")
}

/// The owned bytes of "PONG".
pub fn pong_bytes() -> (r: Vec<u8>)
    ensures
        r@ == lit_bytes("PONG"@),
{
    proof {
        reveal_strlit("PONG");
    }
    str_bytes("PONG")
}

/// The owned bytes of "OK".
pub fn ok_bytes() -> (r: Vec<u8>)
    ensures
        r@ == lit_bytes("OK"@),
{
    proof {
        reveal_strlit("OK");
    }
    str_bytes("OK")
}

/// The owned bytes of "none".
pub fn none_bytes() -> (r: Vec<u8>)
    ensures
        r@ == lit_bytes("none"@),
{
    proof {
        reveal_strlit("none");
    }
    str_bytes("none")
}

/// The owned bytes of "string".
pub fn string_bytes() -> (r: Vec<u8>)
    ensures
        r@ == lit_bytes("string"@),
{
    proof {
        reveal_strlit("string");
    }
    str_bytes("string")
}

/// The owned bytes of "list".
pub fn list_bytes() -> (r: Vec<u8>)
    ensures
        r@ == lit_bytes("list"@),
{
    proof {
        reveal_strlit("list");
    }
    str_bytes("list")
}

} // verus!
