//! An in-memory key-value store that speaks a length-prefixed,
//! CRLF-framed wire protocol.
//!
//! The crate holds the verified logic of the server: the frame codec
//! ([`resp`]), the command parser ([`command`]), and the keyspace with its
//! command executor ([`storage`]). Network I/O, threads and the lock that
//! guards the shared store live outside the library; the library works on
//! plain values and states what each operation returns and how it changes
//! the store.

pub mod ascii;
pub mod command;
pub mod laws;
pub mod num;
pub mod resp;
pub mod storage;
pub mod texts;
