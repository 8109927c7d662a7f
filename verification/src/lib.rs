//! A minimal networked key-value store core: an incremental frame codec for a
//! compact binary wire format, a command interpreter for GET/SET requests, a
//! concurrent in-memory store, the per-connection command loop, and the
//! decision logic of a client-side request multiplexor.
//!
//! Transport I/O (sockets, buffering, task spawning) lives outside this
//! library; the library works on plain byte buffers and values and states its
//! behaviour in contracts.

pub mod command;
pub mod conn;
pub mod decode;
pub mod digits;
pub mod frame;
pub mod handler;
pub mod mux;
pub mod store;

use vstd::prelude::*;

verus! {

/// The two-byte delimiter that terminates textual fields on the wire.
pub open spec fn crlf() -> Seq<u8> {
    seq![13u8, 10u8]
}

} // verus!
