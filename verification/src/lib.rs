//! A single-threaded, non-blocking TCP message server core: a length-prefixed
//! binary framing codec, a per-connection partial-read state machine that
//! survives short reads, and the reactor bookkeeping that owns all live
//! connections and drives them with single-shot readiness interests.
//!
//! All socket I/O lives outside this crate; the library works on plain byte
//! chunks and connection tokens, so every state transition here is verified.

pub mod conn;
pub mod msg;
pub mod server;
