//! Client side of a text-based messaging protocol over one persistent byte
//! stream: frames are encoded as a command line, header lines and a
//! NUL-terminated body, and a reply stream is decoded into structured
//! frames, with a body-delivery layer that also understands fixed-length
//! and chunked-transfer-encoded bodies.
//!
//! The crate is transport-agnostic: every function works on plain byte
//! buffers, and the caller owns the connection that fills them.

use vstd::prelude::*;

pub mod body;
pub mod client;
pub mod command;
pub mod error;
pub mod headers;
pub mod request;
pub mod response;
pub mod util;

verus! {

} // verus!
