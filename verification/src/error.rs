//! The error kinds of the library, and their mathematical mirror.
//!
//! Every parsing failure aborts the current decode or read call and is
//! returned to the immediate caller; there is no local recovery and no
//! partial result. `EndOfStream` is not an error and therefore lives in
//! `BodyRead`, not here.

use vstd::prelude::*;

verus! {

/// What went wrong while decoding a frame or delivering a body.
#[derive(Debug, Clone, PartialEq, Eq)]
pub enum StompError {
    /// The first line of a frame was none of the recognized server commands;
    /// carries the offending token.
    UnknownCommand(Vec<u8>),
    /// A header line was neither empty nor made of exactly one separator;
    /// carries the line.
    MalformedHeaderLine(Vec<u8>),
    /// An ERROR frame was received.
    ServerFrameError,
    /// A header lookup found no value; carries the key.
    HeaderNotFound(Vec<u8>),
    /// A chunk-size line held more than 16 hexadecimal digits; carries the
    /// digits collected so far.
    ChunkSizeLineTooLong(Vec<u8>),
    /// A chunk-size line held a byte that is not a digit, an extension, or a
    /// terminator; carries the digits collected so far and the byte.
    InvalidChunkByte(Vec<u8>, u8),
    /// The transport ran out of bytes where the protocol required more.
    TransportError,
}

/// Mirror of `StompError` over `Seq<u8>`, used by the specification
/// functions, which cannot build vectors.
pub enum SpecStompError {
    UnknownCommand(Seq<u8>),
    MalformedHeaderLine(Seq<u8>),
    ServerFrameError,
    HeaderNotFound(Seq<u8>),
    ChunkSizeLineTooLong(Seq<u8>),
    InvalidChunkByte(Seq<u8>, u8),
    TransportError,
}

impl View for StompError {
    type V = SpecStompError;

    open spec fn view(&self) -> SpecStompError {
        match self {
            StompError::UnknownCommand(t) => SpecStompError::UnknownCommand(t@),
            StompError::MalformedHeaderLine(l) => SpecStompError::MalformedHeaderLine(l@),
            StompError::ServerFrameError => SpecStompError::ServerFrameError,
            StompError::HeaderNotFound(k) => SpecStompError::HeaderNotFound(k@),
            StompError::ChunkSizeLineTooLong(l) => SpecStompError::ChunkSizeLineTooLong(l@),
            StompError::InvalidChunkByte(l, b) => SpecStompError::InvalidChunkByte(l@, *b),
            StompError::TransportError => SpecStompError::TransportError,
        }
    }
}

} // verus!
