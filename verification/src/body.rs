//! The streaming body decoder. A response body is delimited either by a
//! declared byte count (fixed mode) or by chunked transfer encoding; the
//! decoder is a state machine over the bytes a transport made available,
//! so it is a pure function of its state and those bytes.
//!
//! Chunked sub-format:
//!
//! ```text
//! <hex-size>[;extension...]\r\n
//! <size bytes of payload>\r\n
//! ...
//! 0\r\n
//! \r\n
//! ```

use vstd::prelude::*;

use crate::error::{SpecStompError, StompError};
use crate::util::{cr, hex_value, is_hex_digit, lemma_pow16_16, lf, parse_hex};

verus! {

/// The chunk-extension separator `;`.
pub open spec fn semicolon() -> u8 {
    59
}

/// Where body delivery stands.
#[derive(Clone, Copy, PartialEq, Eq, Structural, Debug)]
pub enum DecoderState {
    /// Chunked mode, before a chunk-size line.
    AwaitingChunkSize,
    /// Chunked mode, inside a chunk with this many payload bytes left.
    InChunk(u64),
    /// Fixed mode, with this many body bytes left.
    FixedRemaining(u64),
    /// Delivery is over; every further read reports the end.
    Eof,
}

/// What one read call produced.
#[derive(Debug, Clone, PartialEq, Eq)]
pub enum BodyRead {
    /// Bytes of the body, possibly none.
    Data(Vec<u8>),
    /// The body has been fully delivered. Not an error.
    EndOfStream,
}

/// Result of scanning one chunk-size line.
pub enum SpecSizeLine {
    /// The collected hexadecimal digits and the position after the line.
    Size { digits: Seq<u8>, end: int },
    Fail(SpecStompError),
}

/// Scan the chunk-size line that starts at `pos`: hexadecimal digits, an
/// optional `;extension` discarded verbatim, then CRLF (a bare LF is
/// tolerated). `digits` and `ext` carry the scan state.
pub open spec fn scan_size_line(input: Seq<u8>, pos: int, digits: Seq<u8>, ext: bool) -> SpecSizeLine
    decreases input.len() - pos,
{
    if pos < 0 || pos >= input.len() {
        SpecSizeLine::Fail(SpecStompError::TransportError)
    } else {
        let b = input[pos];
        if b == cr() {
            if pos + 1 >= input.len() {
                SpecSizeLine::Fail(SpecStompError::TransportError)
            } else if input[pos + 1] == lf() {
                if digits.len() == 0 {
                    SpecSizeLine::Fail(SpecStompError::InvalidChunkByte(digits, b))
                } else {
                    SpecSizeLine::Size { digits, end: pos + 2 }
                }
            } else {
                SpecSizeLine::Fail(SpecStompError::InvalidChunkByte(digits, input[pos + 1]))
            }
        } else if b == lf() {
            if digits.len() == 0 {
                SpecSizeLine::Fail(SpecStompError::InvalidChunkByte(digits, b))
            } else {
                SpecSizeLine::Size { digits, end: pos + 1 }
            }
        } else if ext {
            scan_size_line(input, pos + 1, digits, true)
        } else if is_hex_digit(b) {
            if digits.len() >= 16 {
                SpecSizeLine::Fail(SpecStompError::ChunkSizeLineTooLong(digits))
            } else {
                scan_size_line(input, pos + 1, digits.push(b), false)
            }
        } else if b == semicolon() {
            scan_size_line(input, pos + 1, digits, true)
        } else {
            SpecSizeLine::Fail(SpecStompError::InvalidChunkByte(digits, b))
        }
    }
}

/// A successful scan moves forward, stays inside the input, and yields at
/// most 16 digits, all hexadecimal.
pub proof fn lemma_scan_size_line_bounds(input: Seq<u8>, pos: int, digits: Seq<u8>, ext: bool)
    requires
        0 <= pos,
        digits.len() <= 16,
        forall|i: int| 0 <= i < digits.len() ==> is_hex_digit(digits[i]),
    ensures
        match scan_size_line(input, pos, digits, ext) {
            SpecSizeLine::Size { digits: d, end } => {
                &&& pos < end <= input.len()
                &&& 1 <= d.len() <= 16
                &&& forall|i: int| 0 <= i < d.len() ==> is_hex_digit(d[i])
            },
            SpecSizeLine::Fail(_) => true,
        },
    decreases input.len() - pos,
{
    if pos < input.len() {
        let b = input[pos];
        if b == cr() || b == lf() {
        } else if ext {
            lemma_scan_size_line_bounds(input, pos + 1, digits, true);
        } else if is_hex_digit(b) {
            if digits.len() < 16 {
                lemma_scan_size_line_bounds(input, pos + 1, digits.push(b), false);
            }
        } else if b == semicolon() {
            lemma_scan_size_line_bounds(input, pos + 1, digits, true);
        }
    }
}

/// What one read step does: deliver bytes and a successor state, report the
/// end of the body, or fail.
pub enum SpecStep {
    Out { state: DecoderState, bytes: Seq<u8>, end: int },
    End { end: int },
    Fail(SpecStompError),
}

/// One read of at most `req` bytes, starting from `state` at `pos`.
///
/// Fixed mode delivers `min(req, remaining)` bytes and counts them off;
/// a remainder of zero reports the end. Chunked mode parses a chunk-size
/// line when between chunks (a zero size consumes the final empty line and
/// reports the end), delivers `min(req, remaining)` bytes inside a chunk,
/// and consumes the two-byte chunk trailer when a chunk completes. Running
/// out of transport bytes mid-body is a transport error.
pub open spec fn spec_step(state: DecoderState, input: Seq<u8>, pos: int, req: int) -> SpecStep {
    match state {
        DecoderState::Eof => SpecStep::End { end: pos },
        DecoderState::FixedRemaining(rem) => if rem == 0 {
            SpecStep::End { end: pos }
        } else {
            let n = if req < rem { req } else { rem as int };
            if pos + n <= input.len() {
                SpecStep::Out {
                    state: DecoderState::FixedRemaining((rem - n) as u64),
                    bytes: input.subrange(pos, pos + n),
                    end: pos + n,
                }
            } else {
                SpecStep::Fail(SpecStompError::TransportError)
            }
        },
        DecoderState::InChunk(rem) => {
            let n = if req < rem { req } else { rem as int };
            if pos + n > input.len() {
                SpecStep::Fail(SpecStompError::TransportError)
            } else if n == rem {
                if pos + n + 2 <= input.len() {
                    SpecStep::Out {
                        state: DecoderState::AwaitingChunkSize,
                        bytes: input.subrange(pos, pos + n),
                        end: pos + n + 2,
                    }
                } else {
                    SpecStep::Fail(SpecStompError::TransportError)
                }
            } else {
                SpecStep::Out {
                    state: DecoderState::InChunk((rem - n) as u64),
                    bytes: input.subrange(pos, pos + n),
                    end: pos + n,
                }
            }
        },
        DecoderState::AwaitingChunkSize => match scan_size_line(input, pos, Seq::empty(), false) {
            SpecSizeLine::Fail(e) => SpecStep::Fail(e),
            SpecSizeLine::Size { digits, end } => {
                let v = hex_value(digits);
                if v == 0 {
                    if end + 2 <= input.len() {
                        SpecStep::End { end: end + 2 }
                    } else {
                        SpecStep::Fail(SpecStompError::TransportError)
                    }
                } else {
                    SpecStep::Out {
                        state: DecoderState::InChunk(v as u64),
                        bytes: Seq::empty(),
                        end,
                    }
                }
            },
        },
    }
}

/// A step never moves backwards and never leaves the input, provided the
/// request is positive.
pub proof fn lemma_spec_step_bounds(state: DecoderState, input: Seq<u8>, pos: int, req: int)
    requires
        0 <= pos <= input.len(),
        req >= 1,
    ensures
        match spec_step(state, input, pos, req) {
            SpecStep::Out { state: st2, bytes, end } => pos < end <= input.len() && !(st2
                is Eof),
            SpecStep::End { end } => pos <= end <= input.len(),
            SpecStep::Fail(_) => true,
        },
{
    match state {
        DecoderState::AwaitingChunkSize => {
            lemma_scan_size_line_bounds(input, pos, Seq::empty(), false);
        },
        _ => {},
    }
}

/// The streaming body decoder.
#[derive(Debug, Clone, PartialEq, Eq)]
pub struct BodyDecoder {
    pub state: DecoderState,
}

impl View for BodyDecoder {
    type V = DecoderState;

    open spec fn view(&self) -> DecoderState {
        self.state
    }
}

impl BodyDecoder {
    /// A decoder for a body of exactly `length` declared bytes.
    pub fn fixed(length: u64) -> (r: BodyDecoder)
        ensures
            r@ == DecoderState::FixedRemaining(length),
    {
        BodyDecoder { state: DecoderState::FixedRemaining(length) }
    }

    /// A decoder for a chunked-transfer-encoded body.
    pub fn chunked() -> (r: BodyDecoder)
        ensures
            r@ == DecoderState::AwaitingChunkSize,
    {
        BodyDecoder { state: DecoderState::AwaitingChunkSize }
    }

    /// Read up to `requested` body bytes out of `input`, which holds the
    /// transport's bytes, starting at `pos`. Returns the bytes delivered and
    /// the new position, `EndOfStream` once the body is complete, or the
    /// error that ends decoding. On an error the state is unchanged.
    pub fn read(&mut self, input: &[u8], pos: usize, requested: usize) -> (r: Result<
        (BodyRead, usize),
        StompError,
    >)
        requires
            pos <= input@.len(),
        ensures
            match spec_step(old(self)@, input@, pos as int, requested as int) {
                SpecStep::Out { state, bytes, end } => r matches Ok(v) && v.0 matches
                    BodyRead::Data(d) && d@ == bytes && v.1 == end && final(self)@ == state,
                SpecStep::End { end } => r matches Ok(v) && v.0 matches BodyRead::EndOfStream
                    && v.1 == end && final(self)@ == DecoderState::Eof,
                SpecStep::Fail(e) => r matches Err(err) && err@ == e && final(self)@ == old(
                    self,
                )@,
            },
    {
        match self.state {
            DecoderState::Eof => Ok((BodyRead::EndOfStream, pos)),
            DecoderState::FixedRemaining(rem) => {
                if rem == 0 {
                    self.state = DecoderState::Eof;
                    Ok((BodyRead::EndOfStream, pos))
                } else {
                    let n64: u64 = if (requested as u64) < rem {
                        requested as u64
                    } else {
                        rem
                    };
                    let n: usize = n64 as usize;
                    if n <= input.len() - pos {
                        let data = crate::util::copy_range(input, pos, pos + n);
                        self.state = DecoderState::FixedRemaining(rem - n64);
                        Ok((BodyRead::Data(data), pos + n))
                    } else {
                        Err(StompError::TransportError)
                    }
                }
            },
            DecoderState::InChunk(rem) => {
                let n64: u64 = if (requested as u64) < rem {
                    requested as u64
                } else {
                    rem
                };
                let n: usize = n64 as usize;
                if n > input.len() - pos {
                    Err(StompError::TransportError)
                } else if n64 == rem {
                    if input.len() - pos >= 2 && n <= input.len() - pos - 2 {
                        let data = crate::util::copy_range(input, pos, pos + n);
                        self.state = DecoderState::AwaitingChunkSize;
                        Ok((BodyRead::Data(data), pos + n + 2))
                    } else {
                        Err(StompError::TransportError)
                    }
                } else {
                    let data = crate::util::copy_range(input, pos, pos + n);
                    self.state = DecoderState::InChunk(rem - n64);
                    Ok((BodyRead::Data(data), pos + n))
                }
            },
            DecoderState::AwaitingChunkSize => {
                proof {
                    lemma_scan_size_line_bounds(input@, pos as int, Seq::empty(), false);
                }
                match read_next_chunk_size(input, pos) {
                    Err(e) => Err(e),
                    Ok((v, end)) => {
                        if v == 0 {
                            if input.len() - end >= 2 {
                                self.state = DecoderState::Eof;
                                Ok((BodyRead::EndOfStream, end + 2))
                            } else {
                                Err(StompError::TransportError)
                            }
                        } else {
                            self.state = DecoderState::InChunk(v);
                            let data: Vec<u8> = Vec::new();
                            Ok((BodyRead::Data(data), end))
                        }
                    },
                }
            },
        }
    }
}

/// What delivering a whole body yields: its bytes and the position after
/// the final framing, or the failure that cut delivery short.
pub enum SpecDrain {
    Done { bytes: Seq<u8>, end: int },
    Fail(SpecStompError),
}

/// Everything the decoder delivers from `state` at `pos` until it reports
/// the end of the body.
pub open spec fn spec_drain(state: DecoderState, input: Seq<u8>, pos: int) -> SpecDrain
    decreases input.len() - pos,
        when 0 <= pos
        via spec_drain_decreases
{
    match state {
        DecoderState::Eof => SpecDrain::Done { bytes: Seq::empty(), end: pos },
        DecoderState::FixedRemaining(rem) => if rem == 0 {
            SpecDrain::Done { bytes: Seq::empty(), end: pos }
        } else if pos + rem <= input.len() {
            SpecDrain::Done { bytes: input.subrange(pos, pos + rem), end: pos + rem }
        } else {
            SpecDrain::Fail(SpecStompError::TransportError)
        },
        DecoderState::InChunk(rem) => if pos + rem + 2 <= input.len() {
            match spec_drain(DecoderState::AwaitingChunkSize, input, pos + rem + 2) {
                SpecDrain::Done { bytes, end } => SpecDrain::Done {
                    bytes: input.subrange(pos, pos + rem) + bytes,
                    end,
                },
                SpecDrain::Fail(e) => SpecDrain::Fail(e),
            }
        } else {
            SpecDrain::Fail(SpecStompError::TransportError)
        },
        DecoderState::AwaitingChunkSize => match scan_size_line(input, pos, Seq::empty(), false) {
            SpecSizeLine::Fail(e) => SpecDrain::Fail(e),
            SpecSizeLine::Size { digits, end } => {
                let v = hex_value(digits);
                if v == 0 {
                    if end + 2 <= input.len() {
                        SpecDrain::Done { bytes: Seq::empty(), end: end + 2 }
                    } else {
                        SpecDrain::Fail(SpecStompError::TransportError)
                    }
                } else {
                    spec_drain(DecoderState::InChunk(v as u64), input, end)
                }
            },
        },
    }
}

#[via_fn]
proof fn spec_drain_decreases(state: DecoderState, input: Seq<u8>, pos: int) {
    match state {
        DecoderState::AwaitingChunkSize => {
            lemma_scan_size_line_bounds(input, pos, Seq::empty(), false);
        },
        _ => {},
    }
}

/// One step, then draining the rest, delivers exactly what draining from
/// the start delivers: the step's bytes followed by the rest, or the same
/// failure.
pub proof fn lemma_step_drain(state: DecoderState, input: Seq<u8>, pos: int, req: int)
    requires
        0 <= pos <= input.len(),
        req >= 1,
    ensures
        match spec_step(state, input, pos, req) {
            SpecStep::Out { state: st2, bytes, end } => match spec_drain(st2, input, end) {
                SpecDrain::Done { bytes: rest, end: e2 } => spec_drain(state, input, pos)
                    == (SpecDrain::Done { bytes: bytes + rest, end: e2 }),
                SpecDrain::Fail(e) => spec_drain(state, input, pos) == SpecDrain::Fail(e),
            },
            SpecStep::End { end } => spec_drain(state, input, pos) == (SpecDrain::Done {
                bytes: Seq::<u8>::empty(),
                end,
            }),
            SpecStep::Fail(e) => spec_drain(state, input, pos) == SpecDrain::Fail(e),
        },
{
    match state {
        DecoderState::Eof => {},
        DecoderState::FixedRemaining(rem) => {
            if rem != 0 {
                let n = if req < rem { req } else { rem as int };
                if pos + n <= input.len() {
                    let st2 = DecoderState::FixedRemaining((rem - n) as u64);
                    if rem - n == 0 {
                        assert(input.subrange(pos, pos + n) + Seq::<u8>::empty() =~= input.subrange(
                            pos,
                            pos + rem,
                        ));
                    } else {
                        if pos + rem <= input.len() {
                            assert(input.subrange(pos, pos + n) + input.subrange(
                                pos + n,
                                pos + rem,
                            ) =~= input.subrange(pos, pos + rem));
                        }
                    }
                }
            }
        },
        DecoderState::InChunk(rem) => {
            let n = if req < rem { req } else { rem as int };
            if pos + n <= input.len() {
                if n == rem {
                    if pos + n + 2 <= input.len() {
                        match spec_drain(DecoderState::AwaitingChunkSize, input, pos + rem + 2) {
                            SpecDrain::Done { bytes, end } => {},
                            SpecDrain::Fail(e) => {},
                        }
                    }
                } else {
                    if pos + rem + 2 <= input.len() {
                        match spec_drain(DecoderState::AwaitingChunkSize, input, pos + rem + 2) {
                            SpecDrain::Done { bytes, end } => {
                                assert(input.subrange(pos, pos + n) + (input.subrange(
                                    pos + n,
                                    pos + rem,
                                ) + bytes) =~= input.subrange(pos, pos + rem) + bytes);
                            },
                            SpecDrain::Fail(e) => {},
                        }
                    }
                }
            }
        },
        DecoderState::AwaitingChunkSize => {
            lemma_scan_size_line_bounds(input, pos, Seq::empty(), false);
            match scan_size_line(input, pos, Seq::empty(), false) {
                SpecSizeLine::Fail(e) => {},
                SpecSizeLine::Size { digits, end } => {
                    let v = hex_value(digits);
                    if v != 0 {
                        match spec_drain(DecoderState::InChunk(v as u64), input, end) {
                            SpecDrain::Done { bytes, end: e2 } => {
                                assert(Seq::<u8>::empty() + bytes =~= bytes);
                            },
                            SpecDrain::Fail(e) => {},
                        }
                    }
                },
            }
        },
    }
}

impl BodyDecoder {
    /// Deliver the whole remaining body out of `input`, reading until the
    /// decoder reports the end, and give the bytes together with the
    /// position after the final framing.
    pub fn read_to_end(&mut self, input: &[u8], pos: usize) -> (r: Result<
        (Vec<u8>, usize),
        StompError,
    >)
        requires
            pos <= input@.len(),
        ensures
            match spec_drain(old(self)@, input@, pos as int) {
                SpecDrain::Done { bytes, end } => r matches Ok(v) && v.0@ == bytes && v.1 == end
                    && final(self)@ == DecoderState::Eof,
                SpecDrain::Fail(e) => r matches Err(err) && err@ == e,
            },
    {
        let req: usize = if input.len() == 0 {
            1
        } else {
            input.len()
        };
        let mut out: Vec<u8> = Vec::new();
        let mut p: usize = pos;
        loop
            invariant
                p <= input@.len(),
                req >= 1,
                match spec_drain(self@, input@, p as int) {
                    SpecDrain::Done { bytes, end } => spec_drain(old(self)@, input@, pos as int)
                        == (SpecDrain::Done { bytes: out@ + bytes, end }),
                    SpecDrain::Fail(e) => spec_drain(old(self)@, input@, pos as int)
                        == SpecDrain::Fail(e),
                },
            decreases input@.len() - p + (if self@ is Eof {
                0int
            } else {
                1int
            }),
        {
            proof {
                lemma_spec_step_bounds(self@, input@, p as int, req as int);
                lemma_step_drain(self@, input@, p as int, req as int);
            }
            let step = self.read(input, p, req);
            match step {
                Err(e) => {
                    return Err(e);
                },
                Ok((BodyRead::EndOfStream, end)) => {
                    proof {
                        assert(out@ + Seq::<u8>::empty() =~= out@);
                    }
                    return Ok((out, end));
                },
                Ok((BodyRead::Data(d), end)) => {
                    let ghost out0 = out@;
                    crate::util::push_bytes(&mut out, d.as_slice());
                    proof {
                        match spec_drain(self@, input@, end as int) {
                            SpecDrain::Done { bytes: rest, end: e2 } => {
                                assert((out0 + d@) + rest =~= out0 + (d@ + rest));
                            },
                            SpecDrain::Fail(_) => {},
                        }
                    }
                    p = end;
                },
            }
        }
    }
}

/// Concatenation of a list of byte sequences.
pub open spec fn concat_bytes(ss: Seq<Seq<u8>>) -> Seq<u8>
    decreases ss.len(),
{
    if ss.len() == 0 {
        Seq::empty()
    } else {
        ss[0] + concat_bytes(ss.subrange(1, ss.len() as int))
    }
}

/// The chunked encoding of one payload: its length in hexadecimal, CRLF,
/// the payload, CRLF.
pub open spec fn chunk_block(p: Seq<u8>) -> Seq<u8> {
    crate::util::hex_repr(p.len()) + seq![cr(), lf()] + p + seq![cr(), lf()]
}

/// The blocks of a list of payloads, in order.
pub open spec fn chunk_blocks(chunks: Seq<Seq<u8>>) -> Seq<u8>
    decreases chunks.len(),
{
    if chunks.len() == 0 {
        Seq::empty()
    } else {
        chunk_block(chunks[0]) + chunk_blocks(chunks.subrange(1, chunks.len() as int))
    }
}

/// The terminal empty chunk: `0\r\n\r\n`.
pub open spec fn chunk_terminal() -> Seq<u8> {
    seq![48u8, cr(), lf(), cr(), lf()]
}

/// The full chunked encoding of a list of payloads.
pub open spec fn chunked_stream(chunks: Seq<Seq<u8>>) -> Seq<u8> {
    chunk_blocks(chunks) + chunk_terminal()
}

/// Adding a payload at the back appends its block.
pub proof fn lemma_chunk_blocks_snoc(chunks: Seq<Seq<u8>>, p: Seq<u8>)
    ensures
        chunk_blocks(chunks.push(p)) == chunk_blocks(chunks) + chunk_block(p),
    decreases chunks.len(),
{
    if chunks.len() == 0 {
        assert(chunks.push(p)[0] == p);
        let t = chunks.push(p).subrange(1, chunks.push(p).len() as int);
        assert(t =~= Seq::<Seq<u8>>::empty());
        assert(chunk_blocks(t) == Seq::<u8>::empty());
        assert(chunk_blocks(chunks.push(p)) =~= chunk_block(p));
        assert(chunk_blocks(chunks) + chunk_block(p) =~= chunk_block(p));
    } else {
        let t = chunks.subrange(1, chunks.len() as int);
        lemma_chunk_blocks_snoc(t, p);
        assert(chunks.push(p).subrange(1, chunks.push(p).len() as int) =~= t.push(p));
        assert(chunk_blocks(chunks.push(p)) == chunk_block(chunks[0]) + chunk_blocks(t.push(p)));
        assert(chunk_block(chunks[0]) + (chunk_blocks(t) + chunk_block(p)) =~= (chunk_block(
            chunks[0],
        ) + chunk_blocks(t)) + chunk_block(p));
    }
}

/// Encode the payloads as a chunked-transfer stream, ending with the
/// terminal empty chunk.
pub fn encode_chunked(chunks: &Vec<Vec<u8>>) -> (r: Vec<u8>)
    ensures
        r@ == chunked_stream(chunks.deep_view()),
{
    let ghost cs = chunks.deep_view();
    let mut out: Vec<u8> = Vec::new();
    let mut i: usize = 0;
    proof {
        assert(cs.subrange(0, 0) =~= Seq::<Seq<u8>>::empty());
    }
    while i < chunks.len()
        invariant
            0 <= i <= chunks@.len(),
            cs == chunks.deep_view(),
            cs.len() == chunks@.len(),
            out@ == chunk_blocks(cs.subrange(0, i as int)),
        decreases chunks@.len() - i,
    {
        let c = &chunks[i];
        proof {
            assert(cs[i as int] =~= c@);
        }
        crate::util::push_hex_repr(&mut out, c.len() as u64);
        out.push(13);
        out.push(10);
        crate::util::push_bytes(&mut out, c.as_slice());
        out.push(13);
        out.push(10);
        proof {
            lemma_chunk_blocks_snoc(cs.subrange(0, i as int), cs[i as int]);
            assert(cs.subrange(0, i as int).push(cs[i as int]) =~= cs.subrange(0, i + 1));
            assert(out@ =~= chunk_blocks(cs.subrange(0, i + 1)));
        }
        i += 1;
    }
    out.push(48);
    out.push(13);
    out.push(10);
    out.push(13);
    out.push(10);
    proof {
        assert(cs.subrange(0, cs.len() as int) =~= cs);
        assert(out@ =~= chunked_stream(cs));
    }
    out
}

/// Scanning a line that is `ds` hexadecimal digits followed by CRLF
/// collects exactly those digits.
proof fn lemma_scan_digit_line(input: Seq<u8>, pos: int, acc: Seq<u8>, ds: Seq<u8>)
    requires
        0 <= pos,
        pos + ds.len() + 2 <= input.len(),
        forall|i: int| 0 <= i < ds.len() ==> is_hex_digit(ds[i]),
        forall|i: int| 0 <= i < ds.len() ==> input[pos + i] == ds[i],
        input[pos + ds.len()] == cr(),
        input[pos + ds.len() + 1] == lf(),
        acc.len() + ds.len() <= 16,
        acc.len() + ds.len() >= 1,
    ensures
        scan_size_line(input, pos, acc, false) == (SpecSizeLine::Size {
            digits: acc + ds,
            end: pos + ds.len() + 2,
        }),
    decreases ds.len(),
{
    if ds.len() == 0 {
        assert(input[pos] == cr());
        assert(acc + ds =~= acc);
    } else {
        let b = input[pos];
        assert(b == ds[0]);
        assert(is_hex_digit(b));
        let ds2 = ds.subrange(1, ds.len() as int);
        assert forall|i: int| 0 <= i < ds2.len() implies input[pos + 1 + i] == ds2[i] by {
            assert(ds2[i] == ds[i + 1]);
        }
        lemma_scan_digit_line(input, pos + 1, acc.push(b), ds2);
        assert(acc.push(b) + ds2 =~= acc + ds);
    }
}

/// Chunk reconstruction, generalized over the position of the encoded
/// stream inside the input.
proof fn lemma_drain_chunked_stream(chunks: Seq<Seq<u8>>, input: Seq<u8>, pos: int)
    requires
        0 <= pos <= input.len(),
        input.subrange(pos, input.len() as int) == chunked_stream(chunks),
        forall|i: int|
            0 <= i < chunks.len() ==> 1 <= #[trigger] chunks[i].len() < 0x1_0000_0000_0000_0000,
    ensures
        spec_drain(DecoderState::AwaitingChunkSize, input, pos) == (SpecDrain::Done {
            bytes: concat_bytes(chunks),
            end: input.len() as int,
        }),
    decreases chunks.len(),
{
    let suffix = input.subrange(pos, input.len() as int);
    if chunks.len() == 0 {
        assert(chunk_blocks(chunks) == Seq::<u8>::empty());
        assert(suffix =~= chunk_terminal());
        assert(input.len() - pos == 5);
        let ds = seq![48u8];
        assert(input[pos] == suffix[0]);
        assert(input[pos] == 48);
        assert(input[pos + 1] == cr());
        assert(input[pos + 2] == lf());
        lemma_scan_digit_line(input, pos, Seq::empty(), ds);
        assert(Seq::<u8>::empty() + ds =~= ds);
        assert(hex_value(ds.drop_last()) == 0) by {
            assert(ds.drop_last() =~= Seq::<u8>::empty());
        }
        assert(hex_value(ds) == 0);
        assert(spec_drain(DecoderState::AwaitingChunkSize, input, pos) == (SpecDrain::Done {
            bytes: Seq::<u8>::empty(),
            end: pos + 5,
        }));
        assert(concat_bytes(chunks) == Seq::<u8>::empty());
    } else {
        let c0 = chunks[0];
        let rest = chunks.subrange(1, chunks.len() as int);
        let n = c0.len();
        let ds = crate::util::hex_repr(n);
        crate::util::lemma_hex_repr(n);
        lemma_pow16_16();
        crate::util::lemma_hex_repr_len(n, 16);
        let block = chunk_block(c0);
        assert(suffix == block + chunked_stream(rest)) by {
            assert(chunk_blocks(chunks) == chunk_block(c0) + chunk_blocks(rest));
            assert((chunk_block(c0) + chunk_blocks(rest)) + chunk_terminal() =~= chunk_block(c0) + (
            chunk_blocks(rest) + chunk_terminal()));
        }
        assert(block.len() == ds.len() + 2 + n + 2);
        assert forall|i: int| 0 <= i < ds.len() implies input[pos + i] == ds[i] by {
            assert(suffix[i] == block[i]);
        }
        assert(input[pos + ds.len()] == cr()) by {
            assert(suffix[ds.len() as int] == block[ds.len() as int]);
        }
        assert(input[pos + ds.len() + 1] == lf()) by {
            assert(suffix[(ds.len() + 1) as int] == block[(ds.len() + 1) as int]);
        }
        lemma_scan_digit_line(input, pos, Seq::empty(), ds);
        assert(Seq::<u8>::empty() + ds =~= ds);
        let p1 = pos + ds.len() + 2;
        let v = hex_value(ds);
        assert(v == n);
        assert(v as u64 == n);
        assert(p1 + n + 2 <= input.len());
        assert(input.subrange(p1, p1 + n) =~= c0) by {
            assert forall|i: int| 0 <= i < n implies input[p1 + i] == c0[i] by {
                assert(suffix[ds.len() + 2 + i] == block[ds.len() + 2 + i]);
                assert(block[ds.len() + 2 + i] == c0[i]);
            }
        }
        let p2 = p1 + n + 2;
        assert(input.subrange(p2, input.len() as int) =~= chunked_stream(rest)) by {
            assert forall|i: int| 0 <= i < input.len() - p2 implies input[p2 + i] == chunked_stream(
                rest,
            )[i] by {
                assert(input[p2 + i] == suffix[(p2 - pos) + i]);
                assert(suffix[(p2 - pos) + i] == chunked_stream(rest)[i]);
            }
        }
        lemma_drain_chunked_stream(rest, input, p2);
        assert(concat_bytes(chunks) == c0 + concat_bytes(rest));
        assert(spec_drain(DecoderState::InChunk(n as u64), input, p1) == (SpecDrain::Done {
            bytes: c0 + concat_bytes(rest),
            end: input.len() as int,
        }));
    }
}

/// Chunk reconstruction: decoding the chunked encoding of any list of
/// non-empty payloads delivers exactly their concatenation and consumes the
/// whole stream. (A payload of length zero would read as the terminal
/// chunk, so empty payloads are excluded.)
pub proof fn lemma_chunk_reconstruction(chunks: Seq<Seq<u8>>)
    requires
        forall|i: int|
            0 <= i < chunks.len() ==> 1 <= #[trigger] chunks[i].len() < 0x1_0000_0000_0000_0000,
    ensures
        spec_drain(DecoderState::AwaitingChunkSize, chunked_stream(chunks), 0) == (SpecDrain::Done {
            bytes: concat_bytes(chunks),
            end: chunked_stream(chunks).len() as int,
        }),
{
    let input = chunked_stream(chunks);
    assert(input.subrange(0, input.len() as int) =~= input);
    lemma_drain_chunked_stream(chunks, input, 0);
}

/// Read one chunk-size line beginning at `pos` and give its value and the
/// position just past the line terminator.
pub fn read_next_chunk_size(input: &[u8], pos: usize) -> (r: Result<(u64, usize), StompError>)
    requires
        pos <= input@.len(),
    ensures
        match scan_size_line(input@, pos as int, Seq::empty(), false) {
            SpecSizeLine::Size { digits, end } => r matches Ok(v) && v.0 == hex_value(digits)
                && v.1 == end,
            SpecSizeLine::Fail(e) => r matches Err(err) && err@ == e,
        },
{
    proof {
        lemma_scan_size_line_bounds(input@, pos as int, Seq::empty(), false);
    }
    let mut digits: Vec<u8> = Vec::new();
    let mut ext: bool = false;
    let mut i: usize = pos;
    loop
        invariant
            pos <= i <= input@.len(),
            digits@.len() <= 16,
            forall|k: int| 0 <= k < digits@.len() ==> is_hex_digit(digits@[k]),
            scan_size_line(input@, pos as int, Seq::empty(), false) == scan_size_line(
                input@,
                i as int,
                digits@,
                ext,
            ),
        decreases input@.len() - i,
    {
        if i >= input.len() {
            return Err(StompError::TransportError);
        }
        let b = input[i];
        if b == 13 {
            if i + 1 >= input.len() {
                return Err(StompError::TransportError);
            } else if input[i + 1] == 10 {
                if digits.len() == 0 {
                    return Err(StompError::InvalidChunkByte(digits, b));
                } else {
                    let v = parse_hex(&digits);
                    return Ok((v, i + 2));
                }
            } else {
                return Err(StompError::InvalidChunkByte(digits, input[i + 1]));
            }
        } else if b == 10 {
            if digits.len() == 0 {
                return Err(StompError::InvalidChunkByte(digits, b));
            } else {
                let v = parse_hex(&digits);
                return Ok((v, i + 1));
            }
        } else if ext {
            i += 1;
        } else if (48 <= b && b <= 57) || (97 <= b && b <= 102) || (65 <= b && b <= 70) {
            if digits.len() >= 16 {
                return Err(StompError::ChunkSizeLineTooLong(digits));
            } else {
                digits.push(b);
                i += 1;
            }
        } else if b == 59 {
            ext = true;
            i += 1;
        } else {
            return Err(StompError::InvalidChunkByte(digits, b));
        }
    }
}

} // verus!
