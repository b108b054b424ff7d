//! Incoming frames. `decode` reads one server frame out of the bytes a
//! transport made available: a command line matched against the closed
//! server command set, header lines up to a blank line, then the body,
//! delimited as the headers direct — chunked transfer encoding when
//! `transfer-encoding: chunked` is declared, a declared byte count when
//! `content-length` is, and NUL termination otherwise.
//!
//! Failure is terminal for the decode call: no partial frame is returned
//! and nothing is retried.

use vstd::prelude::*;

use crate::body::{spec_drain, BodyDecoder, DecoderState, SpecDrain};
use crate::command::{spec_parse_server_command, ServerCommand};
use crate::error::{SpecStompError, StompError};
use crate::headers::{
    entries_append, entries_first, entries_all, entries_wf, key_index_ci, HeaderMultimap,
    SpecEntries,
};
use crate::request::{encode_header_lines, header_line, spec_encode, SpecRequest};
use crate::util::{
    bytes_as_chars, colon, cr, find_byte, is_ws, lemma_find_byte, lemma_find_byte_at,
    lemma_trim_stable, lf, lower_bytes, nul, spec_parse_dec, trim_bytes,
};
use vstd::string::StringSliceAdditionalSpecFns;
use vstd::string::StrSliceExecFns;

verus! {

/// Mathematical shape of a decoded frame.
pub struct SpecResponse {
    pub command: ServerCommand,
    pub headers: SpecEntries,
    pub body: Seq<u8>,
}

/// What decoding yields: a frame and the number of bytes consumed, or the
/// failure that ended the attempt.
pub enum SpecDecoded {
    Frame { command: ServerCommand, headers: SpecEntries, body: Seq<u8>, used: int },
    Fail(SpecStompError),
}

/// A line with its trailing carriage return removed, if it has one; the
/// line feed itself is never part of the line.
pub open spec fn strip_cr(line: Seq<u8>) -> Seq<u8> {
    if line.len() > 0 && line[line.len() - 1] == cr() {
        line.drop_last()
    } else {
        line
    }
}

/// How a response body is delimited.
#[derive(Clone, Copy, PartialEq, Eq, Structural, Debug)]
pub enum BodyMode {
    /// `transfer-encoding: chunked` was declared.
    Chunked,
    /// `content-length` declared this many body bytes.
    Fixed(u64),
    /// Neither header was usable; the body runs to the NUL terminator (or,
    /// for a raw body stream, to transport closure).
    UntilClose,
}

/// The `transfer-encoding` header name.
pub open spec fn transfer_encoding_key() -> Seq<u8> {
    seq![116u8, 114, 97, 110, 115, 102, 101, 114, 45, 101, 110, 99, 111, 100, 105, 110, 103]
}

/// The `content-length` header name.
pub open spec fn content_length_key() -> Seq<u8> {
    seq![99u8, 111, 110, 116, 101, 110, 116, 45, 108, 101, 110, 103, 116, 104]
}

/// The `chunked` transfer-encoding value.
pub open spec fn chunked_value() -> Seq<u8> {
    seq![99u8, 104, 117, 110, 107, 101, 100]
}

/// Which delimiting the headers select. Header names match up to ASCII
/// case, as does the `chunked` value; only the first matching entry of
/// each name counts. A `transfer-encoding` of `chunked` wins over any
/// length; otherwise a parseable `content-length` selects a fixed count;
/// otherwise the decoder falls back to `UntilClose`.
pub open spec fn spec_body_mode(hs: SpecEntries) -> BodyMode {
    let ti = key_index_ci(hs, transfer_encoding_key());
    if ti < hs.len() && hs[ti].1.len() >= 1 && lower_bytes(hs[ti].1[0]) == chunked_value() {
        BodyMode::Chunked
    } else {
        let li = key_index_ci(hs, content_length_key());
        if li < hs.len() && hs[li].1.len() >= 1 {
            match spec_parse_dec(hs[li].1[0]) {
                Some(n) => BodyMode::Fixed(n),
                None => BodyMode::UntilClose,
            }
        } else {
            BodyMode::UntilClose
        }
    }
}

/// Decide the body delimiting that `headers` select.
pub fn body_mode(headers: &HeaderMultimap) -> (m: BodyMode)
    requires
        entries_wf(headers@),
    ensures
        m == spec_body_mode(headers@),
{
    let te: Vec<u8> = vec![
        116u8,
        114,
        97,
        110,
        115,
        102,
        101,
        114,
        45,
        101,
        110,
        99,
        111,
        100,
        105,
        110,
        103,
    ];
    let ti = headers.find_key_ci(te.as_slice());
    if ti < headers.entries.len() {
        let val = &headers.entries[ti].1;
        proof {
            assert(headers@[ti as int].1 == val.deep_view());
            assert(headers@[ti as int].1[0] =~= val@[0]@);
        }
        let low = crate::util::lower_vec(val[0].as_slice());
        let chunked_tok: Vec<u8> = vec![99u8, 104, 117, 110, 107, 101, 100];
        if crate::util::bytes_eq(low.as_slice(), chunked_tok.as_slice()) {
            return BodyMode::Chunked;
        }
    }
    let cl: Vec<u8> = vec![99u8, 111, 110, 116, 101, 110, 116, 45, 108, 101, 110, 103, 116, 104];
    let li = headers.find_key_ci(cl.as_slice());
    if li < headers.entries.len() {
        let val = &headers.entries[li].1;
        proof {
            assert(headers@[li as int].1 == val.deep_view());
            assert(headers@[li as int].1[0] =~= val@[0]@);
        }
        match crate::util::parse_dec(val[0].as_slice()) {
            Some(n) => BodyMode::Fixed(n),
            None => BodyMode::UntilClose,
        }
    } else {
        BodyMode::UntilClose
    }
}

/// Decode one frame out of `input`.
pub open spec fn spec_decode(input: Seq<u8>) -> SpecDecoded {
    let nl = find_byte(input, lf());
    if nl == input.len() {
        SpecDecoded::Fail(SpecStompError::TransportError)
    } else {
        let tok = strip_cr(input.subrange(0, nl));
        if tok == ServerCommand::ERROR.spec_token() {
            SpecDecoded::Fail(SpecStompError::ServerFrameError)
        } else {
            match spec_parse_server_command(tok) {
                Some(c) => spec_decode_headers(input, nl + 1, c, Seq::empty()),
                None => SpecDecoded::Fail(SpecStompError::UnknownCommand(tok)),
            }
        }
    }
}

/// Decode header lines from `pos` on, with `acc` holding the headers read
/// so far. An empty line ends the headers; a line with a separator splits
/// at the first one into a trimmed key and a trimmed value (which may
/// itself contain separators); a non-empty line without one is fatal.
pub open spec fn spec_decode_headers(
    input: Seq<u8>,
    pos: int,
    cmd: ServerCommand,
    acc: SpecEntries,
) -> SpecDecoded
    decreases input.len() - pos,
        when 0 <= pos <= input.len()
        via spec_decode_headers_decreases
{
    let rest = input.subrange(pos, input.len() as int);
    let nl = find_byte(rest, lf());
    if nl == rest.len() {
        SpecDecoded::Fail(SpecStompError::TransportError)
    } else {
        let line = strip_cr(rest.subrange(0, nl));
        if line.len() == 0 {
            spec_decode_body(input, pos + nl + 1, cmd, acc)
        } else {
            let c1 = find_byte(line, colon());
            if c1 == line.len() {
                SpecDecoded::Fail(SpecStompError::MalformedHeaderLine(line))
            } else {
                let k = trim_bytes(line.subrange(0, c1));
                let v = trim_bytes(line.subrange(c1 + 1, line.len() as int));
                spec_decode_headers(input, pos + nl + 1, cmd, entries_append(acc, k, v))
            }
        }
    }
}

#[via_fn]
proof fn spec_decode_headers_decreases(
    input: Seq<u8>,
    pos: int,
    cmd: ServerCommand,
    acc: SpecEntries,
) {
    lemma_find_byte(input.subrange(pos, input.len() as int), lf());
}

/// Decode the body from `pos` on, as the headers direct, and assemble the
/// frame. Fixed and chunked bodies go through the body decoder's drain; a
/// NUL-terminated body ends at the first NUL, which is consumed but not
/// part of the body.
pub open spec fn spec_decode_body(
    input: Seq<u8>,
    pos: int,
    cmd: ServerCommand,
    hs: SpecEntries,
) -> SpecDecoded {
    match spec_body_mode(hs) {
        BodyMode::Chunked => match spec_drain(DecoderState::AwaitingChunkSize, input, pos) {
            SpecDrain::Done { bytes, end } => SpecDecoded::Frame {
                command: cmd,
                headers: hs,
                body: bytes,
                used: end,
            },
            SpecDrain::Fail(e) => SpecDecoded::Fail(e),
        },
        BodyMode::Fixed(n) => match spec_drain(DecoderState::FixedRemaining(n), input, pos) {
            SpecDrain::Done { bytes, end } => SpecDecoded::Frame {
                command: cmd,
                headers: hs,
                body: bytes,
                used: end,
            },
            SpecDrain::Fail(e) => SpecDecoded::Fail(e),
        },
        BodyMode::UntilClose => {
            let rest = input.subrange(pos, input.len() as int);
            let z = find_byte(rest, nul());
            if z == rest.len() {
                SpecDecoded::Fail(SpecStompError::TransportError)
            } else {
                SpecDecoded::Frame {
                    command: cmd,
                    headers: hs,
                    body: rest.subrange(0, z),
                    used: pos + z + 1,
                }
            }
        },
    }
}

/// A decoded server frame.
#[derive(Debug, Clone, PartialEq, Eq)]
pub struct Response {
    pub command: ServerCommand,
    pub headers: HeaderMultimap,
    pub body: Vec<u8>,
}

impl View for Response {
    type V = SpecResponse;

    open spec fn view(&self) -> SpecResponse {
        SpecResponse { command: self.command, headers: self.headers@, body: self.body@ }
    }
}

impl Response {
    /// Distinct header keys, every value list non-empty.
    pub open spec fn wf(&self) -> bool {
        entries_wf(self@.headers)
    }

    /// Decode one frame out of `input`: the command line, the header lines
    /// up to a blank line, and the body as the headers direct. Returns the
    /// frame and the number of bytes consumed, or the error that ended
    /// decoding — an `ERROR` frame fails as `ServerFrameError` before its
    /// headers are read.
    pub fn decode(input: &[u8]) -> (r: Result<(Response, usize), StompError>)
        ensures
            match spec_decode(input@) {
                SpecDecoded::Frame { command, headers, body, used } => r matches Ok(v)
                    && v.0@.command == command && v.0@.headers == headers && v.0@.body == body
                    && v.1 == used && v.0.wf(),
                SpecDecoded::Fail(e) => r matches Err(err) && err@ == e,
            },
    {
        let nl = crate::util::scan_byte(input, 0, input.len(), 10);
        proof {
            assert(input@.subrange(0, input@.len() as int) =~= input@);
            lemma_find_byte(input@, lf());
        }
        if nl == input.len() {
            return Err(StompError::TransportError);
        }
        let tok_end = if nl > 0 && input[nl - 1] == 13 {
            nl - 1
        } else {
            nl
        };
        let tok = crate::util::copy_range(input, 0, tok_end);
        proof {
            let line = input@.subrange(0, nl as int);
            if nl > 0 && input@[nl as int - 1] == cr() {
                assert(line.drop_last() =~= input@.subrange(0, nl - 1));
            }
            assert(tok@ =~= strip_cr(line));
        }
        let err_tok = ServerCommand::ERROR.token_bytes();
        if crate::util::bytes_eq(tok.as_slice(), err_tok.as_slice()) {
            return Err(StompError::ServerFrameError);
        }
        let cmd = match crate::command::parse_server_command(tok.as_slice()) {
            None => {
                return Err(StompError::UnknownCommand(tok));
            },
            Some(c) => c,
        };
        let mut headers = HeaderMultimap::new();
        let mut pos: usize = nl + 1;
        proof {
            assert(spec_decode(input@) == spec_decode_headers(input@, pos as int, cmd, headers@));
        }
        loop
            invariant
                pos <= input@.len(),
                headers.wf(),
                spec_decode(input@) == spec_decode_headers(input@, pos as int, cmd, headers@),
            decreases input@.len() - pos,
        {
            let ghost rest = input@.subrange(pos as int, input@.len() as int);
            let nl2 = crate::util::scan_byte(input, pos, input.len(), 10);
            proof {
                lemma_find_byte(rest, lf());
            }
            if nl2 == input.len() {
                return Err(StompError::TransportError);
            }
            let line_end = if nl2 > pos && input[nl2 - 1] == 13 {
                nl2 - 1
            } else {
                nl2
            };
            let ghost line_g = input@.subrange(pos as int, line_end as int);
            proof {
                assert(rest.subrange(0, (nl2 - pos) as int) =~= input@.subrange(
                    pos as int,
                    nl2 as int,
                ));
                if nl2 > pos && input@[nl2 as int - 1] == cr() {
                    assert(input@.subrange(pos as int, nl2 as int).drop_last() =~= input@.subrange(
                        pos as int,
                        nl2 as int - 1,
                    ));
                }
                assert(strip_cr(rest.subrange(0, (nl2 - pos) as int)) =~= line_g);
            }
            if line_end == pos {
                // blank line: the headers are done, the body follows
                let bpos = nl2 + 1;
                proof {
                    assert(spec_decode(input@) == spec_decode_body(
                        input@,
                        bpos as int,
                        cmd,
                        headers@,
                    ));
                }
                let mode = body_mode(&headers);
                match mode {
                    BodyMode::Chunked => {
                        let mut d = BodyDecoder::chunked();
                        match d.read_to_end(input, bpos) {
                            Ok(v) => {
                                return Ok((
                                    Response { command: cmd, headers, body: v.0 },
                                    v.1,
                                ));
                            },
                            Err(e) => {
                                return Err(e);
                            },
                        }
                    },
                    BodyMode::Fixed(n) => {
                        let mut d = BodyDecoder::fixed(n);
                        match d.read_to_end(input, bpos) {
                            Ok(v) => {
                                return Ok((
                                    Response { command: cmd, headers, body: v.0 },
                                    v.1,
                                ));
                            },
                            Err(e) => {
                                return Err(e);
                            },
                        }
                    },
                    BodyMode::UntilClose => {
                        let ghost brest = input@.subrange(bpos as int, input@.len() as int);
                        let z = crate::util::scan_byte(input, bpos, input.len(), 0);
                        proof {
                            lemma_find_byte(brest, nul());
                        }
                        if z == input.len() {
                            return Err(StompError::TransportError);
                        }
                        let body = crate::util::copy_range(input, bpos, z);
                        proof {
                            assert(body@ =~= brest.subrange(0, (z - bpos) as int));
                        }
                        return Ok((Response { command: cmd, headers, body }, z + 1));
                    },
                }
            }
            let c1 = crate::util::scan_byte(input, pos, line_end, 58);
            proof {
                assert(input@.subrange(pos as int, line_end as int) =~= line_g);
                lemma_find_byte(line_g, colon());
            }
            if c1 == line_end {
                let line_copy = crate::util::copy_range(input, pos, line_end);
                proof {
                    assert(line_copy@ =~= line_g);
                }
                return Err(StompError::MalformedHeaderLine(line_copy));
            }
            let k = crate::util::trim_range(input, pos, c1);
            let v = crate::util::trim_range(input, c1 + 1, line_end);
            proof {
                assert(line_g.subrange(0, c1 - pos) =~= input@.subrange(pos as int, c1 as int));
                assert(line_g.subrange(c1 - pos + 1, line_g.len() as int) =~= input@.subrange(
                    c1 as int + 1,
                    line_end as int,
                ));
            }
            let ghost acc0 = headers@;
            let ghost pos0 = pos as int;
            headers.append(k, v);
            pos = nl2 + 1;
            proof {
                assert(spec_decode_headers(input@, pos0, cmd, acc0) == spec_decode_headers(
                    input@,
                    pos as int,
                    cmd,
                    entries_append(acc0, k@, v@),
                ));
            }
        }
    }

    /// The text of the bytes before the first NUL of `input` — the NUL
    /// convention of a frame body, read out of a plain buffer. A buffer
    /// without a NUL means the transport closed before the body ended,
    /// which is a transport error, not a shorter body.
    pub fn parse_stream_to_string(input: &[u8]) -> (r: Result<String, StompError>)
        ensures
            match r {
                Ok(s) => find_byte(input@, nul()) < input@.len() && s@ == bytes_as_chars(
                    input@.subrange(0, find_byte(input@, nul())),
                ),
                Err(e) => find_byte(input@, nul()) == input@.len() && e@
                    == SpecStompError::TransportError,
            },
    {
        let z = crate::util::scan_byte(input, 0, input.len(), 0);
        proof {
            assert(input@.subrange(0, input@.len() as int) =~= input@);
            lemma_find_byte(input@, nul());
        }
        if z == input.len() {
            return Err(StompError::TransportError);
        }
        let pre = crate::util::copy_range(input, 0, z);
        Ok(crate::util::bytes_to_text(pre.as_slice()))
    }

    /// The first value of the header `k`, as text, or `HeaderNotFound`.
    pub fn get_header(&self, k: &str) -> (r: Result<String, StompError>)
        requires
            self.wf(),
        ensures
            match r {
                Ok(v) => entries_first(self@.headers, k.spec_bytes()) matches Some(b) && v@
                    == bytes_as_chars(b),
                Err(e) => entries_first(self@.headers, k.spec_bytes()) is None && e@
                    == SpecStompError::HeaderNotFound(k.spec_bytes()),
            },
    {
        let kb = k.as_bytes_vec();
        match self.headers.first(kb.as_slice()) {
            Ok(v) => Ok(crate::util::bytes_to_text(v.as_slice())),
            Err(e) => Err(e),
        }
    }

    /// Every value of the header `name`, as text, oldest first; empty when
    /// the header is absent.
    pub fn get_headers(&self, name: &str) -> (r: Vec<String>)
        ensures
            r.deep_view() == entries_all(self@.headers, name.spec_bytes()).map_values(
                |b: Seq<u8>| bytes_as_chars(b),
            ),
    {
        let nb = name.as_bytes_vec();
        let vals = self.headers.all(nb.as_slice());
        let ghost target = entries_all(self@.headers, name.spec_bytes()).map_values(
            |b: Seq<u8>| bytes_as_chars(b),
        );
        let mut out: Vec<String> = Vec::new();
        let mut i: usize = 0;
        while i < vals.len()
            invariant
                0 <= i <= vals@.len(),
                vals.deep_view() == entries_all(self@.headers, name.spec_bytes()),
                target == entries_all(self@.headers, name.spec_bytes()).map_values(
                    |b: Seq<u8>| bytes_as_chars(b),
                ),
                out@.len() == i,
                forall|j: int| 0 <= j < i ==> out@[j]@ == target[j],
            decreases vals@.len() - i,
        {
            let t = crate::util::bytes_to_text(vals[i].as_slice());
            proof {
                assert(vals.deep_view()[i as int] =~= vals@[i as int]@);
            }
            out.push(t);
            i += 1;
        }
        proof {
            assert forall|j: int| 0 <= j < out@.len() implies out.deep_view()[j] == target[j] by {
                assert(out.deep_view()[j] == out@[j]@);
            }
            assert(out.deep_view() =~= target);
        }
        out
    }
}

/// A header key that the decoder's line handling leaves exactly as
/// written: no line feed, no separator, no surrounding whitespace.
pub open spec fn key_wf(s: Seq<u8>) -> bool {
    &&& forall|i: int| 0 <= i < s.len() ==> s[i] != lf() && s[i] != colon()
    &&& s.len() > 0 ==> !is_ws(s[0]) && !is_ws(s[s.len() - 1])
}

/// A header value that the decoder's line handling leaves exactly as
/// written: no line feed, no surrounding whitespace. A value may contain
/// separators, since a line splits at its first one.
pub open spec fn value_wf(s: Seq<u8>) -> bool {
    &&& forall|i: int| 0 <= i < s.len() ==> s[i] != lf()
    &&& s.len() > 0 ==> !is_ws(s[0]) && !is_ws(s[s.len() - 1])
}

/// Every server command token is made of upper-case letters, so none of
/// its bytes is a line feed, a carriage return, a separator or a NUL.
proof fn lemma_server_token_plain(c: ServerCommand)
    ensures
        forall|i: int|
            0 <= i < c.spec_token().len() ==> 65 <= #[trigger] c.spec_token()[i] <= 90,
        c.spec_token().len() >= 1,
{
    match c {
        ServerCommand::CONNECTED => {
            assert forall|i: int|
                0 <= i < c.spec_token().len() implies 65 <= #[trigger] c.spec_token()[i]
                <= 90 by {
                let t = c.spec_token();
                assert(t.len() == 9);
                if i == 0 || i == 1 || i == 2 || i == 3 || i == 4 || i == 5 || i == 6 || i == 7
                    || i == 8 {
                }
            }
        },
        ServerCommand::MESSAGE => {
            assert forall|i: int|
                0 <= i < c.spec_token().len() implies 65 <= #[trigger] c.spec_token()[i]
                <= 90 by {
                let t = c.spec_token();
                assert(t.len() == 7);
                if i == 0 || i == 1 || i == 2 || i == 3 || i == 4 || i == 5 || i == 6 {
                }
            }
        },
        ServerCommand::RECEIPT => {
            assert forall|i: int|
                0 <= i < c.spec_token().len() implies 65 <= #[trigger] c.spec_token()[i]
                <= 90 by {
                let t = c.spec_token();
                assert(t.len() == 7);
                if i == 0 || i == 1 || i == 2 || i == 3 || i == 4 || i == 5 || i == 6 {
                }
            }
        },
        ServerCommand::ERROR => {
            assert forall|i: int|
                0 <= i < c.spec_token().len() implies 65 <= #[trigger] c.spec_token()[i]
                <= 90 by {
                let t = c.spec_token();
                assert(t.len() == 5);
                if i == 0 || i == 1 || i == 2 || i == 3 || i == 4 {
                }
            }
        },
    }
}

/// Decoding the encoded header block appends exactly its entries and moves
/// on to the body. `hs` are the entries still to be read, `acc` those read
/// already; `tail` is whatever follows the blank line.
proof fn lemma_decode_header_lines(
    input: Seq<u8>,
    pos: int,
    cmd: ServerCommand,
    acc: SpecEntries,
    hs: SpecEntries,
    tail: Seq<u8>,
)
    requires
        0 <= pos <= input.len(),
        input.subrange(pos, input.len() as int) == encode_header_lines(hs) + seq![lf()] + tail,
        entries_wf(acc + hs),
        forall|i: int| 0 <= i < hs.len() ==> #[trigger] hs[i].1.len() == 1,
        forall|i: int| 0 <= i < hs.len() ==> key_wf(#[trigger] hs[i].0) && value_wf(hs[i].1[0]),
    ensures
        spec_decode_headers(input, pos, cmd, acc) == spec_decode_body(
            input,
            pos + encode_header_lines(hs).len() + 1,
            cmd,
            acc + hs,
        ),
    decreases hs.len(),
{
    let rest = input.subrange(pos, input.len() as int);
    if hs.len() == 0 {
        assert(encode_header_lines(hs) == Seq::<u8>::empty());
        assert(rest =~= seq![lf()] + tail);
        assert(rest[0] == lf());
        lemma_find_byte_at(rest, lf(), 0);
        assert(strip_cr(rest.subrange(0, 0)).len() == 0);
        assert(acc + hs =~= acc);
    } else {
        let e0 = hs[0];
        let rest_hs = hs.subrange(1, hs.len() as int);
        let line0 = header_line(e0);
        let key = e0.0;
        let val = e0.1[0];
        assert(key_wf(key) && value_wf(val));
        assert(encode_header_lines(hs) == line0 + encode_header_lines(rest_hs));
        let nl = key.len() + 1 + val.len();
        assert(line0.len() == nl + 1);
        // the first line feed of the rest is the end of this header line
        assert forall|i: int| 0 <= i < nl implies rest[i] != lf() by {
            assert(rest[i] == line0[i]);
            if i < key.len() {
                assert(line0[i] == key[i]);
            } else if i == key.len() {
                assert(line0[i] == colon());
            } else {
                assert(line0[i] == val[i - key.len() - 1]);
            }
        }
        assert(rest[nl as int] == line0[nl as int]);
        assert(line0[nl as int] == lf());
        lemma_find_byte_at(rest, lf(), nl as int);
        let raw = rest.subrange(0, nl as int);
        assert(raw =~= key + seq![colon()] + val);
        // no trailing carriage return: the line ends with the value's last
        // byte, or with the separator when the value is empty
        assert(raw.len() > 0);
        if val.len() > 0 {
            assert(raw[raw.len() - 1] == val[val.len() - 1]);
            assert(!is_ws(val[val.len() - 1]));
        } else {
            assert(raw[raw.len() - 1] == colon());
        }
        assert(strip_cr(raw) == raw);
        // the line's first separator sits at the end of the key; any later
        // ones belong to the value
        assert forall|i: int| 0 <= i < key.len() implies raw[i] != colon() by {
            assert(raw[i] == key[i]);
        }
        assert(raw[key.len() as int] == colon());
        lemma_find_byte_at(raw, colon(), key.len() as int);
        let after = raw.subrange(key.len() as int + 1, raw.len() as int);
        assert(after =~= val);
        // trimming changes nothing
        lemma_trim_stable(raw.subrange(0, key.len() as int));
        assert(raw.subrange(0, key.len() as int) =~= key);
        lemma_trim_stable(after);
        // the append puts the entry at the back
        assert(forall|i: int| 0 <= i < acc.len() ==> (acc + hs)[i] == acc[i]);
        assert((acc + hs)[acc.len() as int] == e0);
        assert forall|i: int| 0 <= i < acc.len() implies acc[i].0 != key by {
            assert((acc + hs)[i].0 != (acc + hs)[acc.len() as int].0);
        }
        crate::headers::lemma_key_index_absent(acc, key);
        assert(entries_append(acc, key, val) =~= acc.push(e0)) by {
            assert(e0.1 =~= seq![val]);
        }
        // the remaining input after this line is the remaining block
        let pos2 = pos + nl + 1;
        assert(input.subrange(pos2, input.len() as int) =~= encode_header_lines(rest_hs)
            + seq![lf()] + tail) by {
            assert forall|i: int|
                0 <= i < input.len() - pos2 implies input.subrange(pos2, input.len() as int)[i]
                == (encode_header_lines(rest_hs) + seq![lf()] + tail)[i] by {
                assert(input.subrange(pos2, input.len() as int)[i] == rest[nl + 1 + i]);
                assert(rest[nl + 1 + i] == (encode_header_lines(hs) + seq![lf()] + tail)[nl + 1
                    + i]);
            }
        }
        assert(acc.push(e0) + rest_hs =~= acc + hs);
        lemma_decode_header_lines(input, pos2, cmd, acc.push(e0), rest_hs, tail);
        assert(spec_decode_headers(input, pos, cmd, acc) == spec_decode_headers(
            input,
            pos2,
            cmd,
            acc.push(e0),
        ));
    }
}

/// Round trip: a frame whose command is a recognized, non-ERROR server
/// token, whose header keys are distinct and single-valued, whose keys
/// carry no line feed and no separator, whose values carry no line feed
/// (a value may contain separators), with no surrounding whitespace on
/// either, whose headers select no chunked or length delimiting, and whose
/// body holds no NUL, decodes from its own encoding back to the same
/// command, the same header map in the same order, and the same body,
/// consuming the whole encoding.
pub proof fn lemma_round_trip(f: SpecRequest)
    requires
        spec_parse_server_command(f.command) is Some,
        f.command != ServerCommand::ERROR.spec_token(),
        entries_wf(f.headers),
        forall|i: int| 0 <= i < f.headers.len() ==> #[trigger] f.headers[i].1.len() == 1,
        forall|i: int|
            0 <= i < f.headers.len() ==> key_wf(#[trigger] f.headers[i].0) && value_wf(
                f.headers[i].1[0],
            ),
        spec_body_mode(f.headers) == BodyMode::UntilClose,
        forall|i: int| 0 <= i < f.body.len() ==> f.body[i] != nul(),
    ensures
        spec_decode(spec_encode(f)) matches SpecDecoded::Frame { command, headers, body, used }
            && Some(command) == spec_parse_server_command(f.command) && headers == f.headers
            && body == f.body && used == spec_encode(f).len(),
{
    let enc = spec_encode(f);
    let cl = f.command.len() as int;
    let hblock = encode_header_lines(f.headers);
    let c = spec_parse_server_command(f.command)->0;
    match spec_parse_server_command(f.command) {
        Some(cc) => {
            lemma_server_token_plain(cc);
            assert(f.command == cc.spec_token());
        },
        None => {},
    }
    // the first line feed ends the command line
    assert forall|i: int| 0 <= i < cl implies enc[i] != lf() by {
        assert(enc[i] == f.command[i]);
    }
    assert(enc[cl] == lf());
    lemma_find_byte_at(enc, lf(), cl);
    let raw = enc.subrange(0, cl);
    assert(raw =~= f.command);
    assert(f.command.len() >= 1);
    assert(!(f.command[cl - 1] == cr()));
    assert(strip_cr(raw) == f.command);
    // the headers decode back to themselves
    let tail = f.body + seq![nul()];
    assert(enc.subrange(cl + 1, enc.len() as int) =~= hblock + seq![lf()] + tail);
    assert(Seq::<(Seq<u8>, Seq<Seq<u8>>)>::empty() + f.headers =~= f.headers);
    lemma_decode_header_lines(enc, cl + 1, c, Seq::empty(), f.headers, tail);
    assert(spec_decode(enc) == spec_decode_body(
        enc,
        cl + 1 + hblock.len() + 1,
        c,
        Seq::empty() + f.headers,
    ));
    // the body runs to the NUL that the encoding appended
    let bpos = cl + 1 + hblock.len() + 1;
    let brest = enc.subrange(bpos, enc.len() as int);
    assert(brest =~= tail);
    assert forall|i: int| 0 <= i < f.body.len() implies brest[i] != nul() by {
        assert(brest[i] == f.body[i]);
    }
    assert(brest[f.body.len() as int] == nul());
    lemma_find_byte_at(brest, nul(), f.body.len() as int);
    assert(brest.subrange(0, f.body.len() as int) =~= f.body);
    assert(bpos + f.body.len() + 1 == enc.len());
}

/// Idempotent decode: what a byte sequence decodes to is a function of the
/// bytes alone, so decoding the same bytes from two independent fresh
/// streams yields identical frames — `decode`'s contract ties every call's
/// result to this one function of its input.
pub proof fn lemma_decode_deterministic(a: Seq<u8>, b: Seq<u8>)
    requires
        a == b,
    ensures
        spec_decode(a) == spec_decode(b),
{
}

} // verus!
