//! Outgoing frames. A `Request` holds a command token, an ordered header
//! map and a body; `encode` turns it into the exact wire bytes:
//!
//! ```text
//! COMMAND\n
//! key:value\n     (one line per header, insertion order, first value only)
//! \n
//! <body bytes>\0
//! ```
//!
//! Neither a header key nor a value may contain a newline, and a key may
//! not contain the separator `:` (a value may: the decoder splits a line
//! at its first separator), or the emitted frame is ambiguous; `encode`
//! does not check this, it is the caller's contract (the round-trip lemma
//! states it precisely).

use vstd::prelude::*;

use crate::headers::{
    entries_set, entries_wf, key_index, HeaderMultimap, SpecEntries,
};
use crate::util::{colon, lf, nul, push_bytes};
use vstd::string::StrSliceExecFns;
use vstd::string::StringSliceAdditionalSpecFns;

verus! {

/// Mathematical shape of an outgoing frame.
pub struct SpecRequest {
    pub command: Seq<u8>,
    pub headers: SpecEntries,
    pub body: Seq<u8>,
}

/// One encoded header line `key:value\n`, using the first value.
pub open spec fn header_line(e: (Seq<u8>, Seq<Seq<u8>>)) -> Seq<u8> {
    e.0 + seq![colon()] + e.1[0] + seq![lf()]
}

/// The encoded header block: one line per entry, in order.
pub open spec fn encode_header_lines(hs: SpecEntries) -> Seq<u8>
    decreases hs.len(),
{
    if hs.len() == 0 {
        Seq::empty()
    } else {
        header_line(hs[0]) + encode_header_lines(hs.subrange(1, hs.len() as int))
    }
}

/// Adding an entry at the back appends its line.
pub proof fn lemma_encode_header_lines_snoc(hs: SpecEntries, e: (Seq<u8>, Seq<Seq<u8>>))
    ensures
        encode_header_lines(hs.push(e)) == encode_header_lines(hs) + header_line(e),
    decreases hs.len(),
{
    if hs.len() == 0 {
        assert(hs.push(e)[0] == e);
        let t2 = hs.push(e).subrange(1, hs.push(e).len() as int);
        assert(t2 =~= Seq::<(Seq<u8>, Seq<Seq<u8>>)>::empty());
        assert(encode_header_lines(t2) == Seq::<u8>::empty());
        assert(encode_header_lines(hs.push(e)) =~= header_line(e));
        assert(encode_header_lines(hs) + header_line(e) =~= header_line(e));
    } else {
        let t = hs.subrange(1, hs.len() as int);
        lemma_encode_header_lines_snoc(t, e);
        assert(hs.push(e).subrange(1, hs.push(e).len() as int) =~= t.push(e));
        assert(encode_header_lines(hs.push(e)) == header_line(hs[0]) + encode_header_lines(
            t.push(e),
        ));
        assert(header_line(hs[0]) + (encode_header_lines(t) + header_line(e)) =~= (header_line(
            hs[0],
        ) + encode_header_lines(t)) + header_line(e));
    }
}

/// The wire bytes of a frame.
pub open spec fn spec_encode(f: SpecRequest) -> Seq<u8> {
    f.command + seq![lf()] + encode_header_lines(f.headers) + seq![lf()] + f.body + seq![nul()]
}

/// An outgoing frame under construction.
#[derive(Debug, Clone, PartialEq, Eq)]
pub struct Request {
    pub command: Vec<u8>,
    pub headers: HeaderMultimap,
    pub body: Vec<u8>,
}

impl View for Request {
    type V = SpecRequest;

    open spec fn view(&self) -> SpecRequest {
        SpecRequest { command: self.command@, headers: self.headers@, body: self.body@ }
    }
}

impl Request {
    /// Distinct header keys, every value list non-empty.
    pub open spec fn wf(&self) -> bool {
        entries_wf(self@.headers)
    }

    /// A frame with no command, no headers and an empty body. The transport
    /// itself lives with the caller; a request only assembles bytes for it.
    pub fn with_socket() -> (r: Request)
        ensures
            r@.command == Seq::<u8>::empty(),
            r@.headers == Seq::<(Seq<u8>, Seq<Seq<u8>>)>::empty(),
            r@.body == Seq::<u8>::empty(),
            r.wf(),
    {
        Request { command: Vec::new(), headers: HeaderMultimap::new(), body: Vec::new() }
    }

    /// Replace the command token.
    pub fn set_command(&mut self, command: &str) -> (r: bool)
        ensures
            final(self)@.command == command.spec_bytes(),
            final(self)@.headers == old(self)@.headers,
            final(self)@.body == old(self)@.body,
            old(self).wf() ==> final(self).wf(),
            r == true,
    {
        self.command = command.as_bytes_vec();
        true
    }

    /// Overwrite the header `key` with the single value `value`; reports
    /// whether the key was previously absent.
    pub fn set_header(&mut self, key: &str, value: &str) -> (r: bool)
        ensures
            final(self)@.headers == entries_set(
                old(self)@.headers,
                key.spec_bytes(),
                value.spec_bytes(),
            ),
            final(self)@.command == old(self)@.command,
            final(self)@.body == old(self)@.body,
            old(self).wf() ==> final(self).wf(),
            r == (key_index(old(self)@.headers, key.spec_bytes()) == old(self)@.headers.len()),
    {
        self.headers.set(key.as_bytes_vec(), value.as_bytes_vec())
    }

    /// Overwrite the header `key` with the single raw value `value`.
    pub fn set_header_bytes(&mut self, key: Vec<u8>, value: Vec<u8>) -> (r: bool)
        ensures
            final(self)@.headers == entries_set(old(self)@.headers, key@, value@),
            final(self)@.command == old(self)@.command,
            final(self)@.body == old(self)@.body,
            old(self).wf() ==> final(self).wf(),
            r == (key_index(old(self)@.headers, key@) == old(self)@.headers.len()),
    {
        self.headers.set(key, value)
    }

    /// Overwrite each listed header in order, as `set_header` would.
    pub fn set_headers(&mut self, h: &Vec<(String, String)>) -> (r: bool)
        ensures
            final(self)@.headers == entries_set_all(old(self)@.headers, spec_pairs_bytes(h@)),
            final(self)@.command == old(self)@.command,
            final(self)@.body == old(self)@.body,
            old(self).wf() ==> final(self).wf(),
            r == true,
    {
        let ghost l = spec_pairs_bytes(h@);
        let ghost m0 = self@.headers;
        proof {
            assert(l.subrange(0, l.len() as int) =~= l);
        }
        let mut i: usize = 0;
        while i < h.len()
            invariant
                0 <= i <= h@.len(),
                l == spec_pairs_bytes(h@),
                l.len() == h@.len(),
                entries_set_all(m0, l) == entries_set_all(
                    self@.headers,
                    l.subrange(i as int, l.len() as int),
                ),
                self@.command == old(self)@.command,
                self@.body == old(self)@.body,
                entries_wf(m0) ==> entries_wf(self@.headers),
            decreases h@.len() - i,
        {
            let ghost pre = self@.headers;
            self.set_header(h[i].0.as_str(), h[i].1.as_str());
            proof {
                let rest = l.subrange(i as int, l.len() as int);
                assert(rest[0] == l[i as int]);
                assert(rest.subrange(1, rest.len() as int) =~= l.subrange(
                    i + 1,
                    l.len() as int,
                ));
                assert(entries_set_all(pre, rest) == entries_set_all(
                    entries_set(pre, l[i as int].0, l[i as int].1),
                    l.subrange(i + 1, l.len() as int),
                ));
            }
            i += 1;
        }
        proof {
            assert(l.subrange(l.len() as int, l.len() as int) =~= Seq::<(Seq<u8>, Seq<u8>)>::empty());
        }
        true
    }

    /// Replace the body with the bytes of `text`.
    pub fn set_body(&mut self, text: &str) -> (r: bool)
        ensures
            final(self)@.body == text.spec_bytes(),
            final(self)@.command == old(self)@.command,
            final(self)@.headers == old(self)@.headers,
            old(self).wf() ==> final(self).wf(),
            r == true,
    {
        self.body = text.as_bytes_vec();
        true
    }

    /// Replace the body with the given bytes verbatim.
    pub fn set_body_binary(&mut self, text: &[u8]) -> (r: bool)
        ensures
            final(self)@.body == text@,
            final(self)@.command == old(self)@.command,
            final(self)@.headers == old(self)@.headers,
            old(self).wf() ==> final(self).wf(),
            r == true,
    {
        self.body = crate::util::copy_range(text, 0, text.len());
        proof {
            assert(text@.subrange(0, text@.len() as int) =~= text@);
        }
        true
    }

    /// The wire bytes of the frame: command line, header lines in insertion
    /// order (first value per key), a blank line, the body, one NUL.
    pub fn encode(&self) -> (r: Vec<u8>)
        requires
            self.wf(),
        ensures
            r@ == spec_encode(self@),
    {
        let mut out: Vec<u8> = Vec::new();
        push_bytes(&mut out, self.command.as_slice());
        out.push(10);
        let ghost hs = self@.headers;
        let mut i: usize = 0;
        while i < self.headers.entries.len()
            invariant
                0 <= i <= hs.len(),
                hs == self@.headers,
                self.wf(),
                out@ == self@.command + seq![lf()] + encode_header_lines(
                    hs.subrange(0, i as int),
                ),
            decreases hs.len() - i,
        {
            let entry = &self.headers.entries[i];
            proof {
                assert(hs[i as int].0 == entry.0@);
                assert(hs[i as int].1 == entry.1.deep_view());
                assert(hs[i as int].1[0] =~= entry.1@[0]@);
            }
            push_bytes(&mut out, entry.0.as_slice());
            out.push(58);
            push_bytes(&mut out, entry.1[0].as_slice());
            out.push(10);
            proof {
                lemma_encode_header_lines_snoc(hs.subrange(0, i as int), hs[i as int]);
                assert(hs.subrange(0, i as int).push(hs[i as int]) =~= hs.subrange(0, i + 1));
                assert(out@ =~= self@.command + seq![lf()] + encode_header_lines(
                    hs.subrange(0, i + 1),
                ));
            }
            i += 1;
        }
        out.push(10);
        push_bytes(&mut out, self.body.as_slice());
        out.push(0);
        proof {
            assert(hs.subrange(0, hs.len() as int) =~= hs);
            assert(out@ =~= spec_encode(self@));
        }
        out
    }
}

/// The byte pairs of a list of textual header pairs.
pub open spec fn spec_pairs_bytes(l: Seq<(String, String)>) -> Seq<(Seq<u8>, Seq<u8>)> {
    l.map_values(
        |p: (String, String)|
            (vstd::utf8::encode_utf8(p.0@), vstd::utf8::encode_utf8(p.1@)),
    )
}

/// Overwrite each listed header in order.
pub open spec fn entries_set_all(m: SpecEntries, l: Seq<(Seq<u8>, Seq<u8>)>) -> SpecEntries
    decreases l.len(),
{
    if l.len() == 0 {
        m
    } else {
        entries_set_all(entries_set(m, l[0].0, l[0].1), l.subrange(1, l.len() as int))
    }
}

} // verus!
