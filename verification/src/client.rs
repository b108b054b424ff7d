//! The client session: connect, send and subscribe each build one outgoing
//! frame for a single blocking write-then-read round trip. The session does
//! not own the transport here — it assembles the exact frame, and the
//! caller writes its encoding and decodes the reply from the same
//! connection.

use vstd::prelude::*;

use crate::headers::entries_set;
use crate::request::{Request, SpecRequest};
use crate::util::dec_repr;
use vstd::string::StrSliceExecFns;
use vstd::string::StringSliceAdditionalSpecFns;

verus! {

/// One protocol session over one connection.
#[derive(Debug, Clone, PartialEq, Eq)]
pub struct Client {
    pub username: String,
    pub password: String,
    pub host: String,
}

/// Relies on `time::OffsetDateTime`: `now_utc` reads the system clock and
/// `unix_timestamp` renders it as whole seconds since the Unix epoch. The
/// result depends on the moment of the call, so nothing is promised of it.
/// `now_utc` aborts only when the system clock lies outside the years the
/// `time` crate can represent, which no argument of ours can influence.
#[verifier::external_body]
fn unix_now_seconds() -> (r: i64) {
    time::OffsetDateTime::now_utc().unix_timestamp()
}

/// The CONNECT frame: `accept-version`, `host`, `login` and `passcode`
/// headers, no body.
pub open spec fn spec_connect_frame(login: Seq<u8>, passcode: Seq<u8>) -> SpecRequest {
    SpecRequest {
        command: ("CONNECT").spec_bytes(),
        headers: entries_set(
            entries_set(
                entries_set(
                    entries_set(
                        Seq::empty(),
                        ("accept-version").spec_bytes(),
                        ("1.1").spec_bytes(),
                    ),
                    ("host").spec_bytes(),
                    ("localhost").spec_bytes(),
                ),
                ("login").spec_bytes(),
                login,
            ),
            ("passcode").spec_bytes(),
            passcode,
        ),
        body: Seq::empty(),
    }
}

/// The SEND frame: `destination`, `receipt` and `content-type` headers and
/// the given body. No `content-length` header is set, for compatibility
/// with brokers that mishandle it next to NUL-terminated framing.
pub open spec fn spec_send_frame(topic: Seq<u8>, text: Seq<u8>, receipt: Seq<u8>) -> SpecRequest {
    SpecRequest {
        command: ("SEND").spec_bytes(),
        headers: entries_set(
            entries_set(
                entries_set(Seq::empty(), ("destination").spec_bytes(), topic),
                ("receipt").spec_bytes(),
                receipt,
            ),
            ("content-type").spec_bytes(),
            ("text/plain").spec_bytes(),
        ),
        body: text,
    }
}

/// The SUBSCRIBE frame: `id`, `destination` and `ack` headers, no body.
pub open spec fn spec_subscribe_frame(id: Seq<u8>, topic: Seq<u8>, ack: Seq<u8>) -> SpecRequest {
    SpecRequest {
        command: ("SUBSCRIBE").spec_bytes(),
        headers: entries_set(
            entries_set(
                entries_set(Seq::empty(), ("id").spec_bytes(), id),
                ("destination").spec_bytes(),
                topic,
            ),
            ("ack").spec_bytes(),
            ack,
        ),
        body: Seq::empty(),
    }
}

/// The receipt name a plain `send` stamps on its frame: a fixed prefix and
/// a clock reading in seconds.
pub open spec fn default_receipt(n: nat) -> Seq<u8> {
    ("default-receipt-").spec_bytes() + dec_repr(n)
}

impl Client {
    /// Build the CONNECT frame for this session.
    pub fn connect(&self, login: &str, passcode: &str) -> (r: Request)
        ensures
            r@ == spec_connect_frame(login.spec_bytes(), passcode.spec_bytes()),
            r.wf(),
    {
        let mut req = Request::with_socket();
        req.set_command("CONNECT");
        req.set_header("accept-version", "1.1");
        req.set_header("host", "localhost");
        req.set_header("login", login);
        req.set_header("passcode", passcode);
        req
    }

    /// Build a SEND frame carrying `text` to `topic`, asking for a receipt
    /// under the caller's name.
    pub fn send_with_receipt(&self, topic: &str, text: &str, receipt: &str) -> (r: Request)
        ensures
            r@ == spec_send_frame(topic.spec_bytes(), text.spec_bytes(), receipt.spec_bytes()),
            r.wf(),
    {
        let mut req = Request::with_socket();
        req.set_command("SEND");
        req.set_header("destination", topic);
        req.set_header("receipt", receipt);
        req.set_header("content-type", "text/plain");
        req.set_body(text);
        req
    }

    /// Build a SEND frame whose receipt name is stamped from the clock, so
    /// consecutive requests over discrete connections stay distinguishable.
    pub fn send(&self, topic: &str, text: &str) -> (r: Request)
        ensures
            exists|n: u64|
                r@ == spec_send_frame(
                    topic.spec_bytes(),
                    text.spec_bytes(),
                    default_receipt(n as nat),
                ),
            r.wf(),
    {
        let t = unix_now_seconds();
        let secs: u64 = if t < 0 {
            0
        } else {
            t as u64
        };
        let mut receipt: Vec<u8> = ("default-receipt-").as_bytes_vec();
        crate::util::push_dec_repr(&mut receipt, secs);
        let mut req = Request::with_socket();
        req.set_command("SEND");
        req.set_header("destination", topic);
        req.set_header_bytes(("receipt").as_bytes_vec(), receipt);
        req.set_header("content-type", "text/plain");
        req.set_body(text);
        proof {
            assert(req@ == spec_send_frame(
                topic.spec_bytes(),
                text.spec_bytes(),
                default_receipt(secs as nat),
            ));
        }
        req
    }

    /// Build a SUBSCRIBE frame under the given subscription id.
    pub fn subscribe_with_id(&self, id: &str, topic: &str, ack: &str) -> (r: Request)
        ensures
            r@ == spec_subscribe_frame(id.spec_bytes(), topic.spec_bytes(), ack.spec_bytes()),
            r.wf(),
    {
        let mut req = Request::with_socket();
        req.set_command("SUBSCRIBE");
        req.set_header("id", id);
        req.set_header("destination", topic);
        req.set_header("ack", ack);
        req
    }

    /// Build a SUBSCRIBE frame under the default subscription id `0`.
    pub fn subscribe(&self, destination: &str, ack: &str) -> (r: Request)
        ensures
            r@ == spec_subscribe_frame(
                ("0").spec_bytes(),
                destination.spec_bytes(),
                ack.spec_bytes(),
            ),
            r.wf(),
    {
        self.subscribe_with_id("0", destination, ack)
    }
}

} // verus!
