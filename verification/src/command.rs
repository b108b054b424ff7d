//! The closed command sets of the protocol: the verbs a client may send,
//! the verbs a server may answer with, and the protocol version tags.

use vstd::prelude::*;

verus! {

/// Outgoing verbs. The set only labels what the caller builds; the codec
/// itself carries the command as bytes.
#[allow(non_camel_case_types)]
#[derive(Clone, Copy, PartialEq, Eq, Structural, Debug)]
pub enum ClientCommand {
    STOMP,
    SEND,
    CONNECT,
    SUBSCRIBE,
    UNSUBSCRIBE,
    ACK,
    NACK,
    BEGIN,
    COMMIT,
    ABORT,
    DISCONNECT,
}

/// Incoming verbs, recognized by an exact match on the first frame line.
#[allow(non_camel_case_types)]
#[derive(Clone, Copy, PartialEq, Eq, Structural, Debug)]
pub enum ServerCommand {
    CONNECTED,
    MESSAGE,
    RECEIPT,
    ERROR,
}

/// Protocol revisions this client speaks.
#[allow(non_camel_case_types)]
#[derive(Clone, Copy, PartialEq, Eq, Structural, Debug)]
pub enum StompVersion {
    STOMP_1_1,
    STOMP_1_0,
}

impl ClientCommand {
    /// The wire token of the verb, as bytes.
    pub open spec fn spec_token(self) -> Seq<u8> {
        match self {
            ClientCommand::STOMP => seq![83, 84, 79, 77, 80],
            ClientCommand::SEND => seq![83, 69, 78, 68],
            ClientCommand::CONNECT => seq![67, 79, 78, 78, 69, 67, 84],
            ClientCommand::SUBSCRIBE => seq![
                83,
                85,
                66,
                83,
                67,
                82,
                73,
                66,
                69,
            ],
            ClientCommand::UNSUBSCRIBE => seq![
                85,
                78,
                83,
                85,
                66,
                83,
                67,
                82,
                73,
                66,
                69,
            ],
            ClientCommand::ACK => seq![65, 67, 75],
            ClientCommand::NACK => seq![78, 65, 67, 75],
            ClientCommand::BEGIN => seq![66, 69, 71, 73, 78],
            ClientCommand::COMMIT => seq![67, 79, 77, 77, 73, 84],
            ClientCommand::ABORT => seq![65, 66, 79, 82, 84],
            ClientCommand::DISCONNECT => seq![
                68,
                73,
                83,
                67,
                79,
                78,
                78,
                69,
                67,
                84,
            ],
        }
    }

    /// The wire token of the verb.
    pub fn token_bytes(&self) -> (r: Vec<u8>)
        ensures
            r@ == self.spec_token(),
    {
        match self {
            ClientCommand::STOMP => vec![83, 84, 79, 77, 80],
            ClientCommand::SEND => vec![83, 69, 78, 68],
            ClientCommand::CONNECT => vec![67, 79, 78, 78, 69, 67, 84],
            ClientCommand::SUBSCRIBE => vec![83, 85, 66, 83, 67, 82, 73, 66, 69],
            ClientCommand::UNSUBSCRIBE => vec![
                85,
                78,
                83,
                85,
                66,
                83,
                67,
                82,
                73,
                66,
                69,
            ],
            ClientCommand::ACK => vec![65, 67, 75],
            ClientCommand::NACK => vec![78, 65, 67, 75],
            ClientCommand::BEGIN => vec![66, 69, 71, 73, 78],
            ClientCommand::COMMIT => vec![67, 79, 77, 77, 73, 84],
            ClientCommand::ABORT => vec![65, 66, 79, 82, 84],
            ClientCommand::DISCONNECT => vec![
                68,
                73,
                83,
                67,
                79,
                78,
                78,
                69,
                67,
                84,
            ],
        }
    }
}

impl ServerCommand {
    /// The wire token of the verb, as bytes.
    pub open spec fn spec_token(self) -> Seq<u8> {
        match self {
            ServerCommand::CONNECTED => seq![67, 79, 78, 78, 69, 67, 84, 69, 68],
            ServerCommand::MESSAGE => seq![77, 69, 83, 83, 65, 71, 69],
            ServerCommand::RECEIPT => seq![82, 69, 67, 69, 73, 80, 84],
            ServerCommand::ERROR => seq![69, 82, 82, 79, 82],
        }
    }

    /// The wire token of the verb.
    pub fn token_bytes(&self) -> (r: Vec<u8>)
        ensures
            r@ == self.spec_token(),
    {
        match self {
            ServerCommand::CONNECTED => vec![67, 79, 78, 78, 69, 67, 84, 69, 68],
            ServerCommand::MESSAGE => vec![77, 69, 83, 83, 65, 71, 69],
            ServerCommand::RECEIPT => vec![82, 69, 67, 69, 73, 80, 84],
            ServerCommand::ERROR => vec![69, 82, 82, 79, 82],
        }
    }
}

/// Which server verb a first-line token names, if any.
pub open spec fn spec_parse_server_command(tok: Seq<u8>) -> Option<ServerCommand> {
    if tok == ServerCommand::CONNECTED.spec_token() {
        Some(ServerCommand::CONNECTED)
    } else if tok == ServerCommand::MESSAGE.spec_token() {
        Some(ServerCommand::MESSAGE)
    } else if tok == ServerCommand::RECEIPT.spec_token() {
        Some(ServerCommand::RECEIPT)
    } else if tok == ServerCommand::ERROR.spec_token() {
        Some(ServerCommand::ERROR)
    } else {
        None
    }
}

/// Match a first-line token against the closed server command set.
pub fn parse_server_command(tok: &[u8]) -> (r: Option<ServerCommand>)
    ensures
        r == spec_parse_server_command(tok@),
{
    let connected = ServerCommand::CONNECTED.token_bytes();
    if crate::util::bytes_eq(tok, connected.as_slice()) {
        return Some(ServerCommand::CONNECTED);
    }
    let message = ServerCommand::MESSAGE.token_bytes();
    if crate::util::bytes_eq(tok, message.as_slice()) {
        return Some(ServerCommand::MESSAGE);
    }
    let receipt = ServerCommand::RECEIPT.token_bytes();
    if crate::util::bytes_eq(tok, receipt.as_slice()) {
        return Some(ServerCommand::RECEIPT);
    }
    let error = ServerCommand::ERROR.token_bytes();
    if crate::util::bytes_eq(tok, error.as_slice()) {
        return Some(ServerCommand::ERROR);
    }
    None
}

impl StompVersion {
    /// The textual form of the version tag.
    pub open spec fn spec_text(self) -> Seq<char> {
        match self {
            StompVersion::STOMP_1_1 => "STOMP/1.1"@,
            StompVersion::STOMP_1_0 => "STOMP/1.0"@,
        }
    }

    /// The textual form of the version tag.
    pub fn as_text(&self) -> (r: &'static str)
        ensures
            r@ == self.spec_text(),
    {
        match self {
            StompVersion::STOMP_1_1 => "STOMP/1.1",
            StompVersion::STOMP_1_0 => "STOMP/1.0",
        }
    }
}

} // verus!
