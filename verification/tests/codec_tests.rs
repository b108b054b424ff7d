//! Frame codec tests: encoding, decoding, headers and the session builders.

use stomp::client::Client;
use stomp::command::{ClientCommand, ServerCommand, StompVersion};
use stomp::error::StompError;
use stomp::headers::HeaderMultimap;
use stomp::request::Request;
use stomp::response::{body_mode, BodyMode, Response};

#[test]
fn encode_connect_frame() {
    let mut req = Request::with_socket();
    assert!(req.set_command("CONNECT"));
    req.set_header("accept-version", "1.1");
    req.set_header("host", "localhost");
    req.set_body("hello");
    let bytes = req.encode();
    assert_eq!(
        bytes,
        b"CONNECT\naccept-version:1.1\nhost:localhost\n\nhello\0".to_vec()
    );
}

#[test]
fn encode_empty_frame() {
    let mut req = Request::with_socket();
    req.set_command("DISCONNECT");
    let bytes = req.encode();
    assert_eq!(bytes, b"DISCONNECT\n\n\0".to_vec());
}

#[test]
fn encode_set_overwrites_value() {
    let mut req = Request::with_socket();
    req.set_command("SEND");
    assert!(req.set_header("destination", "/queue/a"));
    // a second set keeps the position and replaces the value
    assert!(!req.set_header("destination", "/queue/b"));
    let bytes = req.encode();
    assert_eq!(bytes, b"SEND\ndestination:/queue/b\n\n\0".to_vec());
}

#[test]
fn encode_set_headers_list() {
    let mut req = Request::with_socket();
    req.set_command("SEND");
    let pairs = vec![
        ("destination".to_string(), "/queue/test".to_string()),
        ("priority".to_string(), "4".to_string()),
    ];
    assert!(req.set_headers(&pairs));
    let bytes = req.encode();
    assert_eq!(
        bytes,
        b"SEND\ndestination:/queue/test\npriority:4\n\n\0".to_vec()
    );
}

#[test]
fn encode_binary_body() {
    let mut req = Request::with_socket();
    req.set_command("SEND");
    req.set_body_binary(&[1u8, 2, 3]);
    let bytes = req.encode();
    assert_eq!(bytes, b"SEND\n\n\x01\x02\x03\0".to_vec());
}

#[test]
fn decode_connected_frame() {
    let input = b"CONNECTED\nversion:1.1\nsession:abc\n\n\0";
    let (resp, used) = Response::decode(input).unwrap();
    assert_eq!(resp.command, ServerCommand::CONNECTED);
    assert_eq!(resp.get_header("version").unwrap(), "1.1");
    assert_eq!(resp.get_header("session").unwrap(), "abc");
    assert!(resp.body.is_empty());
    assert_eq!(used, input.len());
}

#[test]
fn decode_error_frame_fails_early() {
    let input = b"ERROR\nmessage:bad\n\n\0";
    let err = Response::decode(input).unwrap_err();
    assert_eq!(err, StompError::ServerFrameError);
}

#[test]
fn decode_unknown_command() {
    let err = Response::decode(b"HELLO\n\n\0").unwrap_err();
    assert_eq!(err, StompError::UnknownCommand(b"HELLO".to_vec()));
}

#[test]
fn decode_malformed_header_line() {
    let err = Response::decode(b"RECEIPT\nnocolonhere\n\n\0").unwrap_err();
    assert_eq!(err, StompError::MalformedHeaderLine(b"nocolonhere".to_vec()));
}

#[test]
fn decode_splits_at_first_colon() {
    // the remainder after the first separator is the value, separators and all
    let (resp, _) = Response::decode(b"RECEIPT\na:b:c\n\n\0").unwrap();
    assert_eq!(resp.get_header("a").unwrap(), "b:c");
    let (with_port, _) = Response::decode(b"MESSAGE\nhost:localhost:61613\n\n\0").unwrap();
    assert_eq!(with_port.get_header("host").unwrap(), "localhost:61613");
}

#[test]
fn round_trip_keeps_colons_in_values() {
    let mut req = Request::with_socket();
    req.set_command("MESSAGE");
    req.set_header("destination", "/queue/a:b");
    req.set_body("x");
    let bytes = req.encode();
    let (resp, used) = Response::decode(&bytes).unwrap();
    assert_eq!(resp.get_header("destination").unwrap(), "/queue/a:b");
    assert_eq!(resp.body, b"x".to_vec());
    assert_eq!(used, bytes.len());
}

#[test]
fn decode_without_terminator_is_transport_error() {
    assert_eq!(
        Response::decode(b"CONNECTED").unwrap_err(),
        StompError::TransportError
    );
    assert_eq!(
        Response::decode(b"CONNECTED\nversion:1.1").unwrap_err(),
        StompError::TransportError
    );
    // headers done, but no NUL ends the body
    assert_eq!(
        Response::decode(b"CONNECTED\n\nbody-without-nul").unwrap_err(),
        StompError::TransportError
    );
}

#[test]
fn decode_trims_and_tolerates_crlf() {
    let input = b"MESSAGE\r\n destination :  /queue/x \r\n\r\nhi\0";
    let (resp, used) = Response::decode(input).unwrap();
    assert_eq!(resp.command, ServerCommand::MESSAGE);
    assert_eq!(resp.get_header("destination").unwrap(), "/queue/x");
    assert_eq!(resp.body, b"hi".to_vec());
    assert_eq!(used, input.len());
}

#[test]
fn decode_round_trip() {
    let mut req = Request::with_socket();
    req.set_command("MESSAGE");
    req.set_header("destination", "/queue/test");
    req.set_header("message-id", "007");
    req.set_body("payload");
    let bytes = req.encode();
    let (resp, used) = Response::decode(&bytes).unwrap();
    assert_eq!(resp.command, ServerCommand::MESSAGE);
    assert_eq!(resp.get_header("destination").unwrap(), "/queue/test");
    assert_eq!(resp.get_header("message-id").unwrap(), "007");
    assert_eq!(resp.body, b"payload".to_vec());
    assert_eq!(used, bytes.len());
}

#[test]
fn decode_is_idempotent() {
    let input = b"RECEIPT\nreceipt-id:77\n\nok\0trailing noise";
    let (a, used_a) = Response::decode(input).unwrap();
    let (b, used_b) = Response::decode(input).unwrap();
    assert_eq!(a, b);
    assert_eq!(used_a, used_b);
    assert_eq!(a.body, b"ok".to_vec());
    assert_eq!(used_a, b"RECEIPT\nreceipt-id:77\n\nok\0".len());
}

#[test]
fn get_header_missing_fails() {
    let (resp, _) = Response::decode(b"RECEIPT\n\n\0").unwrap();
    let err = resp.get_header("receipt-id").unwrap_err();
    assert_eq!(err, StompError::HeaderNotFound(b"receipt-id".to_vec()));
}

#[test]
fn get_headers_collects_repeated_values() {
    let (resp, _) = Response::decode(b"MESSAGE\ntag:a\ntag:b\nother:x\n\n\0").unwrap();
    assert_eq!(resp.get_headers("tag"), vec!["a".to_string(), "b".to_string()]);
    assert_eq!(resp.get_headers("other"), vec!["x".to_string()]);
    assert!(resp.get_headers("absent").is_empty());
}

#[test]
fn multimap_operations() {
    let mut m = HeaderMultimap::new();
    assert_eq!(m.len(), 0);
    assert!(m.set(b"k".to_vec(), b"v1".to_vec()));
    assert!(!m.set(b"k".to_vec(), b"v2".to_vec()));
    assert_eq!(m.first(b"k").unwrap(), b"v2".to_vec());
    m.append(b"k".to_vec(), b"v3".to_vec());
    assert_eq!(m.all(b"k"), vec![b"v2".to_vec(), b"v3".to_vec()]);
    m.append(b"fresh".to_vec(), b"x".to_vec());
    assert_eq!(m.len(), 2);
    assert_eq!(m.first(b"fresh").unwrap(), b"x".to_vec());
    assert!(m.all(b"absent").is_empty());
    assert_eq!(
        m.first(b"absent").unwrap_err(),
        StompError::HeaderNotFound(b"absent".to_vec())
    );
    // keys are case-sensitive
    assert!(m.first(b"K").is_err());
}

#[test]
fn parse_stream_to_string_stops_at_nul() {
    let text = Response::parse_stream_to_string(b"hello world\0rest").unwrap();
    assert_eq!(text, "hello world");
    let empty = Response::parse_stream_to_string(b"\0").unwrap();
    assert_eq!(empty, "");
}

#[test]
fn parse_stream_to_string_without_nul_is_transport_error() {
    // a stream that closes before the terminator is a transport failure,
    // not a shorter body
    let err = Response::parse_stream_to_string(b"no terminator").unwrap_err();
    assert_eq!(err, StompError::TransportError);
}

#[test]
fn body_mode_selection() {
    let (with_len, _) = Response::decode(b"MESSAGE\nContent-Length:5\n\nabcde").unwrap();
    assert_eq!(body_mode(&with_len.headers), BodyMode::Fixed(5));
    let (chunked, _) =
        Response::decode(b"MESSAGE\nTransfer-Encoding:CHUNKED\n\n0\r\n\r\n").unwrap();
    assert_eq!(body_mode(&chunked.headers), BodyMode::Chunked);
    let (plain, _) = Response::decode(b"MESSAGE\nx:y\n\n\0").unwrap();
    assert_eq!(body_mode(&plain.headers), BodyMode::UntilClose);
    // an unparseable length falls back to the NUL convention
    let (bad, _) = Response::decode(b"MESSAGE\ncontent-length:many\n\n\0").unwrap();
    assert_eq!(body_mode(&bad.headers), BodyMode::UntilClose);
}

#[test]
fn overlong_content_length_falls_back_to_nul() {
    // 2^64 does not fit the counter, so the declared length is unusable
    let input = b"MESSAGE\ncontent-length:18446744073709551616\n\nbody\0";
    let (resp, _) = Response::decode(input).unwrap();
    assert_eq!(body_mode(&resp.headers), BodyMode::UntilClose);
    assert_eq!(resp.body, b"body".to_vec());
    // the largest representable length is usable, and then the transport
    // cannot supply it
    let err = Response::decode(b"MESSAGE\ncontent-length:18446744073709551615\n\n\0").unwrap_err();
    assert_eq!(err, StompError::TransportError);
}

#[test]
fn set_header_bytes_keeps_raw_value() {
    let mut req = Request::with_socket();
    req.set_command("SEND");
    req.set_header_bytes(b"stamp".to_vec(), vec![0xC3, 0xA9]);
    let bytes = req.encode();
    assert_eq!(bytes, b"SEND\nstamp:\xC3\xA9\n\n\0".to_vec());
}

#[test]
fn decode_fixed_length_body() {
    let input = b"MESSAGE\ncontent-length:5\n\nhello trailing";
    let (resp, used) = Response::decode(input).unwrap();
    assert_eq!(resp.body, b"hello".to_vec());
    assert_eq!(used, b"MESSAGE\ncontent-length:5\n\nhello".len());
}

#[test]
fn decode_chunked_body() {
    let input = b"MESSAGE\ntransfer-encoding:chunked\n\n5\r\nhello\r\n1\r\n \r\n5\r\nworld\r\n0\r\n\r\n";
    let (resp, used) = Response::decode(input).unwrap();
    assert_eq!(resp.command, ServerCommand::MESSAGE);
    assert_eq!(resp.body, b"hello world".to_vec());
    assert_eq!(used, input.len());
}

#[test]
fn client_connect_builds_expected_frame() {
    let client = Client {
        username: String::new(),
        password: String::new(),
        host: "localhost".to_string(),
    };
    let req = client.connect("user", "pw");
    assert_eq!(
        req.encode(),
        b"CONNECT\naccept-version:1.1\nhost:localhost\nlogin:user\npasscode:pw\n\n\0".to_vec()
    );
}

#[test]
fn client_send_with_receipt_builds_expected_frame() {
    let client = Client {
        username: String::new(),
        password: String::new(),
        host: "localhost".to_string(),
    };
    let req = client.send_with_receipt("/queue/test", "testing 123", "receipt1234");
    assert_eq!(
        req.encode(),
        b"SEND\ndestination:/queue/test\nreceipt:receipt1234\ncontent-type:text/plain\n\ntesting 123\0"
            .to_vec()
    );
}

#[test]
fn client_send_stamps_a_default_receipt() {
    let client = Client {
        username: String::new(),
        password: String::new(),
        host: "localhost".to_string(),
    };
    let req = client.send("/queue/test", "auto");
    let bytes = req.encode();
    let text: Vec<u8> = bytes.clone();
    let as_string = String::from_utf8(text).unwrap();
    assert!(as_string.starts_with("SEND\ndestination:/queue/test\nreceipt:default-receipt-"));
    assert!(as_string.ends_with("content-type:text/plain\n\nauto\0"));
    // the stamp is a decimal number
    let receipt_line = as_string
        .lines()
        .find(|l| l.starts_with("receipt:"))
        .unwrap()
        .to_string();
    let stamp = &receipt_line["receipt:default-receipt-".len()..];
    assert!(!stamp.is_empty());
    assert!(stamp.bytes().all(|b| b.is_ascii_digit()));
}

#[test]
fn client_subscribe_builds_expected_frames() {
    let client = Client {
        username: String::new(),
        password: String::new(),
        host: "localhost".to_string(),
    };
    let with_id = client.subscribe_with_id("9", "/queue/test", "client");
    assert_eq!(
        with_id.encode(),
        b"SUBSCRIBE\nid:9\ndestination:/queue/test\nack:client\n\n\0".to_vec()
    );
    let default_id = client.subscribe("/queue/test", "auto");
    assert_eq!(
        default_id.encode(),
        b"SUBSCRIBE\nid:0\ndestination:/queue/test\nack:auto\n\n\0".to_vec()
    );
}

#[test]
fn command_tokens() {
    assert_eq!(ClientCommand::CONNECT.token_bytes(), b"CONNECT".to_vec());
    assert_eq!(ClientCommand::UNSUBSCRIBE.token_bytes(), b"UNSUBSCRIBE".to_vec());
    assert_eq!(ServerCommand::RECEIPT.token_bytes(), b"RECEIPT".to_vec());
    assert_eq!(
        stomp::command::parse_server_command(b"MESSAGE"),
        Some(ServerCommand::MESSAGE)
    );
    assert_eq!(stomp::command::parse_server_command(b"message"), None);
}

#[test]
fn version_text() {
    assert_eq!(StompVersion::STOMP_1_1.as_text(), "STOMP/1.1");
    assert_eq!(StompVersion::STOMP_1_0.as_text(), "STOMP/1.0");
}
