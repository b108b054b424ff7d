//! Body decoder tests: fixed-length counting, the chunked state machine,
//! and the chunk-size line parser.

use stomp::body::{encode_chunked, read_next_chunk_size, BodyDecoder, BodyRead};
use stomp::error::StompError;

#[test]
fn fixed_zero_is_end_of_stream_immediately() {
    let mut d = BodyDecoder::fixed(0);
    let (outcome, pos) = d.read(b"anything", 0, 8).unwrap();
    assert_eq!(outcome, BodyRead::EndOfStream);
    assert_eq!(pos, 0);
    // and it stays that way
    let (again, pos2) = d.read(b"anything", 0, 8).unwrap();
    assert_eq!(again, BodyRead::EndOfStream);
    assert_eq!(pos2, 0);
}

#[test]
fn fixed_counts_down_to_end_of_stream() {
    let mut d = BodyDecoder::fixed(5);
    let (first, p1) = d.read(b"hello!!", 0, 3).unwrap();
    assert_eq!(first, BodyRead::Data(b"hel".to_vec()));
    assert_eq!(p1, 3);
    let (second, p2) = d.read(b"hello!!", p1, 99).unwrap();
    assert_eq!(second, BodyRead::Data(b"lo".to_vec()));
    assert_eq!(p2, 5);
    let (end, p3) = d.read(b"hello!!", p2, 99).unwrap();
    assert_eq!(end, BodyRead::EndOfStream);
    assert_eq!(p3, 5);
}

#[test]
fn fixed_short_transport_fails() {
    let mut d = BodyDecoder::fixed(10);
    let err = d.read(b"short", 0, 10).unwrap_err();
    assert_eq!(err, StompError::TransportError);
}

#[test]
fn chunk_size_line_parses_hex() {
    assert_eq!(read_next_chunk_size(b"ff\r\nrest", 0).unwrap(), (255, 4));
    assert_eq!(read_next_chunk_size(b"0\r\n", 0).unwrap(), (0, 3));
    assert_eq!(read_next_chunk_size(b"1A2b\r\n", 0).unwrap(), (0x1a2b, 6));
}

#[test]
fn chunk_size_line_tolerates_bare_line_feed() {
    assert_eq!(read_next_chunk_size(b"a\n", 0).unwrap(), (10, 2));
}

#[test]
fn chunk_size_line_discards_extension() {
    assert_eq!(read_next_chunk_size(b"5;name=value\r\nhello", 0).unwrap(), (5, 14));
}

#[test]
fn chunk_size_line_of_seventeen_digits_is_too_long() {
    let err = read_next_chunk_size(b"12345678901234567\r\n", 0).unwrap_err();
    assert_eq!(
        err,
        StompError::ChunkSizeLineTooLong(b"1234567890123456".to_vec())
    );
}

#[test]
fn sixteen_digit_chunk_size_is_accepted() {
    let (v, pos) = read_next_chunk_size(b"0000000000000010\r\n", 0).unwrap();
    assert_eq!(v, 16);
    assert_eq!(pos, 18);
}

#[test]
fn invalid_chunk_byte_is_fatal() {
    let err = read_next_chunk_size(b"zz\r\n", 0).unwrap_err();
    assert_eq!(err, StompError::InvalidChunkByte(b"".to_vec(), b'z'));
    let err2 = read_next_chunk_size(b"5x\r\n", 0).unwrap_err();
    assert_eq!(err2, StompError::InvalidChunkByte(b"5".to_vec(), b'x'));
}

#[test]
fn empty_chunk_size_line_is_invalid() {
    let err = read_next_chunk_size(b"\r\n", 0).unwrap_err();
    assert_eq!(err, StompError::InvalidChunkByte(b"".to_vec(), 13));
}

#[test]
fn truncated_chunk_size_line_is_transport_error() {
    assert_eq!(
        read_next_chunk_size(b"5", 0).unwrap_err(),
        StompError::TransportError
    );
    assert_eq!(
        read_next_chunk_size(b"5\r", 0).unwrap_err(),
        StompError::TransportError
    );
}

#[test]
fn chunk_reconstruction() {
    let chunks = vec![b"hello".to_vec(), b" ".to_vec(), b"world".to_vec()];
    let stream = encode_chunked(&chunks);
    assert_eq!(stream, b"5\r\nhello\r\n1\r\n \r\n5\r\nworld\r\n0\r\n\r\n".to_vec());
    let mut d = BodyDecoder::chunked();
    let (body, end) = d.read_to_end(&stream, 0).unwrap();
    assert_eq!(body, b"hello world".to_vec());
    assert_eq!(end, stream.len());
}

#[test]
fn chunked_single_empty_list_is_just_the_terminal() {
    let stream = encode_chunked(&vec![]);
    assert_eq!(stream, b"0\r\n\r\n".to_vec());
    let mut d = BodyDecoder::chunked();
    let (body, end) = d.read_to_end(&stream, 0).unwrap();
    assert!(body.is_empty());
    assert_eq!(end, 5);
}

#[test]
fn chunked_step_by_step_reads() {
    let stream = b"3\r\nabc\r\n0\r\n\r\n";
    let mut d = BodyDecoder::chunked();
    // the first read parses the size line and enters the chunk
    let (first, p1) = d.read(stream, 0, 2).unwrap();
    assert_eq!(first, BodyRead::Data(b"".to_vec()));
    assert_eq!(p1, 3);
    // a small request takes part of the chunk
    let (second, p2) = d.read(stream, p1, 2).unwrap();
    assert_eq!(second, BodyRead::Data(b"ab".to_vec()));
    assert_eq!(p2, 5);
    // the rest of the chunk, and its trailer, are consumed
    let (third, p3) = d.read(stream, p2, 2).unwrap();
    assert_eq!(third, BodyRead::Data(b"c".to_vec()));
    assert_eq!(p3, 8);
    // the terminal chunk ends the stream
    let (end, p4) = d.read(stream, p3, 2).unwrap();
    assert_eq!(end, BodyRead::EndOfStream);
    assert_eq!(p4, stream.len());
}

#[test]
fn chunked_missing_trailer_is_transport_error() {
    let mut d = BodyDecoder::chunked();
    let err = d.read_to_end(b"3\r\nabc", 0).unwrap_err();
    assert_eq!(err, StompError::TransportError);
}

#[test]
fn chunked_truncated_payload_is_transport_error() {
    let mut d = BodyDecoder::chunked();
    let err = d.read_to_end(b"5\r\nab", 0).unwrap_err();
    assert_eq!(err, StompError::TransportError);
}
