//! The record codec and the two little-endian framings: exact encodings,
//! round trips, and the failure modes of decoding.

use kvs::codec::{decode_frame, encode_frame, Entry, Tag};
use kvs::manifest::{manifest_bytes, parse_manifest};
use kvs::server::{frame_message, read_header};
use kvs::KvError;

#[test]
fn frame_encoding_is_exact() {
    let entry = Entry::new("a".to_string(), "b".to_string(), Tag::Normal);
    let frame = encode_frame(&entry).unwrap();
    let expected = vec![
        11, 0, 0, 0, // frame length prefix: 11-byte body
        0, // tag: live record
        1, 0, 0, 0, // key length
        b'a', // key bytes
        1, 0, 0, 0, // value length
        b'b', // value bytes
    ];
    assert_eq!(frame, expected);
}

#[test]
fn tombstone_encoding_is_exact() {
    let entry = Entry::new("k".to_string(), String::new(), Tag::Deleted);
    let frame = encode_frame(&entry).unwrap();
    let expected = vec![10, 0, 0, 0, 1, 1, 0, 0, 0, b'k', 0, 0, 0, 0];
    assert_eq!(frame, expected);
}

#[test]
fn frame_round_trip() {
    let entry = Entry::new("ключ".to_string(), "значение ☃".to_string(), Tag::Normal);
    let frame = encode_frame(&entry).unwrap();
    let (decoded, consumed) = decode_frame(&frame, 0).unwrap();
    assert_eq!(consumed, frame.len());
    assert_eq!(decoded.key, "ключ");
    assert_eq!(decoded.value, "значение ☃");
    assert_eq!(decoded.tag, Tag::Normal);
}

#[test]
fn frame_round_trip_at_offset() {
    let first = Entry::new("one".to_string(), "1".to_string(), Tag::Normal);
    let second = Entry::new("two".to_string(), "2".to_string(), Tag::Deleted);
    let mut log = encode_frame(&first).unwrap();
    let off = log.len();
    log.extend_from_slice(&encode_frame(&second).unwrap());
    let (d1, l1) = decode_frame(&log, 0).unwrap();
    assert_eq!((d1.key.as_str(), l1), ("one", off));
    let (d2, l2) = decode_frame(&log, off).unwrap();
    assert_eq!(d2.key, "two");
    assert_eq!(d2.tag, Tag::Deleted);
    assert_eq!(off + l2, log.len());
}

#[test]
fn truncated_frame_fails_cleanly() {
    let entry = Entry::new("key".to_string(), "value".to_string(), Tag::Normal);
    let frame = encode_frame(&entry).unwrap();
    for cut in 0..frame.len() {
        let partial = frame[..cut].to_vec();
        let r = decode_frame(&partial, 0);
        assert!(matches!(r, Err(KvError::CodecError)), "cut at {}", cut);
    }
}

#[test]
fn unknown_tag_byte_is_a_codec_error() {
    // a well-framed body whose tag byte is neither 0 nor 1
    let body = vec![2u8, 0, 0, 0, 0, 0, 0, 0, 0];
    let mut frame = vec![9, 0, 0, 0];
    frame.extend_from_slice(&body);
    assert!(matches!(decode_frame(&frame, 0), Err(KvError::CodecError)));
}

#[test]
fn invalid_utf8_is_an_encoding_error() {
    // lengths all agree, but the single key byte is not UTF-8
    let body = vec![0u8, 1, 0, 0, 0, 0xFF, 0, 0, 0, 0];
    let mut frame = vec![10, 0, 0, 0];
    frame.extend_from_slice(&body);
    assert!(matches!(decode_frame(&frame, 0), Err(KvError::Utf8Error)));
}

#[test]
fn inconsistent_lengths_are_a_codec_error() {
    // the key length field points past the end of the body
    let body = vec![0u8, 200, 0, 0, 0, b'a', 0, 0, 0, 0];
    let mut frame = vec![10, 0, 0, 0];
    frame.extend_from_slice(&body);
    assert!(matches!(decode_frame(&frame, 0), Err(KvError::CodecError)));
}

#[test]
fn manifest_round_trip() {
    for id in [0u32, 1, 7, 0x0102_0304, u32::MAX] {
        let bytes = manifest_bytes(id);
        assert_eq!(bytes.len(), 4);
        assert_eq!(parse_manifest(&bytes), Some(id));
    }
    assert_eq!(manifest_bytes(1), vec![1, 0, 0, 0]);
    assert_eq!(parse_manifest(&vec![0, 0, 0]), None);
    assert_eq!(parse_manifest(&Vec::new()), None);
}

#[test]
fn wire_framing_round_trip() {
    let payload = b"{\"action\":\"GET\",\"key\":\"foo\",\"value\":\"\"}".to_vec();
    let framed = frame_message(&payload).unwrap();
    assert_eq!(framed.len(), 4 + payload.len());
    let header = framed[..4].to_vec();
    let n = read_header(&header).unwrap() as usize;
    assert_eq!(n, payload.len());
    assert_eq!(&framed[4..], &payload[..]);
    assert_eq!(read_header(&vec![1, 2, 3]), None);
}
