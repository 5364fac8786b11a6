//! Byte codecs: hex, varints, deltas and pkt-line framing.

use gitbruv::delta::{apply_delta, make_delta, read_varint, read_ofs_delta_offset};
use gitbruv::hex::{hex_encode, hex_decode};
use gitbruv::pkt::{pkt_encode, pkt_parse, parse_pkt_lines, PktPart, trim_bytes};
use gitbruv::commit::parse_i64;

#[test]
fn hex_round_trip() {
    let data = vec![0u8, 1, 15, 16, 127, 128, 255];
    let enc = hex_encode(&data);
    assert_eq!(enc, b"00010f107f80ff".to_vec());
    let dec = hex_decode(&enc).unwrap();
    assert_eq!(dec, data);
}

#[test]
fn hex_decode_rejects() {
    assert!(hex_decode(b"abc").is_none());
    assert!(hex_decode(b"zz").is_none());
    assert!(hex_decode(b"AB").is_none());
    assert_eq!(hex_decode(b"").unwrap(), Vec::<u8>::new());
}

#[test]
fn hex_against_reference() {
    let data: Vec<u8> = (0u8..=255).collect();
    let ours = String::from_utf8(hex_encode(&data)).unwrap();
    assert_eq!(ours, hex::encode(&data));
}

#[test]
fn varint_reads() {
    assert_eq!(read_varint(&[0x00]), Some((0, 1)));
    assert_eq!(read_varint(&[0x7f]), Some((127, 1)));
    assert_eq!(read_varint(&[0x80, 0x01]), Some((128, 2)));
    assert_eq!(read_varint(&[0xff, 0x01]), Some((255, 2)));
    assert_eq!(read_varint(&[]), None);
    assert_eq!(read_varint(&[0x80]), None);
}

#[test]
fn ofs_delta_offset_reads() {
    assert_eq!(read_ofs_delta_offset(&[0x05]), Some((5, 1)));
    // Two-byte form: ((0x81 & 0x7f) + 1) * 128 + 0x02.
    assert_eq!(read_ofs_delta_offset(&[0x81, 0x02]), Some((258, 2)));
    assert_eq!(read_ofs_delta_offset(&[]), None);
}

#[test]
fn delta_copy_and_insert() {
    // The scenario delta: source 12, target 11 wait: copy six bytes of
    // "hello world\n" then insert "there!".
    let base = b"hello world\n".to_vec();
    let mut delta = vec![12u8, 12u8];
    delta.push(0x91); // COPY with one offset byte and one size byte
    delta.push(0); // offset 0
    delta.push(6); // size 6
    delta.push(6); // INSERT of six bytes
    delta.extend_from_slice(b"there!");
    let out = apply_delta(&base, &delta).unwrap();
    assert_eq!(out, b"hello there!".to_vec());
}

#[test]
fn delta_length_must_match() {
    let base = b"abc".to_vec();
    // Headers claim a target of 2 but the instructions insert 1 byte.
    let delta = vec![3u8, 2u8, 1u8, b'x'];
    assert!(apply_delta(&base, &delta).is_none());
}

#[test]
fn delta_zero_command_rejected() {
    let base = b"abc".to_vec();
    let delta = vec![3u8, 1u8, 0u8];
    assert!(apply_delta(&base, &delta).is_none());
}

#[test]
fn delta_copy_out_of_bounds_rejected() {
    let base = b"ab".to_vec();
    let mut delta = vec![2u8, 3u8];
    delta.push(0x91);
    delta.push(0);
    delta.push(3); // copies three bytes of a two-byte base
    assert!(apply_delta(&base, &delta).is_none());
}

#[test]
fn make_delta_round_trip() {
    let base = b"any base at all".to_vec();
    let target = b"the exact target bytes, arbitrary".to_vec();
    let delta = make_delta(&base, &target);
    assert_eq!(apply_delta(&base, &delta).unwrap(), target);
}

#[test]
fn make_delta_round_trip_large() {
    let base = Vec::new();
    let target: Vec<u8> = (0..1000u32).map(|i| (i % 251) as u8).collect();
    let delta = make_delta(&base, &target);
    assert_eq!(apply_delta(&base, &delta).unwrap(), target);
}

#[test]
fn pkt_round_trip_preserves_flush() {
    let parts = vec![
        PktPart::Line(b"want 1111111111111111111111111111111111111111\n".to_vec()),
        PktPart::Flush,
        PktPart::Line(b"done\n".to_vec()),
        PktPart::Flush,
    ];
    let encoded = pkt_encode(&parts);
    let decoded = pkt_parse(&encoded);
    assert_eq!(decoded.len(), 4);
    match &decoded[0] {
        PktPart::Line(p) => {
            assert_eq!(p, &b"want 1111111111111111111111111111111111111111\n".to_vec())
        }
        PktPart::Flush => panic!("expected a line"),
    }
    assert!(matches!(decoded[1], PktPart::Flush));
    match &decoded[2] {
        PktPart::Line(p) => assert_eq!(p, &b"done\n".to_vec()),
        PktPart::Flush => panic!("expected a line"),
    }
    assert!(matches!(decoded[3], PktPart::Flush));
}

#[test]
fn pkt_encode_exact_bytes() {
    let parts = vec![PktPart::Line(b"NAK\n".to_vec()), PktPart::Flush];
    assert_eq!(pkt_encode(&parts), b"0008NAK\n0000".to_vec());
}

#[test]
fn pkt_parse_stops_at_short_frame() {
    let decoded = pkt_parse(b"0008NAK\n00");
    assert_eq!(decoded.len(), 1);
}

#[test]
fn pkt_lines_trim_and_drop_flush() {
    let parts = vec![
        PktPart::Line(b"want abc \n".to_vec()),
        PktPart::Flush,
        PktPart::Line(b"have def\n".to_vec()),
    ];
    let body = pkt_encode(&parts);
    let lines = parse_pkt_lines(&body);
    assert_eq!(lines, vec!["want abc".to_string(), "have def".to_string()]);
}

#[test]
fn trimming() {
    assert_eq!(trim_bytes(b"  a b \n"), b"a b".to_vec());
    assert_eq!(trim_bytes(b"\t\r\n"), Vec::<u8>::new());
    assert_eq!(trim_bytes(b"x"), b"x".to_vec());
}

#[test]
fn parse_i64_values() {
    assert_eq!(parse_i64(b"0"), Some(0));
    assert_eq!(parse_i64(b"1700000000"), Some(1700000000));
    assert_eq!(parse_i64(b"-5"), Some(-5));
    assert_eq!(parse_i64(b"+7"), Some(7));
    assert_eq!(parse_i64(b"9223372036854775807"), Some(i64::MAX));
    assert_eq!(parse_i64(b"-9223372036854775808"), Some(i64::MIN));
    assert_eq!(parse_i64(b"9223372036854775808"), None);
    assert_eq!(parse_i64(b""), None);
    assert_eq!(parse_i64(b"12a"), None);
}
