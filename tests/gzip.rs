use std::io::Write;

use flate2::write::GzEncoder;
use flate2::Compression;
use gzcat_logs::{decompress_into, SegmentDecoder};

fn compress(data: &[u8]) -> Vec<u8> {
    let mut e = GzEncoder::new(Vec::new(), Compression::default());
    e.write_all(data).unwrap();
    e.finish().unwrap()
}

fn decode_in_chunks(data: &[u8], chunk: usize) -> Result<Vec<u8>, String> {
    let mut d = SegmentDecoder::new();
    let mut out = Vec::new();
    for piece in data.chunks(chunk) {
        out.extend(d.feed(piece)?);
    }
    out.extend(d.finish()?);
    Ok(out)
}

#[test]
fn decompress_test() {
    let buffer = [
        0x1f, 0x8b, 0x8, 0x8, 0x60, 0x6d, 0xd8, 0x62, 0x0, 0x3, 0x69, 0x6e, 0x2e, 0x74, 0x78,
        0x74, 0x0, 0xf3, 0x48, 0xcd, 0xc9, 0xc9, 0x57, 0x8, 0xcf, 0x2f, 0xca, 0x49, 0xe1, 0x2,
        0x0, 0xe3, 0xe5, 0x95, 0xb0, 0xc, 0x0, 0x0, 0x0,
    ];

    let mut writer_buf: Vec<u8> = Vec::new();

    decompress_into(&buffer, &mut writer_buf).unwrap();

    let got = String::from_utf8(writer_buf).unwrap();
    let expected = String::from("Hello World\n");

    assert_eq!(got, expected);
}

#[test]
fn decompress_byte_by_byte() {
    let text: Vec<u8> = (0..20000u32).map(|i| (i % 251) as u8).collect();
    let packed = compress(&text);
    assert_eq!(decode_in_chunks(&packed, 1).unwrap(), text);
    assert_eq!(decode_in_chunks(&packed, 4096).unwrap(), text);
}

#[test]
fn decompress_empty_stream() {
    let packed = compress(b"");
    assert_eq!(decode_in_chunks(&packed, 7).unwrap(), Vec::<u8>::new());
}

#[test]
fn bytes_after_the_stream_are_ignored() {
    let mut packed = compress(b"first");
    packed.extend_from_slice(b"trailing bytes");
    assert_eq!(decode_in_chunks(&packed, 3).unwrap(), b"first".to_vec());
}

#[test]
fn bad_magic_fails() {
    let r = decode_in_chunks(b"this is not gzip at all", 5);
    assert!(r.is_err());
}

#[test]
fn truncated_stream_fails() {
    let packed = compress(b"Hello World\n");
    let r = decode_in_chunks(&packed[..packed.len() - 4], 8);
    assert!(r.is_err());
}

#[test]
fn checksum_mismatch_fails() {
    let mut packed = compress(b"Hello World\n");
    let n = packed.len();
    packed[n - 8] ^= 0xff;
    let r = decode_in_chunks(&packed, 8);
    assert!(r.is_err());
}

#[test]
fn decompress_into_appends_to_sink() {
    let mut sink = b"old:".to_vec();
    decompress_into(&compress(b"new"), &mut sink).unwrap();
    assert_eq!(sink, b"old:new".to_vec());
}

#[test]
fn decompress_into_ignores_trailing_bytes() {
    let mut packed = compress(b"member");
    packed.extend_from_slice(&compress(b"second"));
    let mut sink = Vec::new();
    decompress_into(&packed, &mut sink).unwrap();
    assert_eq!(sink, b"member".to_vec());
}

#[test]
fn decompress_into_rejects_bad_input() {
    let mut sink = b"kept".to_vec();
    assert!(decompress_into(b"not gzip", &mut sink).is_err());
    assert!(sink.starts_with(b"kept"));
    let packed = compress(b"Hello World\n");
    assert!(decompress_into(&packed[..packed.len() - 1], &mut sink).is_err());
    assert!(decompress_into(&[], &mut sink).is_err());
    assert!(sink.starts_with(b"kept"));
}

#[test]
fn decoder_stays_failed() {
    let mut d = SegmentDecoder::new();
    assert!(d.feed(b"this is not gzip at all").is_err());
    assert!(d.feed(&compress(b"x")).is_err());
    assert!(d.finish().is_err());
}
