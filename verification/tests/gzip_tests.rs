//! Tests of compression handling: detection, transparency of decoding,
//! and the compressed encode path.

use flate2::write::GzEncoder;
use flate2::Compression;
use std::io::Write;

use sigma::grid::{Grid, Pixel};
use sigma::gzip::{decode_sigma, encode_sigma, is_compressed};

fn gzip_bytes(data: &[u8]) -> Vec<u8> {
    let mut encoder = GzEncoder::new(Vec::new(), Compression::new(9));
    encoder.write_all(data).unwrap();
    encoder.finish().unwrap()
}

#[test]
fn detects_compressed_bytes() {
    let packed = gzip_bytes(b"2 2\n[1,2,3,4,0,0]");
    assert!(is_compressed(&packed));
}

#[test]
fn detects_plain_bytes() {
    assert!(!is_compressed(b"2 2\n[1,2,3,4,0,0]"));
    assert!(!is_compressed(b""));
    assert!(!is_compressed(b"\x1f\x8b not really gzip"));
}

#[test]
fn decoding_is_compression_transparent() {
    let plain = b"3 4\n[10,20,30,255,1,2],[5,6,7,8,0,0]";
    let packed = gzip_bytes(plain);
    let from_plain = decode_sigma(plain).unwrap();
    let from_packed = decode_sigma(&packed).unwrap();
    assert_eq!(from_plain.height, from_packed.height);
    assert_eq!(from_plain.width, from_packed.width);
    assert_eq!(from_plain.pixels, from_packed.pixels);
}

#[test]
fn compressed_encode_round_trips() {
    let mut g = Grid::new(2, 3);
    g.set(1, 2, Pixel { r: 11, g: 22, b: 33, a: 44 });
    let packed = encode_sigma(&g, true);
    assert!(is_compressed(&packed));
    let doc = decode_sigma(&packed).unwrap();
    assert_eq!(doc.height, 3);
    assert_eq!(doc.width, 2);
    assert_eq!(doc.pixels.len(), 1);
    assert_eq!(doc.pixels[0].x, 1);
    assert_eq!(doc.pixels[0].y, 2);
}

#[test]
fn plain_encode_matches_text() {
    let mut g = Grid::new(1, 1);
    g.set(0, 0, Pixel { r: 1, g: 2, b: 3, a: 4 });
    let out = encode_sigma(&g, false);
    assert_eq!(out, b"1 1\n[1,2,3,4,0,0]".to_vec());
    assert!(!is_compressed(&out));
}
