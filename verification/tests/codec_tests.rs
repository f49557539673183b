//! Tests of the sigma codec: encoding, decoding, and the strictness and
//! tolerance rules of the format.

use sigma::decode::{decode_sigma_text, parse_pixel_group};
use sigma::encode::encode_sigma_text;
use sigma::grid::{document_to_grid, Grid, Pixel};
use sigma::records::{PixelRecord, SigmaError};

fn sample_grid() -> Grid {
    let mut g = Grid::new(2, 2);
    g.set(0, 0, Pixel { r: 255, g: 0, b: 0, a: 255 });
    g.set(1, 0, Pixel { r: 7, g: 8, b: 9, a: 0 });
    g.set(0, 1, Pixel { r: 0, g: 255, b: 0, a: 128 });
    g.set(1, 1, Pixel { r: 0, g: 0, b: 255, a: 255 });
    g
}

#[test]
fn encode_example_grid() {
    let g = sample_grid();
    let out = encode_sigma_text(&g);
    let expected = b"2 2\n[255,0,0,255,0,0],[0,255,0,128,0,1],[0,0,255,255,1,1]".to_vec();
    assert_eq!(out, expected);
}

#[test]
fn decode_example_text() {
    let text = b"2 2\n[255,0,0,255,0,0],[0,255,0,128,0,1],[0,0,255,255,1,1]";
    let doc = decode_sigma_text(text).unwrap();
    assert_eq!(doc.height, 2);
    assert_eq!(doc.width, 2);
    assert_eq!(
        doc.pixels,
        vec![
            PixelRecord { r: 255, g: 0, b: 0, a: 255, x: 0, y: 0 },
            PixelRecord { r: 0, g: 255, b: 0, a: 128, x: 0, y: 1 },
            PixelRecord { r: 0, g: 0, b: 255, a: 255, x: 1, y: 1 },
        ]
    );
}

#[test]
fn round_trip_example_grid() {
    let g = sample_grid();
    let out = encode_sigma_text(&g);
    let doc = decode_sigma_text(&out).unwrap();
    let back = document_to_grid(&doc).unwrap();
    assert_eq!(back.width, 2);
    assert_eq!(back.height, 2);
    assert_eq!(back.get(0, 0), Pixel { r: 255, g: 0, b: 0, a: 255 });
    // the fully transparent pixel loses its color channels
    assert_eq!(back.get(1, 0), Pixel { r: 0, g: 0, b: 0, a: 0 });
    assert_eq!(back.get(0, 1), Pixel { r: 0, g: 255, b: 0, a: 128 });
    assert_eq!(back.get(1, 1), Pixel { r: 0, g: 0, b: 255, a: 255 });
}

#[test]
fn non_square_dimensions_round_trip() {
    // three wide, two high: the first line carries height before width
    let mut g = Grid::new(3, 2);
    g.set(2, 0, Pixel { r: 1, g: 2, b: 3, a: 4 });
    let out = encode_sigma_text(&g);
    assert_eq!(&out[..4], b"2 3\n");
    let doc = decode_sigma_text(&out).unwrap();
    assert_eq!(doc.height, 2);
    assert_eq!(doc.width, 3);
    assert_eq!(doc.pixels, vec![PixelRecord { r: 1, g: 2, b: 3, a: 4, x: 2, y: 0 }]);
}

#[test]
fn dimensions_line_zero_tokens() {
    let r = decode_sigma_text(b"\n[1,2,3,4,0,0]");
    assert_eq!(r.unwrap_err(), SigmaError::InvalidDimensions);
}

#[test]
fn dimensions_line_one_token() {
    let r = decode_sigma_text(b"5\n[1,2,3,4,0,0]");
    assert_eq!(r.unwrap_err(), SigmaError::InvalidDimensions);
}

#[test]
fn dimensions_line_three_tokens() {
    let r = decode_sigma_text(b"5 5 5\n[1,2,3,4,0,0]");
    assert_eq!(r.unwrap_err(), SigmaError::InvalidDimensions);
}

#[test]
fn dimensions_line_extra_whitespace() {
    let doc = decode_sigma_text(b"  7   9  \n[1,2,3,4,0,0]").unwrap();
    assert_eq!(doc.height, 7);
    assert_eq!(doc.width, 9);
}

#[test]
fn dimensions_line_non_numeric_tokens_are_dropped() {
    let doc = decode_sigma_text(b"4 x 6\n[1,2,3,4,0,0]").unwrap();
    assert_eq!(doc.height, 4);
    assert_eq!(doc.width, 6);
}

#[test]
fn single_line_is_rejected() {
    let r = decode_sigma_text(b"2 2");
    assert_eq!(r.unwrap_err(), SigmaError::MissingPixelData);
}

#[test]
fn empty_input_is_rejected() {
    let r = decode_sigma_text(b"");
    assert_eq!(r.unwrap_err(), SigmaError::MissingPixelData);
}

#[test]
fn malformed_group_is_skipped() {
    let doc = decode_sigma_text(b"9 9\n[10,20,30,255,5,5],[1,2]").unwrap();
    assert_eq!(doc.pixels, vec![PixelRecord { r: 10, g: 20, b: 30, a: 255, x: 5, y: 5 }]);
}

#[test]
fn group_with_overlarge_value_is_skipped() {
    // 256 does not fit one byte, so only five values survive
    let doc = decode_sigma_text(b"9 9\n[256,1,2,3,0,0]").unwrap();
    assert_eq!(doc.pixels, vec![]);
}

#[test]
fn group_whitespace_is_tolerated() {
    let doc = decode_sigma_text(b"9 9\n[ 10 , 20 ,30, 255, 1 , 2 ]").unwrap();
    assert_eq!(doc.pixels, vec![PixelRecord { r: 10, g: 20, b: 30, a: 255, x: 1, y: 2 }]);
}

#[test]
fn group_extra_values_are_ignored() {
    let doc = decode_sigma_text(b"9 9\n[1,2,3,4,5,6,7,8]").unwrap();
    assert_eq!(doc.pixels, vec![PixelRecord { r: 1, g: 2, b: 3, a: 4, x: 5, y: 6 }]);
}

#[test]
fn parse_group_directly() {
    assert_eq!(
        parse_pixel_group(b"[1,2,3,4,5,6]"),
        Some(PixelRecord { r: 1, g: 2, b: 3, a: 4, x: 5, y: 6 })
    );
    assert_eq!(parse_pixel_group(b"[1,2]"), None);
    assert_eq!(parse_pixel_group(b""), None);
}

#[test]
fn out_of_bounds_records_are_dropped() {
    let doc = decode_sigma_text(b"2 2\n[1,2,3,255,5,5],[9,9,9,255,1,2]").unwrap();
    assert_eq!(doc.pixels.len(), 2);
    let g = document_to_grid(&doc).unwrap();
    assert_eq!(g.width, 2);
    assert_eq!(g.height, 2);
    for y in 0..2 {
        for x in 0..2 {
            assert_eq!(g.get(x, y), Pixel { r: 0, g: 0, b: 0, a: 0 });
        }
    }
}

#[test]
fn zero_alpha_record_is_not_placed() {
    let doc = decode_sigma_text(b"2 2\n[9,9,9,0,0,0]").unwrap();
    let g = document_to_grid(&doc).unwrap();
    assert_eq!(g.get(0, 0), Pixel { r: 0, g: 0, b: 0, a: 0 });
}

#[test]
fn later_record_wins() {
    let doc = decode_sigma_text(b"2 2\n[1,1,1,255,0,0],[2,2,2,255,0,0]").unwrap();
    let g = document_to_grid(&doc).unwrap();
    assert_eq!(g.get(0, 0), Pixel { r: 2, g: 2, b: 2, a: 255 });
}

#[test]
fn encode_empty_grid_has_no_pixel_data() {
    let g = Grid::new(2, 2);
    let out = encode_sigma_text(&g);
    assert_eq!(out, b"2 2\n".to_vec());
}

#[test]
fn coordinate_255_round_trips() {
    let mut g = Grid::new(256, 1);
    g.set(255, 0, Pixel { r: 1, g: 2, b: 3, a: 255 });
    let out = encode_sigma_text(&g);
    let doc = decode_sigma_text(&out).unwrap();
    assert_eq!(doc.pixels, vec![PixelRecord { r: 1, g: 2, b: 3, a: 255, x: 255, y: 0 }]);
}

#[test]
fn coordinate_past_255_does_not_round_trip() {
    // a coordinate that does not fit one byte fails to parse, so the whole
    // group falls short of six values and is dropped
    let mut g = Grid::new(300, 1);
    g.set(299, 0, Pixel { r: 1, g: 2, b: 3, a: 255 });
    let out = encode_sigma_text(&g);
    let doc = decode_sigma_text(&out).unwrap();
    assert_eq!(doc.pixels, vec![]);
}

#[test]
fn plus_sign_is_accepted_in_dimensions() {
    let doc = decode_sigma_text(b"+3 +4\n[1,2,3,4,0,0]").unwrap();
    assert_eq!(doc.height, 3);
    assert_eq!(doc.width, 4);
}

#[test]
fn crlf_line_ending_is_tolerated() {
    let doc = decode_sigma_text(b"2 2\r\n[1,2,3,4,0,0]").unwrap();
    assert_eq!(doc.height, 2);
    assert_eq!(doc.pixels.len(), 1);
}
