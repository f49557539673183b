//! Tests of the viewer's bitmap: the canvas extent comes from the
//! largest coordinates, not from the declared dimensions.

use sigma::records::PixelRecord;
use sigma::render::render_records;

#[test]
fn empty_records_render_nothing() {
    let records: Vec<PixelRecord> = Vec::new();
    assert!(render_records(&records).is_none());
}

#[test]
fn extent_follows_largest_coordinates() {
    let records = vec![
        PixelRecord { r: 255, g: 0, b: 0, a: 255, x: 1, y: 2 },
        PixelRecord { r: 0, g: 255, b: 0, a: 128, x: 0, y: 0 },
    ];
    let img = render_records(&records).unwrap();
    assert_eq!(img.width, 2);
    assert_eq!(img.height, 3);
    assert_eq!(img.rgba.len(), 24);
    // (0, 0) holds the second record
    assert_eq!(&img.rgba[0..4], &[0, 255, 0, 128]);
    // (1, 2) holds the first record
    assert_eq!(&img.rgba[20..24], &[255, 0, 0, 255]);
    // everything else stays zero
    assert_eq!(&img.rgba[4..20], &[0u8; 16]);
}

#[test]
fn zero_alpha_records_are_still_painted() {
    let records = vec![PixelRecord { r: 9, g: 8, b: 7, a: 0, x: 0, y: 0 }];
    let img = render_records(&records).unwrap();
    assert_eq!(img.width, 1);
    assert_eq!(img.height, 1);
    assert_eq!(&img.rgba[..], &[9, 8, 7, 0]);
}
