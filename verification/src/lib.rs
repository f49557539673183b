//! Codec for the sigma image format: a two-line text format holding image
//! dimensions and a sparse list of RGBA pixel records, optionally
//! gzip-compressed.

pub mod ascii;
pub mod scan;
pub mod records;
pub mod decode;
pub mod grid;
pub mod encode;
pub mod gzip;
pub mod render;
pub mod roundtrip;

pub use gzip::is_compressed;
