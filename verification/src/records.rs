//! Data model of the sigma format: pixel records, decoded documents, and
//! the decode error kinds.

use vstd::prelude::*;

verus! {

/// One pixel of the sparse list: color channels and position.
#[derive(Clone, Copy, PartialEq, Eq, Structural, Debug)]
pub struct PixelRecord {
    pub r: u8,
    pub g: u8,
    pub b: u8,
    pub a: u8,
    pub x: u32,
    pub y: u32,
}

/// A structural fault of a sigma body; per-pixel faults are tolerated and
/// never reported.
#[derive(Clone, Copy, PartialEq, Eq, Structural, Debug)]
pub enum SigmaError {
    /// The body holds fewer than two lines, so there is no pixel-data line.
    MissingPixelData,
    /// The dimensions line does not hold exactly two numeric tokens.
    InvalidDimensions,
}

/// A decoded sigma document: the declared dimensions (height before width)
/// and the pixel records in encounter order.
#[derive(Debug)]
pub struct SigmaDoc {
    pub height: u32,
    pub width: u32,
    pub pixels: Vec<PixelRecord>,
}

pub ghost struct SigmaDocV {
    pub height: u32,
    pub width: u32,
    pub pixels: Seq<PixelRecord>,
}

impl View for SigmaDoc {
    type V = SigmaDocV;

    open spec fn view(&self) -> SigmaDocV {
        SigmaDocV { height: self.height, width: self.width, pixels: self.pixels@ }
    }
}

} // verus!
