//! Typed failures of the conversion codec and of the conversion
//! dispatcher.

use vstd::prelude::*;

verus! {

/// Which of the four segmentation representations a value uses; names
/// the endpoints of an unsupported conversion.
#[derive(Debug, PartialEq, Eq, Structural, Clone, Copy)]
pub enum SegmentationKind {
    Rle,
    EncodedRle,
    PolygonRS,
    Polygon,
}

/// A failure while converting segmentations.
#[derive(Debug)]
pub enum MaskError {
    /// A computed byte value cannot fit the target width during
    /// encoding; carries the offending value.
    IntConversion(i64),
    /// Assembled encoded bytes are not valid text; carries the bytes.
    StrConversion(Vec<u8>),
    /// An encoded RLE string is rejected at the start of decoding: it
    /// is not ASCII in the byte range 48-111, an integer runs past its
    /// longest allowed form or past the end of the string, or a
    /// reconstructed run length does not fit a 32-bit count. Carries
    /// the offending string.
    InvalidEncodedRle(String),
    /// The conversion matrix has no implementation for this pair.
    UnsupportedConversion(SegmentationKind, SegmentationKind),
}

} // verus!
