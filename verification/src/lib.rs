//! Conversions between the segmentation representations of an
//! object-detection annotation format: dense binary masks, run-length
//! encodings (RLE), a compact ASCII-encoded RLE, and polygon contours.
//!
//! The run-length counts traverse the mask in column-major order and
//! alternate background/foreground runs, starting with background.

pub mod coco;
pub mod convert;
pub mod draw;
pub mod errors;
pub mod mask;
pub mod masks;
pub mod poly;
pub mod rle_codec;
