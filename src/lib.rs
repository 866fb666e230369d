//! Byte-range editing of firmware images: cut a range out of a buffer,
//! stitch buffers together at fixed offsets, graft one buffer into another,
//! and convert buffers to and from Intel HEX text.

pub mod buffer;
pub mod edit;
pub mod fill;
pub mod format;
pub mod intelhex;
pub mod offset;
pub mod range;
pub mod stitch;
