//! Build-time texture atlas packing.
//!
//! Given a set of decoded RGBA8 images, the library decides non-overlapping
//! placements on a canvas of fixed width and grown height, composites the
//! source pixels into one output buffer, and serializes placement metadata
//! to a stable little-endian binary layout. Reading the input files and
//! writing the finished archive to disk are left to the caller.

pub mod atlas;
pub mod codec;
pub mod geometry;
pub mod records;
