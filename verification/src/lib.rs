//! Adaptive block-based contrast enhancement for 8-bit raster images.
//!
//! The verified core covers the integer parts of the pipeline: the
//! fixed-point HSV colour transform, the block tiling of the image,
//! histogram counting and luminance statistics, input validation, and the
//! final colour write-back. The floating-point enhancement curves built on
//! top of these (probability redistribution and the dual-gamma lookup
//! tables) live with the unverified caller.

pub mod color;
pub mod grid;
pub mod stats;
pub mod image;
