//! Two-stage image color reduction: a K-means clustering engine that derives
//! a small palette from an image's pixels, and a Floyd-Steinberg
//! error-diffusion ditherer that re-renders a pixel buffer with that palette.

pub mod cluster;
pub mod dither;
pub mod rng;
pub mod sample;
