//! Black-and-white dithering of RGBA rasters.
//!
//! The crate converts a straight-alpha RGBA8 buffer into a two-level image
//! with one of eight strategies (plain threshold, ordered dithering and six
//! error-diffusion kernels), after an optional blur, pixelation and tone
//! mapping stage. Every function is proved against the mathematical model in
//! its contract.

mod image;
mod integral;
pub mod preprocess;
pub mod bayer;
pub mod blocks;
pub mod ordered;
pub mod threshold;
pub mod algorithms;
pub mod dither;
pub mod diffusion;
