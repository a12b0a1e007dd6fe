//! Black/white Floyd–Steinberg error-diffusion dithering of an 8-bit RGB raster.
//!
//! All arithmetic is exact integer arithmetic: diffusion weights are counted in
//! sixteenths, and a diffused channel value is truncated toward zero and then
//! saturated to `[0, 255]`.
pub mod buffer;
pub mod diffusion;
pub mod pixel;
pub mod raster;
