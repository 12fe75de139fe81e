//! PCM to DSD conversion: the verified accounting core.
//!
//! The library holds the integer logic of a PCM-to-1-bit (DSD) audio
//! converter: the container header layout, the MSB-first bit packer with
//! its block buffering, and the frame-by-frame driver plan (startup delay,
//! short final frame, output truncation). The floating-point signal path
//! (FFT resampler and delta-sigma modulator) lives outside the library.

pub mod driver;
pub mod filewriter;
pub mod helpers;
