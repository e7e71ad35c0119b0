//! Radix-4 fast Fourier transform over any value type that provides the
//! arithmetic steps of a 4-point butterfly.
//!
//! The input is zero-padded to the next power of four, run through the
//! in-place butterfly network stage by stage, and reordered by base-4 digit
//! reversal into natural frequency order. The index arithmetic of all three
//! steps is verified: every access is in bounds, every loop ends, and the
//! padding and reordering are stated exactly.
pub mod digits;
pub mod fft;

pub use fft::{fft, FourierValue};
