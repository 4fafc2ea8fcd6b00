//! A vibrato audio effect, verified.
//!
//! A vibrato is a pitch wobble produced by reading a delayed copy of a signal
//! through a delay whose length is modulated by a low-frequency oscillator.
//! All signal arithmetic is exact fixed-point: a sample is an `i64` holding a
//! value scaled by [`fixed::FP_ONE`], so `FP_ONE` itself stands for `1.0`.
//! Callers that work in floating point convert at the boundary.

pub mod fixed;
pub mod delay_line;
pub mod lfo;
pub mod vibrato;
pub mod laws;
