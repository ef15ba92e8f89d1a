//! Core of a real-time spectral analyzer: a sliding sample window fed in
//! fixed-size blocks, and a logarithmically spaced band table that maps
//! transform bins onto perceptual frequency bands.
//!
//! Samples travel through this crate as raw single-precision bit patterns
//! (`u32`); the numeric stages that need their value (windowing, the
//! transform itself, magnitudes) live with the host glue, outside the
//! verified core.

use vstd::prelude::*;

pub mod history;
pub mod bands;
pub mod analyzer;

verus! {

/// Number of samples the host delivers per processing call.
pub const BLOCK_SIZE: usize = 128;

/// Length of the sliding analysis window, a power of two sized for the
/// frequency transform.
pub const SAMPLES_SIZE: usize = 4096;

/// Only the first half of the transform output carries information for a
/// real-valued input; every band the table produces lies below this bound.
pub const HALF_SPECTRUM: usize = 2048;

} // verus!
