//! Mixing core of a multitrack audio engine.
//!
//! The library owns a timeline of tracks and time-placed audio clips,
//! normalizes source audio of heterogeneous bit depths into a canonical
//! fixed-point representation, and renders a deterministic output signal
//! frame by frame. All amplitude arithmetic is carried out on integer
//! sample values scaled so that `NORM_ONE` stands for full scale (1.0),
//! which keeps every mixing step exact and verifiable.

use vstd::prelude::*;

pub mod clip;
pub mod resampler;
pub mod timeline;
pub mod error;
pub mod track;
pub mod utils;

verus! {

/// Canonical fixed-point representation of the amplitude 1.0.
///
/// A normalized sample is an `i64` in `[-NORM_ONE, NORM_ONE]`; the value
/// `v` stands for the amplitude `v / NORM_ONE`.
pub const NORM_ONE: i64 = 1_000_000_000;

} // verus!
