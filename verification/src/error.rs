//! Error type of the control surface.
//!
//! Every fallible control operation returns one of these; the render path
//! never fails. Conditions detected at the file or resampler boundary are
//! reported by the embedding application through the matching variant.

use vstd::prelude::*;

use crate::track::TrackId;

verus! {

#[derive(Debug, Clone, Copy, PartialEq, Eq, Structural)]
pub enum AudioError {
    /// The operation referenced a track id that does not exist.
    TrackNotFound(TrackId),
    /// A volume was set outside 0..=100 percent; carries the rejected value.
    InvalidVolume(u32),
    /// A sample rate of zero was supplied for resampling.
    InvalidSampleRate(u32),
    /// The source declares a bit depth the codec does not support.
    UnsupportedBitsPerSample(u16),
    /// The source has a channel count other than mono or stereo.
    UnsupportedChannelCount(u16),
    /// The source audio could not be read or decoded.
    FileError,
    /// The resampler failed while processing.
    ResampleError,
    /// The resampler rejected its configuration.
    ResamplerConstructionError,
}

} // verus!
