//! Sample-rate conversion planning.
//!
//! The band-limited sinc filter itself runs in floating point outside the
//! verified core; this module owns the decisions around it: when a buffer
//! needs no filtering at all, when the configuration is invalid, and the
//! shape (frame and channel counts) the filter must be built with.

use vstd::prelude::*;

use crate::error::AudioError;

verus! {

/// What a resample request amounts to.
#[derive(Debug, Clone, Copy, PartialEq, Eq, Structural)]
pub enum ResamplePlan {
    /// Zero channels or an empty buffer: the result is empty and the
    /// filter is never invoked.
    Empty,
    /// Run the sinc filter over `frames` frames of `channels` channels.
    Filter { frames: usize, channels: usize },
}

/// Fixed-ratio sinc resampling of a normalized multi-channel buffer.
pub struct Resampler;

impl Resampler {
    /// Whether a source at `source_rate` must be resampled to play at
    /// `timeline_rate`: equal rates pass through bit-identically.
    pub fn needs_resample(source_rate: u32, timeline_rate: u32) -> (r: bool)
        ensures
            r == (source_rate != timeline_rate),
    {
        source_rate != timeline_rate
    }

    /// Decide what a resample request needs: nothing for an empty buffer or
    /// zero channels, an error for a zero sample rate on either side, else
    /// the filter configuration, with the frame count derived from the
    /// buffer.
    pub fn plan(
        sample_count: usize,
        num_channels: u16,
        new_sample_rate: u32,
        old_sample_rate: u32,
    ) -> (r: Result<ResamplePlan, AudioError>)
        ensures
            match r {
                Ok(ResamplePlan::Empty) => num_channels == 0 || sample_count == 0,
                Ok(ResamplePlan::Filter { frames, channels }) => {
                    &&& num_channels >= 1
                    &&& sample_count >= 1
                    &&& new_sample_rate >= 1
                    &&& old_sample_rate >= 1
                    &&& channels == num_channels
                    &&& frames == sample_count as int / num_channels as int
                },
                Err(e) => {
                    &&& num_channels >= 1
                    &&& sample_count >= 1
                    &&& (new_sample_rate == 0 || old_sample_rate == 0)
                    &&& e == AudioError::InvalidSampleRate(0)
                },
            },
    {
        if num_channels == 0 || sample_count == 0 {
            return Ok(ResamplePlan::Empty);
        }
        if new_sample_rate == 0 || old_sample_rate == 0 {
            return Err(AudioError::InvalidSampleRate(0));
        }
        Ok(
            ResamplePlan::Filter {
                frames: sample_count / (num_channels as usize),
                channels: num_channels as usize,
            },
        )
    }
}

} // verus!
