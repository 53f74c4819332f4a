use zari::error::AudioError;
use zari::resampler::{ResamplePlan, Resampler};

#[test]
fn test_plan_empty_buffer_or_zero_channels_skips_filter() {
    // Resampling an empty buffer or zero channels yields an empty result
    // without ever configuring the filter.
    assert_eq!(Resampler::plan(0, 2, 48000, 44100), Ok(ResamplePlan::Empty));
    assert_eq!(Resampler::plan(128, 0, 48000, 44100), Ok(ResamplePlan::Empty));
    assert_eq!(Resampler::plan(0, 0, 48000, 44100), Ok(ResamplePlan::Empty));
    // The fast path wins even over invalid rates.
    assert_eq!(Resampler::plan(0, 2, 0, 0), Ok(ResamplePlan::Empty));
}

#[test]
fn test_plan_rejects_zero_sample_rates() {
    assert_eq!(
        Resampler::plan(128, 2, 0, 44100),
        Err(AudioError::InvalidSampleRate(0))
    );
    assert_eq!(
        Resampler::plan(128, 2, 48000, 0),
        Err(AudioError::InvalidSampleRate(0))
    );
}

#[test]
fn test_plan_derives_filter_shape_from_buffer() {
    assert_eq!(
        Resampler::plan(256, 2, 48000, 44100),
        Ok(ResamplePlan::Filter { frames: 128, channels: 2 })
    );
    assert_eq!(
        Resampler::plan(100, 1, 22050, 44100),
        Ok(ResamplePlan::Filter { frames: 100, channels: 1 })
    );
}

#[test]
fn test_needs_resample_only_for_differing_rates() {
    assert!(!Resampler::needs_resample(44100, 44100));
    assert!(Resampler::needs_resample(44100, 48000));
    assert!(Resampler::needs_resample(48000, 44100));
}
