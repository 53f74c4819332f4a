use zari::NORM_ONE;
use zari::error::AudioError;
use zari::utils::{scale_for, SampleFormat, Scale, Utils};

/// A floating-point amplitude in canonical fixed-point units.
fn n(x: f64) -> i64 {
    (x * NORM_ONE as f64).round() as i64
}

/// Expected decode of raw value `v` at a depth with most positive value
/// `max`: `v / max` truncated in canonical units, clamped.
fn expected(v: i64, max: i64) -> i64 {
    let q = v * NORM_ONE / max;
    q.clamp(-NORM_ONE, NORM_ONE)
}

#[test]
fn test_convert_sample_i8_to_f64() {
    let scale = Scale::I8;

    assert_eq!(Utils::convert_sample_to_norm(0, scale), 0);
    assert_eq!(Utils::convert_sample_to_norm(i8::MAX as i64, scale), n(1.0));
    assert_eq!(Utils::convert_sample_to_norm(i8::MIN as i64, scale), n(-1.0));

    assert_eq!(Utils::convert_sample_to_norm(64, scale), expected(64, 127));
    assert_eq!(Utils::convert_sample_to_norm(-64, scale), expected(-64, 127));
    assert_eq!(Utils::convert_sample_to_norm(1, scale), expected(1, 127));
    assert_eq!(Utils::convert_sample_to_norm(-1, scale), expected(-1, 127));

    assert_eq!(Utils::convert_sample_to_norm(32, scale), expected(32, 127));
    assert_eq!(Utils::convert_sample_to_norm(-32, scale), expected(-32, 127));

    assert_eq!(Utils::convert_sample_to_norm(126, scale), expected(126, 127));
    assert_eq!(Utils::convert_sample_to_norm(-127, scale), expected(-127, 127));
}

#[test]
fn test_convert_sample_i16_to_f64() {
    let scale = Scale::I16;

    assert_eq!(Utils::convert_sample_to_norm(0, scale), 0);
    assert_eq!(Utils::convert_sample_to_norm(i16::MAX as i64, scale), n(1.0));
    assert_eq!(Utils::convert_sample_to_norm(i16::MIN as i64, scale), n(-1.0));

    assert_eq!(Utils::convert_sample_to_norm(16384, scale), expected(16384, 32767));
    assert_eq!(Utils::convert_sample_to_norm(-16384, scale), expected(-16384, 32767));
    assert_eq!(Utils::convert_sample_to_norm(1, scale), expected(1, 32767));
    assert_eq!(Utils::convert_sample_to_norm(-1, scale), expected(-1, 32767));

    assert_eq!(Utils::convert_sample_to_norm(8192, scale), expected(8192, 32767));
    assert_eq!(Utils::convert_sample_to_norm(-8192, scale), expected(-8192, 32767));

    assert_eq!(Utils::convert_sample_to_norm(32766, scale), expected(32766, 32767));
    assert_eq!(Utils::convert_sample_to_norm(-32767, scale), expected(-32767, 32767));

    assert_eq!(Utils::convert_sample_to_norm(1000, scale), expected(1000, 32767));
    assert_eq!(Utils::convert_sample_to_norm(-1000, scale), expected(-1000, 32767));
}

#[test]
fn test_convert_sample_i24_to_f64() {
    let scale = Scale::I24;

    assert_eq!(Utils::convert_sample_to_norm(0, scale), 0);
    assert_eq!(Utils::convert_sample_to_norm(8_388_607, scale), n(1.0));
    assert_eq!(Utils::convert_sample_to_norm(-8_388_608, scale), n(-1.0));

    assert_eq!(Utils::convert_sample_to_norm(4_194_304, scale), expected(4_194_304, 8_388_607));
    assert_eq!(Utils::convert_sample_to_norm(-4_194_304, scale), expected(-4_194_304, 8_388_607));
    assert_eq!(Utils::convert_sample_to_norm(1, scale), expected(1, 8_388_607));
    assert_eq!(Utils::convert_sample_to_norm(-1, scale), expected(-1, 8_388_607));

    assert_eq!(Utils::convert_sample_to_norm(2_097_152, scale), expected(2_097_152, 8_388_607));
    assert_eq!(Utils::convert_sample_to_norm(-2_097_152, scale), expected(-2_097_152, 8_388_607));
    assert_eq!(Utils::convert_sample_to_norm(1_048_576, scale), expected(1_048_576, 8_388_607));
    assert_eq!(Utils::convert_sample_to_norm(-1_048_576, scale), expected(-1_048_576, 8_388_607));

    assert_eq!(Utils::convert_sample_to_norm(8_388_606, scale), expected(8_388_606, 8_388_607));
    assert_eq!(Utils::convert_sample_to_norm(-8_388_607, scale), expected(-8_388_607, 8_388_607));

    assert_eq!(Utils::convert_sample_to_norm(100_000, scale), expected(100_000, 8_388_607));
    assert_eq!(Utils::convert_sample_to_norm(-100_000, scale), expected(-100_000, 8_388_607));
}

#[test]
fn test_convert_sample_i32_to_f64() {
    let scale = Scale::I32;
    let max = i32::MAX as i64;

    assert_eq!(Utils::convert_sample_to_norm(0, scale), 0);
    assert_eq!(Utils::convert_sample_to_norm(i32::MAX as i64, scale), n(1.0));
    assert_eq!(Utils::convert_sample_to_norm(i32::MIN as i64, scale), n(-1.0));

    assert_eq!(Utils::convert_sample_to_norm(1_073_741_824, scale), expected(1_073_741_824, max));
    assert_eq!(Utils::convert_sample_to_norm(-1_073_741_824, scale), expected(-1_073_741_824, max));
    assert_eq!(Utils::convert_sample_to_norm(1, scale), expected(1, max));
    assert_eq!(Utils::convert_sample_to_norm(-1, scale), expected(-1, max));

    assert_eq!(Utils::convert_sample_to_norm(536_870_912, scale), expected(536_870_912, max));
    assert_eq!(Utils::convert_sample_to_norm(-536_870_912, scale), expected(-536_870_912, max));
    assert_eq!(Utils::convert_sample_to_norm(268_435_456, scale), expected(268_435_456, max));
    assert_eq!(Utils::convert_sample_to_norm(-268_435_456, scale), expected(-268_435_456, max));

    assert_eq!(Utils::convert_sample_to_norm(2_147_483_646, scale), expected(2_147_483_646, max));
    assert_eq!(Utils::convert_sample_to_norm(-2_147_483_647, scale), expected(-2_147_483_647, max));

    assert_eq!(Utils::convert_sample_to_norm(10_000_000, scale), expected(10_000_000, max));
    assert_eq!(Utils::convert_sample_to_norm(-10_000_000, scale), expected(-10_000_000, max));
}

#[test]
fn test_convert_sample_f32_to_f64() {
    let scale = Scale::F32;

    assert_eq!(Utils::convert_sample_to_norm(n(0.0), scale), 0);
    assert_eq!(Utils::convert_sample_to_norm(n(1.0), scale), n(1.0));
    assert_eq!(Utils::convert_sample_to_norm(n(-1.0), scale), n(-1.0));

    assert_eq!(Utils::convert_sample_to_norm(n(0.5), scale), n(0.5));
    assert_eq!(Utils::convert_sample_to_norm(n(-0.5), scale), n(-0.5));
    assert_eq!(Utils::convert_sample_to_norm(n(0.25), scale), n(0.25));
    assert_eq!(Utils::convert_sample_to_norm(n(-0.25), scale), n(-0.25));

    assert_eq!(Utils::convert_sample_to_norm(n(0.9999), scale), n(0.9999));
    assert_eq!(Utils::convert_sample_to_norm(n(-0.9999), scale), n(-0.9999));
    assert_eq!(Utils::convert_sample_to_norm(n(0.0001), scale), n(0.0001));
    assert_eq!(Utils::convert_sample_to_norm(n(-0.0001), scale), n(-0.0001));

    assert_eq!(Utils::convert_sample_to_norm(n(0.123456), scale), n(0.123456));
    assert_eq!(Utils::convert_sample_to_norm(n(-0.789012), scale), n(-0.789012));
}

#[test]
fn test_convert_samples_i8_to_f64() {
    let scale = Scale::I8;
    let samples = vec![0, i8::MAX as i64, i8::MIN as i64, 64, -64];
    let expected_values = vec![0, n(1.0), n(-1.0), expected(64, 127), expected(-64, 127)];

    let result = Utils::convert_samples_to_norm(&samples, scale);

    assert_eq!(result, expected_values);
}

#[test]
fn test_convert_samples_i16_to_f64() {
    let scale = Scale::I16;
    let samples = vec![0, i16::MAX as i64, i16::MIN as i64, 16384, -16384];
    let expected_values = vec![0, n(1.0), n(-1.0), expected(16384, 32767), expected(-16384, 32767)];

    let result = Utils::convert_samples_to_norm(&samples, scale);

    assert_eq!(result, expected_values);
}

#[test]
fn test_convert_samples_i24_to_f64() {
    let scale = Scale::I24;
    let samples = vec![0, 8_388_607, -8_388_608, 4_194_304, -4_194_304];
    let expected_values = vec![
        0,
        n(1.0),
        n(-1.0),
        expected(4_194_304, 8_388_607),
        expected(-4_194_304, 8_388_607),
    ];

    let result = Utils::convert_samples_to_norm(&samples, scale);

    assert_eq!(result, expected_values);
}

#[test]
fn test_convert_samples_i32_to_f64() {
    let scale = Scale::I32;
    let samples = vec![0, i32::MAX as i64, i32::MIN as i64, 1_073_741_824, -1_073_741_824];
    let expected_values = vec![
        0,
        n(1.0),
        n(-1.0),
        expected(1_073_741_824, i32::MAX as i64),
        expected(-1_073_741_824, i32::MAX as i64),
    ];

    let result = Utils::convert_samples_to_norm(&samples, scale);

    assert_eq!(result, expected_values);
}

#[test]
fn test_convert_samples_f32_to_f64() {
    let scale = Scale::F32;
    let samples = vec![n(0.0), n(1.0), n(-1.0), n(0.5), n(-0.5)];
    let expected_values = vec![0, n(1.0), n(-1.0), n(0.5), n(-0.5)];

    let result = Utils::convert_samples_to_norm(&samples, scale);

    assert_eq!(result, expected_values);
}

#[test]
fn test_convert_samples_empty_slice() {
    let scale = Scale::I16;
    let samples: Vec<i64> = vec![];
    let expected_values: Vec<i64> = vec![];

    let result = Utils::convert_samples_to_norm(&samples, scale);

    assert_eq!(result, expected_values);
}

#[test]
fn test_convert_samples_f32_clamping() {
    let scale = Scale::F32;
    let samples = vec![n(2.0), n(-2.0), n(1.5), n(-1.5), 0];
    let expected_values = vec![n(1.0), n(-1.0), n(1.0), n(-1.0), 0];

    let result = Utils::convert_samples_to_norm(&samples, scale);

    assert_eq!(result, expected_values);
}

#[test]
fn test_convert_samples_single_element() {
    let scale = Scale::I8;
    let samples = vec![i8::MAX as i64];
    let expected_values = vec![n(1.0)];

    let result = Utils::convert_samples_to_norm(&samples, scale);

    assert_eq!(result, expected_values);
}

#[test]
fn test_convert_samples_large_slice() {
    let scale = Scale::I16;
    let samples: Vec<i64> = vec![1000; 10000];
    let expected_value = expected(1000, 32767);

    let result = Utils::convert_samples_to_norm(&samples, scale);

    assert_eq!(result.len(), 10000);
    for actual_val in result.iter() {
        assert_eq!(*actual_val, expected_value);
    }
}

#[test]
fn test_decode_extremes_all_integer_depths() {
    for (scale, max, min) in [
        (Scale::I8, 127, -128),
        (Scale::I16, 32767, -32768),
        (Scale::I24, 8_388_607, -8_388_608),
        (Scale::I32, 2_147_483_647, -2_147_483_648),
    ] {
        assert_eq!(Utils::convert_sample_to_norm(max, scale), NORM_ONE);
        assert_eq!(Utils::convert_sample_to_norm(-max, scale), -NORM_ONE);
        assert_eq!(Utils::convert_sample_to_norm(min, scale), -NORM_ONE);
        assert_eq!(Utils::convert_sample_to_norm(0, scale), 0);
    }
}

#[test]
fn test_encode_u8_affine_mapping() {
    assert_eq!(Utils::sample_to_u8(n(-1.0)), 0);
    assert_eq!(Utils::sample_to_u8(0), 127);
    assert_eq!(Utils::sample_to_u8(n(1.0)), 255);
    assert_eq!(Utils::sample_to_u8(n(0.5)), 191);
    assert_eq!(Utils::sample_to_u8(n(2.0)), 255);
    assert_eq!(Utils::sample_to_u8(n(-2.0)), 0);
}

#[test]
fn test_encode_i16_saturates() {
    assert_eq!(Utils::sample_to_i16(n(1.0)), 32767);
    assert_eq!(Utils::sample_to_i16(n(-1.0)), -32767);
    assert_eq!(Utils::sample_to_i16(0), 0);
    assert_eq!(Utils::sample_to_i16(n(0.5)), 16383);
    assert_eq!(Utils::sample_to_i16(n(1.4)), 32767);
    assert_eq!(Utils::sample_to_i16(n(-1.4)), -32768);
}

#[test]
fn test_encode_i32_extremes() {
    assert_eq!(Utils::sample_to_i32(n(1.0)), i32::MAX);
    assert_eq!(Utils::sample_to_i32(n(-1.0)), -i32::MAX);
    assert_eq!(Utils::sample_to_i32(0), 0);
    assert_eq!(Utils::sample_to_i32(n(2.0)), i32::MAX);
    assert_eq!(Utils::sample_to_i32(n(-2.0)), i32::MIN);
}

#[test]
fn test_scale_for_supported_and_rejected_depths() {
    assert_eq!(scale_for(SampleFormat::Int, 8), Ok(Scale::I8));
    assert_eq!(scale_for(SampleFormat::Int, 16), Ok(Scale::I16));
    assert_eq!(scale_for(SampleFormat::Int, 24), Ok(Scale::I24));
    assert_eq!(scale_for(SampleFormat::Int, 32), Ok(Scale::I32));
    assert_eq!(scale_for(SampleFormat::Float, 32), Ok(Scale::F32));

    assert_eq!(scale_for(SampleFormat::Int, 12), Err(AudioError::UnsupportedBitsPerSample(12)));
    assert_eq!(scale_for(SampleFormat::Int, 64), Err(AudioError::UnsupportedBitsPerSample(64)));
    assert_eq!(scale_for(SampleFormat::Float, 64), Err(AudioError::UnsupportedBitsPerSample(64)));
    assert_eq!(scale_for(SampleFormat::Float, 16), Err(AudioError::UnsupportedBitsPerSample(16)));
}
