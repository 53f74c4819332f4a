use zari::NORM_ONE;
use zari::utils::Utils;

/// A floating-point amplitude in canonical fixed-point units.
fn n(x: f64) -> i64 {
    (x * NORM_ONE as f64).round() as i64
}

#[test]
fn test_interleave_samples_basic() {
    let left_channel = vec![n(1.0), n(3.0), n(5.0)];
    let right_channel = vec![n(2.0), n(4.0), n(6.0)];
    let channels = vec![left_channel, right_channel];

    let result = Utils::interleave_samples(&channels);
    let expected = vec![n(1.0), n(2.0), n(3.0), n(4.0), n(5.0), n(6.0)];

    assert_eq!(result, expected);
}

#[test]
fn test_interleave_samples_uneven_lengths() {
    let left_channel = vec![n(1.0), n(3.0), n(5.0), n(7.0)];
    let right_channel = vec![n(2.0), n(4.0)];
    let channels = vec![left_channel, right_channel];

    let result = Utils::interleave_samples(&channels);
    let expected = vec![n(1.0), n(2.0), n(3.0), n(4.0), n(5.0), 0, n(7.0), 0];

    assert_eq!(result, expected);
}

#[test]
fn test_interleave_samples_empty_channels() {
    let empty_channels: Vec<Vec<i64>> = vec![];

    let result = Utils::interleave_samples(&empty_channels);
    let expected: Vec<i64> = vec![];

    assert_eq!(result, expected);
}

#[test]
fn test_deinterleave_samples_basic() {
    let interleaved = vec![n(1.0), n(2.0), n(3.0), n(4.0), n(5.0), n(6.0)];

    let result = Utils::deinterleave_samples(&interleaved, 2);
    let expected = vec![vec![n(1.0), n(3.0), n(5.0)], vec![n(2.0), n(4.0), n(6.0)]];

    assert_eq!(result, expected);
}

#[test]
fn test_interleave_deinterleave_roundtrip() {
    let original_channels = vec![
        vec![n(1.0), n(3.0), n(5.0), n(7.0)],
        vec![n(2.0), n(4.0), n(6.0), n(8.0)],
    ];

    let interleaved = Utils::interleave_samples(&original_channels);

    let result = Utils::deinterleave_samples(&interleaved, 2);

    assert_eq!(result, original_channels);
}

#[test]
fn test_deinterleave_samples_edge_cases() {
    let empty_input: Vec<i64> = vec![];
    let result1 = Utils::deinterleave_samples(&empty_input, 2);
    let expected1: Vec<Vec<i64>> = vec![vec![], vec![]];
    assert_eq!(result1, expected1);

    let some_input = vec![n(1.0), n(2.0), n(3.0), n(4.0)];
    let result2 = Utils::deinterleave_samples(&some_input, 0);
    let expected2: Vec<Vec<i64>> = vec![];
    assert_eq!(result2, expected2);

    let mono_input = vec![n(1.0), n(2.0), n(3.0), n(4.0)];
    let result3 = Utils::deinterleave_samples(&mono_input, 1);
    let expected3 = vec![vec![n(1.0), n(2.0), n(3.0), n(4.0)]];
    assert_eq!(result3, expected3);
}

#[test]
fn test_roundtrip_three_channels_with_partial_frame() {
    // Whole frames survive a round trip through deinterleave for any
    // channel count; a trailing partial frame is padded with silence.
    let whole = vec![1, 2, 3, 4, 5, 6, 7, 8, 9];
    let back = Utils::interleave_samples(&Utils::deinterleave_samples(&whole, 3));
    assert_eq!(back, whole);

    let ragged = vec![1, 2, 3, 4, 5];
    let back = Utils::interleave_samples(&Utils::deinterleave_samples(&ragged, 3));
    assert_eq!(back, vec![1, 2, 3, 4, 5, 0]);
}
