use iced_waveform::sample::{max_of, min_of, sample_is_nan, sample_rank};

#[test]
fn min_and_max_follow_f32() {
    let pairs = [(1.0f32, 2.0f32), (-1.0, 1.0), (-5.0, -7.0), (0.0, 3.5), (f32::INFINITY, 1.0)];
    for (a, b) in pairs {
        assert_eq!(f32::from_bits(min_of(a.to_bits(), b.to_bits())), a.min(b));
        assert_eq!(f32::from_bits(max_of(a.to_bits(), b.to_bits())), a.max(b));
        assert_eq!(f32::from_bits(min_of(b.to_bits(), a.to_bits())), a.min(b));
    }
}

#[test]
fn nan_is_ignored() {
    let nan = f32::NAN.to_bits();
    let two = 2.0f32.to_bits();
    assert_eq!(min_of(nan, two), two);
    assert_eq!(min_of(two, nan), two);
    assert_eq!(max_of(nan, two), two);
    assert_eq!(max_of(two, nan), two);
    assert!(sample_is_nan(nan));
    assert!(!sample_is_nan(f32::INFINITY.to_bits()));
    assert!(!sample_is_nan(two));
}

#[test]
fn rank_orders_values() {
    let values = [f32::NEG_INFINITY, -3.0e9, -2.0, -0.5, 0.0, 1.0e-30, 0.5, 7.0, f32::INFINITY];
    for w in values.windows(2) {
        assert!(sample_rank(w[0].to_bits()) < sample_rank(w[1].to_bits()));
    }
    assert_eq!(sample_rank(0.0f32.to_bits()), 0);
    assert_eq!(sample_rank((-0.0f32).to_bits()), 0);
    assert_eq!(sample_rank(1.0f32.to_bits()), 0x3f80_0000);
    assert_eq!(sample_rank((-1.0f32).to_bits()), -0x3f80_0000);
}
