//! Settings of the equalizer and the compressor, and numbers by their bits.

use tuneux_corex::compressor::{
    CompressorParams, COMP_MAKEUP_MIN_DB, COMP_RATIO_MIN, COMP_THRESHOLD_MAX_DB,
};
use tuneux_corex::equalizer::{EqParams, EQ_BANDS, EQ_GAIN_MAX_DB, EQ_GAIN_MIN_DB};
use tuneux_corex::float::{absolute, clamp, is_finite, is_greater};

fn b(v: f32) -> u32 {
    v.to_bits()
}

#[test]
fn params_clamp() {
    let mut p = CompressorParams::new();
    assert!(p.set_threshold(b(999.0)));
    assert_eq!(p.threshold(), COMP_THRESHOLD_MAX_DB);
    assert!(p.set_ratio(b(0.1)));
    assert_eq!(p.ratio(), COMP_RATIO_MIN);
    assert!(p.set_makeup(b(-999.0)));
    assert_eq!(p.makeup(), COMP_MAKEUP_MIN_DB);
}

#[test]
fn setters_reject_non_finite() {
    let mut p = CompressorParams::new();
    let (t0, r0, a0, rel0, makeup0) = (
        p.threshold(),
        p.ratio(),
        p.attack_ms(),
        p.release_ms(),
        p.makeup(),
    );
    for bad in [f32::NAN, f32::INFINITY, f32::NEG_INFINITY] {
        assert!(!p.set_threshold(b(bad)), "阈值应拒绝 {bad}");
        assert!(!p.set_ratio(b(bad)), "压缩比应拒绝 {bad}");
        assert!(!p.set_attack_ms(b(bad)), "启动应拒绝 {bad}");
        assert!(!p.set_release_ms(b(bad)), "释放应拒绝 {bad}");
        assert!(!p.set_makeup(b(bad)), "补偿应拒绝 {bad}");
    }
    assert_eq!(p.threshold(), t0);
    assert_eq!(p.ratio(), r0);
    assert_eq!(p.attack_ms(), a0);
    assert_eq!(p.release_ms(), rel0);
    assert_eq!(p.makeup(), makeup0);
    for v in [
        p.threshold(),
        p.ratio(),
        p.attack_ms(),
        p.release_ms(),
        p.makeup(),
    ] {
        let v = f32::from_bits(v);
        assert!(v.is_finite(), "参数读回必须有限，实际 {v}");
    }
}

#[test]
fn band_write_read_roundtrip_and_clamp() {
    let mut p = EqParams::new();
    assert!(p.set_band(0, b(6.0)));
    assert_eq!(f32::from_bits(p.band(0)), 6.0);
    assert!(!p.set_band(EQ_BANDS, b(1.0)));
    p.set_band(1, b(99.0));
    assert_eq!(p.band(1), EQ_GAIN_MAX_DB);
    p.set_band(2, b(-99.0));
    assert_eq!(p.band(2), EQ_GAIN_MIN_DB);
}

#[test]
fn band_read_out_of_bounds_returns_zero() {
    let mut p = EqParams::new();
    p.set_band(0, b(6.0));
    assert_eq!(f32::from_bits(p.band(EQ_BANDS)), 0.0, "越界读应返回 0.0 而非 panic");
    assert_eq!(f32::from_bits(p.band(EQ_BANDS + 100)), 0.0);
}

#[test]
fn settings_start_with_their_defaults() {
    let mut p = CompressorParams::default();
    assert_eq!(f32::from_bits(p.threshold()), -20.0);
    assert_eq!(f32::from_bits(p.ratio()), 4.0);
    assert_eq!(f32::from_bits(p.attack_ms()), 10.0);
    assert_eq!(f32::from_bits(p.release_ms()), 100.0);
    assert_eq!(f32::from_bits(p.makeup()), 0.0);
    assert!(p.enabled());
    p.set_ratio(b(8.0));
    p.set_enabled(false);
    p.reset();
    assert_eq!(f32::from_bits(p.ratio()), 4.0);
    assert!(p.enabled());
    let mut e = EqParams::default();
    assert!(e.enabled());
    e.set_band(3, b(-3.0));
    e.set_enabled(false);
    e.reset();
    assert_eq!(e.band(3), 0);
    assert!(e.enabled());
}

#[test]
fn limits_are_the_numbers_they_stand_for() {
    assert_eq!(f32::from_bits(EQ_GAIN_MIN_DB), -12.0);
    assert_eq!(f32::from_bits(EQ_GAIN_MAX_DB), 12.0);
    assert_eq!(f32::from_bits(COMP_THRESHOLD_MAX_DB), 0.0);
    assert_eq!(f32::from_bits(COMP_RATIO_MIN), 1.0);
    assert_eq!(f32::from_bits(COMP_MAKEUP_MIN_DB), -20.0);
    let mut p = CompressorParams::new();
    p.set_attack_ms(b(0.0));
    assert_eq!(f32::from_bits(p.attack_ms()), 0.1);
    p.set_attack_ms(b(1e9));
    assert_eq!(f32::from_bits(p.attack_ms()), 1000.0);
    p.set_release_ms(b(0.0));
    assert_eq!(f32::from_bits(p.release_ms()), 1.0);
    p.set_release_ms(b(1e9));
    assert_eq!(f32::from_bits(p.release_ms()), 5000.0);
    p.set_threshold(b(-1e9));
    assert_eq!(f32::from_bits(p.threshold()), -60.0);
    p.set_ratio(b(1e9));
    assert_eq!(f32::from_bits(p.ratio()), 20.0);
    p.set_makeup(b(1e9));
    assert_eq!(f32::from_bits(p.makeup()), 20.0);
}

#[test]
fn bits_compare_as_the_numbers_do() {
    let values = [
        0.0f32,
        -0.0,
        1.0,
        -1.0,
        1e-40,
        -1e-40,
        f32::MAX,
        f32::MIN,
        f32::INFINITY,
        f32::NEG_INFINITY,
        f32::NAN,
    ];
    for x in values {
        assert_eq!(is_finite(b(x)), x.is_finite());
        assert_eq!(absolute(b(x)), b(x.abs()));
        for y in values {
            assert_eq!(is_greater(b(x), b(y)), x > y, "{x} {y}");
        }
    }
    for x in [0.5f32, -3.0, 3.0, 1.0, -1.0] {
        assert_eq!(clamp(b(x), b(-1.0), b(1.0)), b(x.clamp(-1.0, 1.0)));
    }
    let once = clamp(b(7.0), b(-1.0), b(1.0));
    assert_eq!(clamp(once, b(-1.0), b(1.0)), once);
}
