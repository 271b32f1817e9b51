//! Spectrum displays.

use std::time::Duration;

use tuneux_corex::spectrum::{
    band_bins, hold_peak, is_fall_rate, sanitize_band, unroll, waveform, SpectrumPeakHold,
    DEFAULT_PEAK_FALL, FFT_SIZE, N_BANDS, ONE, WAVEFORM_LEN,
};

/// Lets peaks fall over some time and takes new levels.
fn update(p: &mut SpectrumPeakHold, bands: &[f32], dt: Duration) -> Vec<f32> {
    let fall = f32::from_bits(p.fall_per_sec()) * dt.as_secs_f32();
    let fallen = p.peaks().iter().map(|&v| (f32::from_bits(v) - fall).to_bits()).collect();
    let levels = bands.iter().map(|b| b.to_bits()).collect();
    let out = p.update(&fallen, &levels);
    assert_eq!(&out, p.peaks());
    out.into_iter().map(f32::from_bits).collect()
}

fn band(v: f32) -> Vec<f32> {
    vec![v; N_BANDS]
}

fn first(p: &SpectrumPeakHold) -> f32 {
    f32::from_bits(p.peaks()[0])
}

#[test]
fn fall_rates_are_finite_and_not_negative() {
    for bad in [f32::NAN, -0.1, f32::INFINITY, f32::NEG_INFINITY] {
        assert!(!is_fall_rate(bad.to_bits()), "{bad}");
    }
    for good in [0.0f32, -0.0, 1.2] {
        assert!(is_fall_rate(good.to_bits()), "{good}");
    }
    assert_eq!(f32::from_bits(DEFAULT_PEAK_FALL), 0.6);
}

#[test]
fn rise_is_immediate_and_then_decays() {
    let mut p = SpectrumPeakHold::default();
    let out = update(&mut p, &band(0.5), Duration::ZERO);
    assert!((out[0] - 0.5).abs() < 1e-6, "能量上升应即时上浮");
    let out = update(&mut p, &band(0.2), Duration::from_secs_f32(0.1));
    assert!(out[0] < 0.5 && out[0] >= 0.2, "峰值应缓落且 >= 当前：{}", out[0]);
}

#[test]
fn dt_zero_absorbs_without_decay() {
    let mut p = SpectrumPeakHold::default();
    update(&mut p, &band(0.8), Duration::ZERO);
    let out = update(&mut p, &band(0.0), Duration::ZERO);
    assert!((out[0] - 0.8).abs() < 1e-6, "dt=0 只吸收、不衰减");
}

#[test]
fn frame_rate_independence() {
    let total = 2.0f32;
    let dts = [1.0 / 144.0, 1.0 / 60.0, 1.0 / 30.0, 1.0 / 10.0];
    let mut finals = Vec::new();
    for &dt in &dts {
        let mut p = SpectrumPeakHold::default();
        update(&mut p, &band(1.0), Duration::ZERO);
        let mut t = 0.0f32;
        while t < total {
            update(&mut p, &band(0.0), Duration::from_secs_f32(dt));
            t += dt;
        }
        finals.push(first(&p));
    }
    let base = finals[0];
    for &f in &finals[1..] {
        assert!((f - base).abs() < 1e-4, "帧率无关终态不一致：{finals:?}");
    }
}

#[test]
fn golden_equivalence_to_old_formula() {
    let mut old = 1.0f32;
    for _ in 0..50 {
        old = (old - 0.02).max(0.0);
    }
    let mut p = SpectrumPeakHold::default();
    update(&mut p, &band(1.0), Duration::ZERO);
    for _ in 0..50 {
        update(&mut p, &band(0.0), Duration::from_secs_f32(1.0 / 30.0));
    }
    assert!((first(&p) - old).abs() < 1e-4, "金标偏差：old={old} new={}", first(&p));
}

#[test]
fn input_sanitization() {
    let mut p = SpectrumPeakHold::default();
    let mut b = band(0.0);
    b[0] = f32::NAN;
    b[1] = f32::INFINITY;
    b[2] = 1.5;
    b[3] = -0.5;
    let out = update(&mut p, &b, Duration::ZERO);
    assert_eq!(out[0], 0.0, "NaN 应按 0");
    assert_eq!(out[1], 1.0, "inf 应钳到 1");
    assert_eq!(out[2], 1.0, "超界应钳到 1");
    assert_eq!(out[3], 0.0, "负值应钳到 0");
}

#[test]
fn reset_clears_peaks_but_keeps_rate() {
    let mut p = SpectrumPeakHold::default();
    update(&mut p, &band(0.9), Duration::ZERO);
    assert!(first(&p) > 0.5);
    p.reset();
    assert!(p.peaks().iter().all(|&v| f32::from_bits(v) == 0.0), "reset 后应全 0");
    update(&mut p, &band(0.8), Duration::ZERO);
    let out = update(&mut p, &band(0.0), Duration::from_secs_f32(0.5));
    assert!((out[0] - 0.5).abs() < 1e-4, "下落速率应保持：{}", out[0]);
}

#[test]
fn huge_dt_soft_resets_to_current() {
    let mut p = SpectrumPeakHold::default();
    update(&mut p, &band(1.0), Duration::ZERO);
    let out = update(&mut p, &band(0.3), Duration::from_secs_f32(1e6));
    assert!((out[0] - 0.3).abs() < 1e-4, "极大 dt 应软复位到当前：{}", out[0]);
}

fn splitmix64(state: &mut u64) -> u64 {
    *state = state.wrapping_add(0x9E3779B97F4A7C15);
    let mut z = *state;
    z = (z ^ (z >> 30)).wrapping_mul(0xBF58476D1CE4E5B9);
    z = (z ^ (z >> 27)).wrapping_mul(0x94D049BB133111EB);
    z ^ (z >> 31)
}

#[test]
fn invariant_peaks_ge_current_and_in_range() {
    let mut p = SpectrumPeakHold::default();
    let mut rng: u64 = 0x1234567890abcdef;
    for _ in 0..2000 {
        let mut b = band(0.0);
        for v in b.iter_mut() {
            let x = splitmix64(&mut rng);
            *v = ((x & 0xffff) as f32) / 65535.0;
        }
        let dt_ms = splitmix64(&mut rng) % 200;
        let out = update(&mut p, &b, Duration::from_millis(dt_ms));
        for i in 0..N_BANDS {
            assert!(out[i] >= 0.0 && out[i] <= 1.0, "峰值越界 @ band {i}: {}", out[i]);
            assert!(out[i] >= b[i], "峰值应 >= 当前能量 @ band {i}");
        }
    }
}

#[test]
fn peak_of_one_band_is_the_higher_level() {
    let hold = |fallen: f32, level: f32| {
        f32::from_bits(hold_peak(fallen.to_bits(), level.to_bits()))
    };
    assert_eq!(hold(0.5, 0.25), 0.5);
    assert_eq!(hold(0.25, 0.5), 0.5);
    assert_eq!(hold(-3.0, -1.0), 0.0);
}

#[test]
fn bands_cover_at_least_one_bin() {
    assert_eq!(band_bins(3, 3), (3, 4));
    assert_eq!(band_bins(3, 9), (3, 9));
    assert_eq!(band_bins(9000, 9500), (2048, 2049));
    assert_eq!(band_bins(2000, 9500), (2000, 2048));
}

#[test]
fn ring_is_read_oldest_first() {
    let ring: Vec<u32> = (0..FFT_SIZE as u32).collect();
    let out = unroll(&ring, 4000);
    assert_eq!(out[0], 4000);
    assert_eq!(out[95], 4095);
    assert_eq!(out[96], 0);
    assert_eq!(out[FFT_SIZE - 1], 3999);
}

#[test]
fn one_stays_one() {
    assert_eq!(f32::from_bits(ONE), 1.0);
    assert_eq!(sanitize_band(ONE), ONE);
}

#[test]
fn waveform_spans_the_window() {
    let window: Vec<u32> = (0..FFT_SIZE as u32).collect();
    let points = waveform(&window);
    assert_eq!(points.len(), WAVEFORM_LEN);
    assert_eq!(points[0], 0);
    assert_eq!(points[1], 32);
    assert_eq!(points[127], 4064);
}
