//! Samples on their way to the output.

use ringbuf::traits::{Observer, Producer, Split};
use ringbuf::{HeapProd, HeapRb};
use tuneux_corex::sample_utils::{
    adapt_channels, Meter, Push, PushStep, ScopeBuffer, MAX_RETRIES,
};
use tuneux_corex::spectrum::FFT_SIZE;

fn bits(samples: &[f32]) -> Vec<u32> {
    samples.iter().map(|v| v.to_bits()).collect()
}

fn numbers(samples: &[u32]) -> Vec<f32> {
    samples.iter().map(|b| f32::from_bits(*b)).collect()
}

/// Changes the channels of samples, with the copies of the first channel at -3 dB.
fn adapted(samples: &[f32], from: u16, to: u16) -> Vec<f32> {
    let faded: Vec<f32> = samples
        .chunks(from as usize)
        .map(|f| f[0] * std::f32::consts::FRAC_1_SQRT_2)
        .collect();
    numbers(&adapt_channels(&bits(samples), &bits(&faded), from, to))
}

/// Puts samples into a buffer.
fn push_all(producer: &mut HeapProd<f32>, samples: &[f32], channels: u16) -> Option<PushStep> {
    let mut push = Push::new(samples.len(), channels);
    let mut last = None;
    while !push.done() {
        let n = push.offer(producer.vacant_len());
        let took = producer.push_slice(&samples[push.pushed..push.pushed + n]);
        let step = push.took(took);
        last = Some(step);
        if step == PushStep::GiveUp {
            break;
        }
    }
    last
}

#[test]
fn adapt_channels_mono_to_stereo_attenuates_dup() {
    let mono = [0.8_f32, -0.4, 0.5, -0.2];
    let stereo = adapted(&mono, 1, 2);
    assert_eq!(stereo.len(), 8, "mono 4 帧应上混为 8 样本");
    assert_eq!(stereo[0], 0.8, "L 原样");
    assert!(
        (stereo[1] - 0.8 * std::f32::consts::FRAC_1_SQRT_2).abs() < 1e-6,
        "R 衰减 -3dB"
    );
    assert_eq!(stereo[2], -0.4, "L 原样");
    assert!(
        (stereo[3] - (-0.4 * std::f32::consts::FRAC_1_SQRT_2)).abs() < 1e-6,
        "R 衰减 -3dB"
    );
}

#[test]
fn adapt_channels_stereo_to_mono_takes_first() {
    let stereo = [0.8_f32, 0.2, -0.4, 0.1];
    let mono = adapted(&stereo, 2, 1);
    assert_eq!(mono.len(), 2, "stereo 2 帧应下混为 2 样本");
    assert_eq!(mono[0], 0.8);
    assert_eq!(mono[1], -0.4);
}

#[test]
fn adapt_channels_equal_returns_as_is() {
    let stereo = [0.8_f32, 0.2, -0.4, 0.1];
    let out = adapted(&stereo, 2, 2);
    assert_eq!(out, stereo);
}

#[test]
fn mono_advances_buf_idx_and_copies_r() {
    let mut b = ScopeBuffer::new();
    let mono = [0.1, 0.2, 0.3, 0.4];
    b.accumulate_spectrum(&bits(&mono), 1);
    assert_eq!(b.buf_idx, 4, "单声道 buf_idx 应推进样本数");
    let l_buf = numbers(&b.l_buf);
    let r_buf = numbers(&b.r_buf);
    assert_eq!(l_buf[0], 0.1);
    assert_eq!(l_buf[1], 0.2);
    assert_eq!(l_buf[2], 0.3);
    assert_eq!(l_buf[3], 0.4);
    assert_eq!(r_buf[0], 0.1);
    assert_eq!(r_buf[3], 0.4);
    assert!((f32::from_bits(b.window_peak_l) - 0.4).abs() < 1e-6);
    assert!((f32::from_bits(b.window_peak_r) - 0.4).abs() < 1e-6);
}

#[test]
fn stereo_writes_lr_and_advances_per_pair() {
    let mut b = ScopeBuffer::new();
    let stereo = [0.1, -0.2, 0.3, -0.4];
    b.accumulate_spectrum(&bits(&stereo), 2);
    assert_eq!(b.buf_idx, 2);
    let l_buf = numbers(&b.l_buf);
    let r_buf = numbers(&b.r_buf);
    assert_eq!(l_buf[0], 0.1);
    assert_eq!(l_buf[1], 0.3);
    assert_eq!(r_buf[0], -0.2);
    assert_eq!(r_buf[1], -0.4);
    assert!((f32::from_bits(b.window_peak_l) - 0.3).abs() < 1e-6);
    assert!((f32::from_bits(b.window_peak_r) - 0.4).abs() < 1e-6);
}

#[test]
fn mono_wraps_around_buffer_end() {
    let mut b = ScopeBuffer::new();
    b.buf_idx = FFT_SIZE - 2;
    let mono = [1.0, 2.0, 3.0, 4.0];
    b.accumulate_spectrum(&bits(&mono), 1);
    assert_eq!(b.buf_idx, 2, "回绕后 buf_idx 应为 4 - 2");
    let l_buf = numbers(&b.l_buf);
    assert_eq!(l_buf[FFT_SIZE - 2], 1.0);
    assert_eq!(l_buf[FFT_SIZE - 1], 2.0);
    assert_eq!(l_buf[0], 3.0);
    assert_eq!(l_buf[1], 4.0);
}

#[test]
fn push_all_aligns_to_frame_boundary() {
    let ring = HeapRb::<f32>::new(64);
    let (mut producer, _consumer) = ring.split();
    let input = [0.1f32, 0.2, 0.3, 0.4, 0.5];
    push_all(&mut producer, &input, 2);
    assert_eq!(
        producer.occupied_len(),
        4,
        "5 个 stereo 样本应只推 2 整帧（4 样本），半帧尾部丢弃"
    );
}

#[test]
fn push_all_gives_up_after_max_retries_when_full() {
    let ring = HeapRb::<f32>::new(8);
    let (mut producer, consumer) = ring.split();
    let fill = [0.0f32; 8];
    let pushed = producer.push_slice(&fill);
    assert_eq!(pushed, 8);
    assert_eq!(producer.occupied_len(), 8);
    drop(consumer);
    let input = vec![1.0f32; 64];
    assert_eq!(push_all(&mut producer, &input, 2), Some(PushStep::GiveUp));
}

#[test]
fn only_whole_frames_that_fit_are_offered() {
    let mut p = Push::new(12, 4);
    assert_eq!(p.offer(7), 4);
    assert_eq!(p.offer(3), 0);
    assert_eq!(p.took(4), PushStep::Again);
    assert_eq!(p.offer(100), 8);
    for _ in 0..MAX_RETRIES {
        assert_eq!(p.took(0), PushStep::Wait);
    }
    assert_eq!(p.took(0), PushStep::GiveUp);
    assert_eq!(p.took(8), PushStep::Again);
    assert!(p.done());
}

#[test]
fn more_channels_and_back_change_nothing() {
    let stereo = [0.1_f32, 0.2, 0.3, 0.4];
    let wide = adapted(&stereo, 2, 6);
    assert_eq!(wide.len(), 12);
    assert_eq!(adapted(&wide, 6, 2), stereo);
}

#[test]
fn levels_are_shown_once_per_window() {
    let mut m = Meter::new();
    assert!(!m.flushed(0));
    let quiet = bits(&vec![0.25f32; 2 * 479]);
    assert_eq!(m.played(&quiet, 2), (479, None));
    let loud = bits(&[2.0, -0.5]);
    let one = 1.0f32.to_bits();
    assert_eq!(m.played(&loud, 2), (1, Some((one, 0.5f32.to_bits()))));
    assert_eq!(m.window_frames, 0);
    assert!(m.flushed(1));
    assert_eq!(m.scope.buf_idx, 0);
}
