//! Chunks for a resampler with a fixed input size, with the real resampler.

use rubato::{FftFixedIn, Resampler};
use tuneux_corex::blocks::{loudness_block, Blocks};
use tuneux_corex::error::ResampleError;
use tuneux_corex::resample::{interleave_channels, Chunker};

fn bits(samples: &[f32]) -> Vec<u32> {
    samples.iter().map(|v| v.to_bits()).collect()
}

/// The resampler behind the chunks.
struct Resample {
    resampler: FftFixedIn<f32>,
    chunker: Chunker,
    channels: usize,
}

impl Resample {
    fn new(from: u32, to: u32, channels: usize, chunk: usize) -> Result<Self, ResampleError> {
        let resampler = FftFixedIn::<f32>::new(from as usize, to as usize, chunk, 4, channels)
            .map_err(|e| ResampleError::Rubato(e.to_string()))?;
        Ok(Self {
            resampler,
            chunker: Chunker::new(channels, chunk),
            channels,
        })
    }

    fn run(&mut self, chunk: Vec<Vec<u32>>, out: &mut Vec<u32>) -> Result<(), ResampleError> {
        let input: Vec<Vec<f32>> = chunk
            .iter()
            .map(|c| c.iter().map(|b| f32::from_bits(*b)).collect())
            .collect();
        let made = self
            .resampler
            .process(&input, None)
            .map_err(|e| ResampleError::Rubato(e.to_string()))?;
        let made: Vec<Vec<u32>> = made.iter().map(|c| bits(c)).collect();
        interleave_channels(&made, self.channels, out);
        Ok(())
    }

    fn process(&mut self, samples: &[f32]) -> Result<Vec<u32>, ResampleError> {
        let mut out = Vec::new();
        for chunk in self.chunker.process(&bits(samples)) {
            self.run(chunk, &mut out)?;
        }
        Ok(out)
    }

    fn flush(&mut self) -> Result<Vec<u32>, ResampleError> {
        let mut out = Vec::new();
        if let Some(chunk) = self.chunker.flush() {
            self.run(chunk, &mut out)?;
        }
        let drained = self
            .resampler
            .process_partial::<&[f32]>(None, None)
            .map_err(|e| ResampleError::Rubato(e.to_string()))?;
        let drained: Vec<Vec<u32>> = drained.iter().map(|c| bits(c)).collect();
        interleave_channels(&drained, self.channels, &mut out);
        Ok(out)
    }
}

fn sine(sr: u32, frames: usize, freq: f32, channels: usize) -> Vec<f32> {
    let mut out = Vec::with_capacity(frames * channels);
    for f in 0..frames {
        let s = (2.0 * std::f32::consts::PI * freq * f as f32 / sr as f32).sin();
        for _ in 0..channels {
            out.push(s);
        }
    }
    out
}

#[test]
fn exact_chunk_input() {
    let mut rs = Resample::new(48000, 48000, 2, 1024).unwrap();
    let input = sine(48000, 1024, 440.0, 2);
    let out = rs.process(&input).unwrap();
    assert_eq!(out.len(), 1024 * 2, "1:1 比率，输出 1024 帧 × 2 通道");
}

#[test]
fn short_input_buffers_until_full_chunk() {
    let mut rs = Resample::new(48000, 48000, 2, 1024).unwrap();
    let out1 = rs.process(&sine(48000, 100, 440.0, 2)).unwrap();
    assert_eq!(out1.len(), 0, "100 帧 < chunk_frames=1024，缓冲中无输出");
    let out2 = rs.process(&sine(48000, 924, 440.0, 2)).unwrap();
    assert_eq!(out2.len(), 1024 * 2, "凑满 1024 帧后输出 1024 帧");
}

#[test]
fn large_input_processes_in_chunks() {
    let mut rs = Resample::new(192000, 48000, 2, 1024).unwrap();
    let input = sine(192000, 16384, 440.0, 2);
    let out = rs.process(&input).unwrap();
    let expected_frames = 16384 / 4;
    let actual_frames = out.len() / 2;
    assert!(
        (actual_frames as i64 - expected_frames as i64).abs() <= 2,
        "192k→48k（1:4）大输入，输出 {actual_frames} 帧应≈{expected_frames}"
    );
}

#[test]
fn tiny_input_does_not_panic() {
    let mut rs = Resample::new(48000, 48000, 1, 1024).unwrap();
    let out = rs.process(&[0.5]).unwrap();
    assert_eq!(out.len(), 0, "1 帧输入不产生输出（待累积）");
}

#[test]
fn empty_input_returns_empty() {
    let mut rs = Resample::new(48000, 48000, 2, 1024).unwrap();
    assert!(rs.process(&[]).unwrap().is_empty());
}

#[test]
fn exact_multiple_of_chunk_does_not_overflow() {
    let mut rs = Resample::new(48000, 48000, 2, 1024).unwrap();
    let input = sine(48000, 4096, 440.0, 2);
    let out = rs.process(&input).unwrap();
    let actual = out.len() / 2;
    assert!(
        (actual as i64 - 4096).abs() <= 1,
        "整倍数输入（修复前 bug 点），输出 {actual} 帧应≈4096"
    );
}

#[test]
fn mp3_packet_size_44100_to_48000() {
    let mut rs = Resample::new(44100, 48000, 2, 1024).unwrap();
    let packet1 = sine(44100, 576, 440.0, 2);
    let out1 = rs.process(&packet1).unwrap();
    assert_eq!(
        out1.len(),
        0,
        "576 帧 MP3 包 < chunk_frames=1024，缓冲中无输出"
    );
    let packet2 = sine(44100, 448, 440.0, 2);
    let out2 = rs.process(&packet2).unwrap();
    let out_frames = out2.len() / 2;
    assert_eq!(out_frames, 960, "凑满 1024 帧后输出 3×fft_out=960 帧");
}

#[test]
fn mp3_continuous_full_chunks() {
    let mut rs = Resample::new(44100, 48000, 2, 1024).unwrap();
    let mut total_out = 0;
    for _ in 0..100 {
        let input = sine(44100, 1024, 440.0, 2);
        let out = rs.process(&input).unwrap();
        total_out += out.len() / 2;
    }
    let expected = 100.0 * 1024.0 * 48000.0 / 44100.0;
    let actual = total_out;
    assert!(
        (actual as f64 - expected).abs() / expected < 0.05,
        "100 个满块 44.1k→48k，输出 {actual} 帧应≈{expected:.0}（±5%）"
    );
}

#[test]
fn mp3_packets_accumulate_to_full_chunks() {
    let mut rs = Resample::new(44100, 48000, 2, 1024).unwrap();
    let num_packets = 383;
    let mut total_out = 0;
    for _ in 0..num_packets {
        let input = sine(44100, 576, 440.0, 2);
        let out = rs.process(&input).unwrap();
        total_out += out.len() / 2;
    }
    let expected = num_packets as f64 * 576.0 * 48000.0 / 44100.0;
    let actual = total_out;
    let ratio = actual as f64 / expected;
    assert!(
        (ratio - 1.0).abs() < 0.02,
        "{num_packets} 个 MP3 包（5s），输出 {actual} 帧应≈{expected:.0}（±2%），实际 {ratio:.3}"
    );
}

#[test]
fn flush_drains_buffer_and_filter() {
    let mut rs = Resample::new(44100, 48000, 2, 1024).unwrap();
    let packet = sine(44100, 576, 440.0, 2);
    let _ = rs.process(&packet).unwrap();
    let flushed = rs.flush().unwrap();
    let out_frames = flushed.len() / 2;
    assert!(
        out_frames >= 320,
        "flush 应抽出 ≥320 帧（缓冲+滤波器延迟），实际 {out_frames}"
    );
}

#[test]
fn flac_192k_packet() {
    let mut rs = Resample::new(192000, 48000, 2, 1024).unwrap();
    let input = sine(192000, 16384, 440.0, 2);
    let out = rs.process(&input).unwrap();
    let actual = out.len() / 2;
    assert!(
        (actual as i64 - 4096).abs() <= 2,
        "192k→48k（1:4）FLAC 整包，输出 {actual} 帧应≈4096"
    );
}

#[test]
fn chunks_hold_one_channel_each() {
    let mut c = Chunker::new(2, 3);
    assert!(c.process(&[1, 2, 3, 4]).is_empty());
    assert_eq!(c.process(&[5, 6, 7, 8]), vec![vec![vec![1, 3, 5], vec![2, 4, 6]]]);
    assert_eq!(c.flush(), Some(vec![vec![7, 0, 0], vec![8, 0, 0]]));
    assert_eq!(c.flush(), None);
}

#[test]
fn every_length_is_taken_in() {
    let mut c = Chunker::new(2, 2);
    assert!(c.process(&[1]).is_empty());
    assert!(c.process(&[]).is_empty());
    assert!(c.process(&[2, 3]).is_empty());
    assert_eq!(c.process(&[4]), vec![vec![vec![1, 3], vec![2, 4]]]);
    assert_eq!(c.flush(), None);
    assert!(c.process(&[5]).is_empty());
    assert_eq!(c.flush(), Some(vec![vec![5, 0], vec![0, 0]]));
    assert_eq!(c.flush(), None);
}

#[test]
fn interleaving_undoes_the_split() {
    let mut c = Chunker::new(2, 2);
    let chunks = c.process(&[1, 2, 3, 4, 5, 6, 7, 8]);
    let mut out = Vec::new();
    for chunk in &chunks {
        interleave_channels(chunk, 2, &mut out);
    }
    assert_eq!(out, vec![1, 2, 3, 4, 5, 6, 7, 8]);
}

#[test]
fn blocks_do_not_depend_on_how_samples_come() {
    let mut whole = Blocks::new(3);
    let a = whole.feed(&[1, 2, 3, 4, 5, 6, 7]);
    let mut parts = Blocks::new(3);
    let mut b = parts.feed(&[1, 2]);
    b.extend(parts.feed(&[]));
    b.extend(parts.feed(&[3, 4, 5]));
    b.extend(parts.feed(&[6, 7]));
    assert_eq!(a, b);
    assert_eq!(a, vec![vec![1, 2, 3], vec![4, 5, 6]]);
    assert_eq!(whole.take_rest(), vec![7]);
    assert_eq!(parts.take_rest(), vec![7]);
    assert!(parts.take_rest().is_empty());
}

#[test]
fn loudness_is_measured_over_four_tenths_of_a_second() {
    assert_eq!(loudness_block(48_000), 19_200);
    assert_eq!(loudness_block(44_100), 17_640);
    assert_eq!(loudness_block(0), 1);
    assert_eq!(loudness_block(2), 1);
}

#[test]
fn resampling_error_is_shown_with_its_text() {
    assert_eq!(ResampleError::Rubato("x".to_string()).message(), "重采样错误：x");
}
