//! Compact disc images.

use tuneux_corex::cdda::{
    detect_sector_size, CddaBackend, SAMPLES_PER_SECTOR, SECTORS_PER_SECOND, SECTOR_AUDIO,
    SECTOR_RAW,
};
use tuneux_corex::decoder::{check_seek, is_bin_path, probe_sample_rate, Route};
use tuneux_corex::error::DecodeError;
use tuneux_corex::wav::WavBackend;

/// The extension of a path.
fn ext(path: &str) -> Option<&str> {
    std::path::Path::new(path).extension().and_then(|e| e.to_str())
}

const SUBCHANNEL_SIZE: usize = SECTOR_RAW - SECTOR_AUDIO;

fn gen_pcm(sectors: usize) -> Vec<u8> {
    let mut data = Vec::with_capacity(sectors * SECTOR_AUDIO);
    for s in 0..sectors {
        for f in 0..SAMPLES_PER_SECTOR as usize {
            let v = (s * 100 + f / 10) as i16;
            data.extend_from_slice(&v.to_le_bytes());
            data.extend_from_slice(&v.to_le_bytes());
        }
    }
    data
}

fn with_subchannel(pcm: &[u8], sectors: usize) -> Vec<u8> {
    let mut raw = Vec::with_capacity(sectors * SECTOR_RAW);
    for s in 0..sectors {
        raw.extend_from_slice(&pcm[s * SECTOR_AUDIO..(s + 1) * SECTOR_AUDIO]);
        raw.extend_from_slice(&[0xAAu8; SUBCHANNEL_SIZE]);
    }
    raw
}

fn wrap_riff(pcm: &[u8]) -> Vec<u8> {
    let mut v = Vec::new();
    v.extend_from_slice(b"RIFF");
    v.extend_from_slice(&(36u32 + pcm.len() as u32).to_le_bytes());
    v.extend_from_slice(b"WAVE");
    v.extend_from_slice(b"fmt ");
    v.extend_from_slice(&16u32.to_le_bytes());
    v.extend_from_slice(&1u16.to_le_bytes());
    v.extend_from_slice(&2u16.to_le_bytes());
    v.extend_from_slice(&44100u32.to_le_bytes());
    v.extend_from_slice(&176400u32.to_le_bytes());
    v.extend_from_slice(&4u16.to_le_bytes());
    v.extend_from_slice(&16u16.to_le_bytes());
    v.extend_from_slice(b"data");
    v.extend_from_slice(&(pcm.len() as u32).to_le_bytes());
    v.extend_from_slice(pcm);
    v
}

fn decode_all(b: &mut CddaBackend) -> Vec<f32> {
    let mut out = Vec::new();
    while let Some(chunk) = b.decode_next() {
        out.extend(chunk.into_iter().map(|v| v as f32 / 32768.0));
    }
    out
}

#[test]
fn basic_2352_roundtrip() {
    let pcm = gen_pcm(4);
    let mut b = CddaBackend::open(pcm.clone()).expect("应能打开");
    let secs = b.total_sectors() as f64 / SECTORS_PER_SECOND as f64;
    let params = b.params(secs.to_bits());
    assert_eq!(params.sample_rate, Some(44100));
    assert_eq!(params.channels, Some(2));
    assert_eq!(params.bits_per_sample, Some(16));
    assert_eq!(params.codec_name, "CDDA");
    let d = f64::from_bits(params.duration.expect("应有时长"));
    assert!((d - 4.0 / 75.0).abs() < 1e-9, "duration 实际 {d}");
    let out = decode_all(&mut b);
    assert_eq!(out.len() as u64, 4 * SAMPLES_PER_SECTOR * 2);
    let idx = (SAMPLES_PER_SECTOR as usize + 20) * 2;
    assert_eq!(out[idx], 102.0 / 32768.0);
    assert_eq!(probe_sample_rate(ext("disc.bin"), Some(&pcm), None), Some(44100));
    assert!(is_bin_path(ext("disc.bin"), &pcm));
}

#[test]
fn raw_2448_subchannel_stripped() {
    let raw = with_subchannel(&gen_pcm(3), 3);
    let mut b = CddaBackend::open(raw).expect("应能打开");
    let out = decode_all(&mut b);
    assert_eq!(out.len() as u64, 3 * SAMPLES_PER_SECTOR * 2);
    let last_l = out[out.len() - 2];
    assert_eq!(last_l, 258.0 / 32768.0);
}

#[test]
fn raw_2448_multichunk_bit_exact_vs_2352() {
    let sectors = 15;
    let pcm = gen_pcm(sectors);
    let raw = with_subchannel(&pcm, sectors);
    let a = decode_all(&mut CddaBackend::open(pcm).expect("2352 应打开"));
    let b = decode_all(&mut CddaBackend::open(raw).expect("2448 应打开"));
    assert_eq!(a.len(), sectors * SAMPLES_PER_SECTOR as usize * 2, "2352 样本总数");
    assert_eq!(a.len(), b.len(), "两种形态样本总数应一致");
    for (i, (x, y)) in a.iter().zip(b.iter()).enumerate() {
        assert_eq!(x.to_bits(), y.to_bits(), "第 {i} 个样本不一致（块边界错位/丢帧）");
    }
}

#[test]
fn bit_exact_against_wav_backend() {
    let pcm = gen_pcm(6);
    let mut cdda = CddaBackend::open(pcm.clone()).expect("cdda 应打开");
    let mut wav = WavBackend::open(wrap_riff(&pcm)).expect("wav 应打开");
    let a = decode_all(&mut cdda);
    let mut b = Vec::new();
    while let Some(chunk) = wav.decode_next() {
        b.extend(chunk.into_iter().map(|v| v as f32 / 32768.0));
    }
    assert_eq!(a.len(), b.len(), "样本总数不一致");
    for (i, (x, y)) in a.iter().zip(b.iter()).enumerate() {
        assert_eq!(x.to_bits(), y.to_bits(), "第 {i} 个样本不一致：{x} vs {y}");
    }
}

#[test]
fn from_reader_cursor_source() {
    let pcm = gen_pcm(2);
    let mut b = CddaBackend::from_reader(pcm.clone(), SECTOR_AUDIO, 2).expect("应能构造");
    let out = decode_all(&mut b);
    assert_eq!(out.len() as u64, 2 * SAMPLES_PER_SECTOR * 2);
    assert!(CddaBackend::from_reader(pcm, 2400, 2).is_err());
}

#[test]
fn seek_sector_aligned() {
    let pcm = gen_pcm(75);
    let mut b = CddaBackend::open(pcm).expect("应能打开");
    b.seek_sector((0.5f64 * SECTORS_PER_SECOND as f64) as u64);
    let out = decode_all(&mut b);
    assert_eq!(out[0], 3700.0 / 32768.0);
    for bad in [-1.0f64, f64::NAN] {
        assert!(matches!(
            check_seek(Route::Cdda, bad.to_bits(), "bad"),
            Err(DecodeError::Seek(_))
        ));
    }
    b.seek_sector((999.0f64 * SECTORS_PER_SECOND as f64) as u64);
    assert!(b.decode_next().is_none());
}

#[test]
fn garbage_bin_rejected() {
    let junk = vec![0u8; 1000];
    assert!(!is_bin_path(ext("disc.bin"), &junk));
    assert!(matches!(
        CddaBackend::open(junk.clone()),
        Err(DecodeError::Unsupported(_))
    ));
    assert_eq!(probe_sample_rate(ext("disc.bin"), Some(&junk), None), None);
}

#[test]
fn only_the_extension_of_an_image_counts() {
    let pcm = gen_pcm(1);
    assert!(is_bin_path(ext("DISC.BIN"), &pcm));
    assert!(!is_bin_path(ext("disc.img"), &pcm));
    assert!(!is_bin_path(ext("bin"), &pcm));
}

#[test]
fn sector_size_follows_the_length() {
    assert_eq!(detect_sector_size(&vec![0u8; SECTOR_AUDIO]), Some(SECTOR_AUDIO));
    assert_eq!(detect_sector_size(&vec![0u8; SECTOR_RAW]), Some(SECTOR_RAW));
    assert_eq!(detect_sector_size(&vec![0u8; SECTOR_RAW + 1]), None);
}

#[test]
fn total_frames_count_whole_sectors() {
    let b = CddaBackend::open(gen_pcm(3)).unwrap();
    assert_eq!(b.total_sectors(), 3);
    assert_eq!(b.total_frames(), 3 * SAMPLES_PER_SECTOR);
}
