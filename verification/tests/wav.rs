//! RIFF/WAVE files.

use tuneux_corex::decoder::{check_seek, is_wav_path, probe_sample_rate as probe, Route};
use tuneux_corex::error::DecodeError;
use tuneux_corex::wav::{
    convert_sample, has_wave_magic, parse_header, probe_sample_rate, SampleFormat, WavBackend,
};

/// The extension of a path.
fn ext(path: &str) -> Option<&str> {
    std::path::Path::new(path).extension().and_then(|e| e.to_str())
}

fn make_wav(tag: u16, channels: u16, sample_rate: u32, bits: u16, data: &[u8]) -> Vec<u8> {
    let bps = (bits / 8) as u32;
    let block_align = (channels as u32 * bps) as u16;
    let byte_rate = sample_rate * block_align as u32;
    let mut v = Vec::new();
    v.extend_from_slice(b"RIFF");
    v.extend_from_slice(&(36u32 + data.len() as u32).to_le_bytes());
    v.extend_from_slice(b"WAVE");
    v.extend_from_slice(b"fmt ");
    v.extend_from_slice(&16u32.to_le_bytes());
    v.extend_from_slice(&tag.to_le_bytes());
    v.extend_from_slice(&channels.to_le_bytes());
    v.extend_from_slice(&sample_rate.to_le_bytes());
    v.extend_from_slice(&byte_rate.to_le_bytes());
    v.extend_from_slice(&block_align.to_le_bytes());
    v.extend_from_slice(&bits.to_le_bytes());
    v.extend_from_slice(b"data");
    v.extend_from_slice(&(data.len() as u32).to_le_bytes());
    v.extend_from_slice(data);
    v
}

fn make_wav_extensible(
    sub_tag: u16,
    channels: u16,
    sample_rate: u32,
    container_bits: u16,
    valid_bits: u16,
    data: &[u8],
) -> Vec<u8> {
    let bps = (container_bits / 8) as u32;
    let block_align = (channels as u32 * bps) as u16;
    let byte_rate = sample_rate * block_align as u32;
    let mut fmt = Vec::new();
    fmt.extend_from_slice(&0xFFFEu16.to_le_bytes());
    fmt.extend_from_slice(&channels.to_le_bytes());
    fmt.extend_from_slice(&sample_rate.to_le_bytes());
    fmt.extend_from_slice(&byte_rate.to_le_bytes());
    fmt.extend_from_slice(&block_align.to_le_bytes());
    fmt.extend_from_slice(&container_bits.to_le_bytes());
    fmt.extend_from_slice(&22u16.to_le_bytes());
    fmt.extend_from_slice(&valid_bits.to_le_bytes());
    fmt.extend_from_slice(&0u32.to_le_bytes());
    fmt.extend_from_slice(&sub_tag.to_le_bytes());
    fmt.extend_from_slice(&[0u8; 14]);
    let mut v = Vec::new();
    v.extend_from_slice(b"RIFF");
    v.extend_from_slice(&(4u32 + 8 + 40 + 8 + data.len() as u32).to_le_bytes());
    v.extend_from_slice(b"WAVE");
    v.extend_from_slice(b"fmt ");
    v.extend_from_slice(&40u32.to_le_bytes());
    v.extend_from_slice(&fmt);
    v.extend_from_slice(b"data");
    v.extend_from_slice(&(data.len() as u32).to_le_bytes());
    v.extend_from_slice(data);
    v
}

/// A sample as a fraction of full scale.
fn normalise(format: SampleFormat, v: i64) -> f32 {
    match format {
        SampleFormat::PcmU8 => v as f32 / 128.0,
        SampleFormat::Pcm16 => v as f32 / 32768.0,
        SampleFormat::Pcm24 => v as f32 / 8_388_608.0,
        SampleFormat::Pcm32 => v as f32 / 2_147_483_648.0,
        SampleFormat::Float32 => f32::from_bits(v as u32),
        SampleFormat::Float64 => f64::from_bits(v as u64) as f32,
    }
}

fn decode_all(b: &mut WavBackend) -> Vec<f32> {
    let format = b.header().format;
    let mut out = Vec::new();
    while let Some(chunk) = b.decode_next() {
        out.extend(chunk.into_iter().map(|v| normalise(format, v)));
    }
    out
}

/// What the general decoder makes of a file.
fn outside(bytes: Vec<u8>, ext: &str) -> Vec<f32> {
    let source = symphonia::core::io::MediaSourceStream::new(Box::new(std::io::Cursor::new(bytes)), Default::default());
    let mut hint = symphonia::core::formats::probe::Hint::new();
    hint.with_extension(ext);
    let mut reader = symphonia::default::get_probe()
        .probe(&hint, source, symphonia::core::formats::FormatOptions::default(), symphonia::core::meta::MetadataOptions::default())
        .expect("symphonia 应打开");
    let track = reader.default_track(symphonia::core::formats::TrackType::Audio).expect("track");
    let id = track.id;
    let params = track.codec_params.as_ref().and_then(|p| p.audio()).expect("params").clone();
    let mut decoder = symphonia::default::get_codecs()
        .make_audio_decoder(&params, &symphonia::core::codecs::audio::AudioDecoderOptions::default())
        .expect("decoder");
    let mut out = Vec::new();
    while let Ok(Some(packet)) = reader.next_packet() {
        if packet.track_id != id {
            continue;
        }
        let decoded = decoder.decode(&packet).expect("packet");
        let mut samples: Vec<f32> = vec![0.0; decoded.samples_interleaved()];
        decoded.copy_to_slice_interleaved(&mut samples);
        out.extend_from_slice(&samples);
    }
    out
}

fn assert_same_bits(mine: &[f32], theirs: &[f32]) {
    assert_eq!(mine.len(), theirs.len(), "样本总数不一致");
    for (i, (a, b)) in mine.iter().zip(theirs.iter()).enumerate() {
        assert_eq!(a.to_bits(), b.to_bits(), "第 {i} 个样本不一致：{a} vs {b}");
    }
}

#[test]
fn pcm16_stereo_roundtrip() {
    let samples: Vec<i16> = vec![0, 1000, -1000, 32767, -32768, 12345];
    let mut data = Vec::new();
    for s in &samples {
        data.extend_from_slice(&s.to_le_bytes());
    }
    let mut b = WavBackend::open(make_wav(1, 2, 44100, 16, &data)).expect("应能打开");
    let secs = b.total_frames() as f64 / b.header().sample_rate as f64;
    let params = b.params(secs.to_bits());
    assert_eq!(params.sample_rate, Some(44100));
    assert_eq!(params.channels, Some(2));
    assert_eq!(params.bits_per_sample, Some(16));
    assert_eq!(params.codec_name, "PCM");
    assert_eq!(params.track_id, 0);
    let d = f64::from_bits(params.duration.expect("应有时长"));
    assert!((d - 3.0 / 44100.0).abs() < 1e-9, "duration 实际 {d}");
    let out = decode_all(&mut b);
    assert_eq!(out.len(), samples.len());
    for (o, s) in out.iter().zip(&samples) {
        assert_eq!(*o, *s as f32 / 32768.0, "样本值不符");
    }
}

#[test]
fn pcm8_unsigned_zero_center() {
    let data = vec![0u8, 128, 255];
    let mut b = WavBackend::open(make_wav(1, 1, 8000, 8, &data)).expect("应能打开");
    let out = decode_all(&mut b);
    assert_eq!(out, vec![-1.0, 0.0, 127.0 / 128.0]);
}

#[test]
fn pcm24_sign_extension() {
    let data = vec![0x00u8, 0x00, 0x80, 0xFF, 0xFF, 0x7F];
    let mut b = WavBackend::open(make_wav(1, 1, 48000, 24, &data)).expect("应能打开");
    let out = decode_all(&mut b);
    assert_eq!(out[0], -1.0);
    assert_eq!(out[1], 8_388_607.0 / 8_388_608.0);
}

#[test]
fn pcm32_and_floats() {
    let mut data = Vec::new();
    data.extend_from_slice(&i32::MIN.to_le_bytes());
    data.extend_from_slice(&i32::MAX.to_le_bytes());
    let mut b = WavBackend::open(make_wav(1, 1, 44100, 32, &data)).expect("应能打开");
    let out = decode_all(&mut b);
    assert_eq!(out[0], -1.0);
    assert_eq!(out[1], 2_147_483_647.0 / 2_147_483_648.0);

    let mut data = Vec::new();
    data.extend_from_slice(&0.5f32.to_le_bytes());
    data.extend_from_slice(&(-0.25f32).to_le_bytes());
    let mut b = WavBackend::open(make_wav(3, 1, 44100, 32, &data)).expect("应能打开");
    let out = decode_all(&mut b);
    assert_eq!(out, vec![0.5, -0.25]);

    let mut data = Vec::new();
    data.extend_from_slice(&0.75f64.to_le_bytes());
    let mut b = WavBackend::open(make_wav(3, 1, 44100, 64, &data)).expect("应能打开");
    let out = decode_all(&mut b);
    assert_eq!(out, vec![0.75]);
}

#[test]
fn extensible_24_in_32_msb_aligned() {
    let mut data = Vec::new();
    data.extend_from_slice(&0x4000_0000i32.to_le_bytes());
    let mut b = WavBackend::open(make_wav_extensible(1, 1, 44100, 32, 24, &data)).expect("应能打开");
    let out = decode_all(&mut b);
    assert_eq!(out, vec![0.5]);
}

#[test]
fn malformed_headers_rejected() {
    assert!(matches!(
        WavBackend::open(b"NOPE________".to_vec()),
        Err(DecodeError::Unsupported(_))
    ));
    assert!(WavBackend::open(make_wav(1, 0, 44100, 16, &[0, 0])).is_err());
    assert!(matches!(
        WavBackend::open(make_wav(2, 1, 44100, 4, &[0u8; 16])),
        Err(DecodeError::Unsupported(_))
    ));
}

#[test]
fn truncated_data_is_tolerant() {
    let mut bytes = make_wav(1, 1, 8000, 16, &[0x34, 0x12, 0x78, 0x56]);
    bytes.truncate(bytes.len() - 1);
    let mut b = WavBackend::open(bytes).expect("应能打开");
    let out = decode_all(&mut b);
    assert_eq!(out.len(), 1);
    assert_eq!(out[0], 0x1234 as f32 / 32768.0);
}

#[test]
fn seek_lands_on_frame_boundary() {
    let mut data = Vec::new();
    for i in 0..10i16 {
        data.extend_from_slice(&(i * 1000).to_le_bytes());
    }
    let mut b = WavBackend::open(make_wav(1, 1, 10, 16, &data)).expect("应能打开");
    b.seek_frame((0.55f64 * 10.0) as u64);
    let out = decode_all(&mut b);
    assert_eq!(out[0], 5000.0 / 32768.0);
    assert_eq!(out.len(), 5);
    for bad in [-1.0f64, f64::NAN] {
        assert!(matches!(
            check_seek(Route::Wav, bad.to_bits(), "bad"),
            Err(DecodeError::Seek(_))
        ));
    }
    assert!(check_seek(Route::Wav, 999.0f64.to_bits(), "999").is_ok());
    b.seek_frame((999.0f64 * 10.0) as u64);
    assert!(b.decode_next().is_none());
}

#[test]
fn wav_probe_and_path_detection() {
    let bytes = make_wav(1, 2, 48000, 16, &[0, 0]);
    assert_eq!(probe_sample_rate(&bytes), Some(48000));
    assert_eq!(probe(ext("a.wav"), Some(&bytes), None), Some(48000));
    assert!(is_wav_path(ext("a.wav"), &bytes));
    let bytes = make_wav(1, 1, 44100, 16, &[0, 0]);
    assert!(is_wav_path(ext("a.bin"), &bytes));
}

#[test]
fn wav_bit_exact_against_symphonia() {
    let raw: Vec<i16> = (0..5000)
        .map(|i| ((i * 7919) % 65536 - 32768) as i16)
        .collect();
    let mut data = Vec::new();
    for s in &raw {
        data.extend_from_slice(&s.to_le_bytes());
    }
    let bytes = make_wav(1, 2, 44100, 16, &data);
    let mut mine = WavBackend::open(bytes.clone()).expect("自研应打开");
    assert_same_bits(&decode_all(&mut mine), &outside(bytes, "wav"));
}

#[test]
fn bit_exact_against_symphonia_24bit() {
    let raw: Vec<i32> = vec![0, 1, -1, 0x7FFFFF, -8388608, 0x123456, -0x123456];
    let mut data = Vec::new();
    for s in &raw {
        data.extend_from_slice(&s.to_le_bytes()[0..3]);
    }
    let bytes = make_wav(1, 1, 48000, 24, &data);
    let mut mine = WavBackend::open(bytes.clone()).expect("自研应打开");
    assert_same_bits(&decode_all(&mut mine), &outside(bytes, "wav"));
}

#[test]
fn chunks_follow_each_other_without_a_gap() {
    let mut data = Vec::new();
    for i in 0..10_000i32 {
        data.extend_from_slice(&((i % 30_000) as i16).to_le_bytes());
    }
    let mut b = WavBackend::open(make_wav(1, 1, 8000, 16, &data)).unwrap();
    let mut sizes = Vec::new();
    let mut all = Vec::new();
    while let Some(chunk) = b.decode_next() {
        sizes.push(chunk.len());
        all.extend(chunk);
    }
    assert_eq!(sizes, vec![4096, 4096, 1808]);
    assert_eq!(all, (0..10_000i64).collect::<Vec<i64>>());
}

#[test]
fn other_chunks_are_passed_over() {
    let plain = make_wav(1, 1, 8000, 16, &[1, 0]);
    let mut v = plain[..12].to_vec();
    v.extend_from_slice(b"LIST");
    v.extend_from_slice(&3u32.to_le_bytes());
    v.extend_from_slice(&[9, 9, 9, 0]);
    v.extend_from_slice(&plain[12..]);
    let mut b = WavBackend::open(v).expect("open");
    assert_eq!(b.decode_next(), Some(vec![1]));
}

#[test]
fn each_header_fault_has_its_kind() {
    assert!(matches!(parse_header(&[0u8; 5]), Err(DecodeError::Io(_))));
    let mut no_data = make_wav(1, 1, 8000, 16, &[]);
    no_data.truncate(36);
    assert!(matches!(parse_header(&no_data), Err(DecodeError::Unsupported(_))));
    assert!(matches!(
        parse_header(&make_wav(1, 1, 0, 16, &[0, 0])),
        Err(DecodeError::Decode(_))
    ));
    let mut align = make_wav(1, 1, 8000, 16, &[0, 0]);
    align[32] = 1;
    assert!(matches!(parse_header(&align), Err(DecodeError::Decode(_))));
    assert!(parse_header(&make_wav(1, 1, 8000, 16, &[0, 0])).is_ok());
}

#[test]
fn samples_are_read_low_byte_first() {
    let b = [0u8, 0x80, 0xFF, 0x7F, 1, 2, 3, 4];
    assert_eq!(convert_sample(SampleFormat::PcmU8, &b, 1), 0);
    assert_eq!(convert_sample(SampleFormat::Pcm16, &b, 0), -32768);
    assert_eq!(convert_sample(SampleFormat::Pcm16, &b, 2), 32767);
    assert_eq!(convert_sample(SampleFormat::Pcm24, &b, 4), 0x030201);
    assert_eq!(convert_sample(SampleFormat::Pcm32, &b, 4), 0x04030201);
    assert_eq!(convert_sample(SampleFormat::Float32, &b, 4), 0x04030201);
    assert_eq!(convert_sample(SampleFormat::Float64, &b, 0), 0x040302017FFF8000);
    assert_eq!(SampleFormat::Float64.bytes(), 8);
    assert!(has_wave_magic(b"RIFF....WAVE"));
    assert!(!has_wave_magic(b"RIFF....WAV"));
}

#[test]
fn format_chunk_of_odd_length_is_padded() {
    let plain = make_wav(1, 1, 8000, 16, &[1, 0, 2, 0]);
    let mut v = plain[..16].to_vec();
    v.extend_from_slice(&17u32.to_le_bytes());
    v.extend_from_slice(&plain[20..36]);
    v.extend_from_slice(&[7, 0]);
    v.extend_from_slice(&plain[36..]);
    let mut b = WavBackend::open(v).expect("open");
    assert_eq!(b.decode_next(), Some(vec![1, 2]));
    assert_eq!(b.decode_next(), None);
}
