//! FLAC streams, made here by a small encoder.

use tuneux_corex::decoder::{check_seek, is_flac_path, Route};
use tuneux_corex::error::DecodeError;
use tuneux_corex::flac::backend::{probe_sample_rate, FlacBackend};
use tuneux_corex::flac::bits::BitReader;
use tuneux_corex::flac::crc::CrcTables;
use tuneux_corex::flac::metadata::{has_flac_magic, parse_metadata};
use tuneux_corex::flac::subframe::decode_subframe;

/// The extension of a path.
fn ext(path: &str) -> Option<&str> {
    std::path::Path::new(path).extension().and_then(|e| e.to_str())
}

#[derive(Default)]
struct BitWriter {
    out: Vec<u8>,
    cur: u32,
    nbits: u32,
}

impl BitWriter {
    fn write_bits(&mut self, v: u64, n: u32) {
        for i in (0..n).rev() {
            let bit = ((v >> i) & 1) as u32;
            self.cur = (self.cur << 1) | bit;
            self.nbits += 1;
            if self.nbits == 8 {
                self.out.push(self.cur as u8);
                self.cur = 0;
                self.nbits = 0;
            }
        }
    }
    fn align(&mut self) {
        if self.nbits > 0 {
            self.cur <<= 8 - self.nbits;
            self.out.push(self.cur as u8);
            self.cur = 0;
            self.nbits = 0;
        }
    }
}

fn write_signed(w: &mut BitWriter, v: i64, n: u32) {
    let mask = if n == 64 { u64::MAX } else { (1u64 << n) - 1 };
    w.write_bits((v as u64) & mask, n);
}

fn crc8_of(bytes: &[u8]) -> u8 {
    let tables = CrcTables::new();
    bytes.iter().fold(0u8, |c, &b| tables.crc8_update(c, b))
}

fn crc16_of(bytes: &[u8]) -> u16 {
    let tables = CrcTables::new();
    bytes.iter().fold(0u16, |c, &b| tables.crc16_update(c, b))
}

enum Sub {
    Constant(i64),
    Verbatim(Vec<i64>),
    Fixed {
        samples: Vec<i64>,
        order: usize,
        k: u32,
        rice2: bool,
    },
    /// One coefficient, without a shift.
    Lpc {
        samples: Vec<i64>,
        coefficient: i64,
        k: u32,
    },
}

fn fixed_residuals(samples: &[i64], order: usize) -> Vec<i64> {
    (order..samples.len())
        .map(|n| {
            let pred = match order {
                0 => 0,
                1 => samples[n - 1],
                2 => 2 * samples[n - 1] - samples[n - 2],
                3 => 3 * samples[n - 1] - 3 * samples[n - 2] + samples[n - 3],
                _ => 4 * samples[n - 1] - 6 * samples[n - 2] + 4 * samples[n - 3] - samples[n - 4],
            };
            samples[n] - pred
        })
        .collect()
}

fn write_rice(w: &mut BitWriter, residuals: &[i64], k: u32) {
    for r in residuals {
        let folded = ((r << 1) ^ (r >> 63)) as u64;
        let q = folded >> k;
        for _ in 0..q {
            w.write_bits(0, 1);
        }
        w.write_bits(1, 1);
        if k > 0 {
            w.write_bits(folded & ((1u64 << k) - 1), k);
        }
    }
}

fn encode_subframe(w: &mut BitWriter, sub: &Sub, bps: u8) {
    match sub {
        Sub::Constant(v) => {
            w.write_bits(0, 1);
            w.write_bits(0b000000, 6);
            w.write_bits(0, 1);
            write_signed(w, *v, bps as u32);
        }
        Sub::Verbatim(samples) => {
            w.write_bits(0, 1);
            w.write_bits(0b000001, 6);
            w.write_bits(0, 1);
            for &s in samples {
                write_signed(w, s, bps as u32);
            }
        }
        Sub::Fixed {
            samples,
            order,
            k,
            rice2,
        } => {
            w.write_bits(0, 1);
            w.write_bits(0b001000 | (*order as u64), 6);
            w.write_bits(0, 1);
            for &s in &samples[..*order] {
                write_signed(w, s, bps as u32);
            }
            let residuals = fixed_residuals(samples, *order);
            w.write_bits(u64::from(*rice2), 2);
            w.write_bits(0, 4);
            w.write_bits(u64::from(*k), if *rice2 { 5 } else { 4 });
            write_rice(w, &residuals, *k);
        }
        Sub::Lpc {
            samples,
            coefficient,
            k,
        } => {
            w.write_bits(0, 1);
            w.write_bits(0b100000, 6);
            w.write_bits(0, 1);
            write_signed(w, samples[0], bps as u32);
            w.write_bits(4, 4);
            write_signed(w, 0, 5);
            write_signed(w, *coefficient, 5);
            let residuals: Vec<i64> = (1..samples.len())
                .map(|n| samples[n] - coefficient * samples[n - 1])
                .collect();
            w.write_bits(0, 2);
            w.write_bits(0, 4);
            w.write_bits(u64::from(*k), 4);
            write_rice(w, &residuals, *k);
        }
    }
}

fn encode_frame(frame_no: u32, block_size: u32, ch_code: u8, bps: u8, subs: Vec<Sub>) -> Vec<u8> {
    let mut w = BitWriter::default();
    w.write_bits(0x3FFE, 14);
    w.write_bits(0, 1);
    w.write_bits(0, 1);
    w.write_bits(0b0110, 4);
    w.write_bits(0, 4);
    w.write_bits(u64::from(ch_code), 4);
    let bps_code = match bps {
        8 => 0b001,
        16 => 0b100,
        24 => 0b110,
        other => panic!("测试未覆盖位深 {other}"),
    };
    w.write_bits(bps_code, 3);
    w.write_bits(0, 1);
    w.write_bits(u64::from(frame_no), 8);
    w.write_bits(u64::from(block_size - 1), 8);
    w.align();
    let c8 = crc8_of(&w.out);
    w.write_bits(u64::from(c8), 8);
    for (i, sub) in subs.iter().enumerate() {
        let sub_bps = match (ch_code, i) {
            (8, 1) | (9, 0) | (10, 1) => bps + 1,
            _ => bps,
        };
        encode_subframe(&mut w, sub, sub_bps);
    }
    w.align();
    let c16 = crc16_of(&w.out);
    w.write_bits(u64::from(c16), 16);
    w.out
}

fn streaminfo(sr: u32, ch: u8, bps: u8, total: u64, block: u16) -> Vec<u8> {
    let mut b = Vec::new();
    b.extend_from_slice(&block.to_be_bytes());
    b.extend_from_slice(&block.to_be_bytes());
    b.extend_from_slice(&[0, 0, 0, 0, 0, 0]);
    let packed: u64 = (u64::from(sr) << 44)
        | ((u64::from(ch) - 1) << 41)
        | ((u64::from(bps) - 1) << 36)
        | (total & 0xF_FFFF_FFFF);
    b.extend_from_slice(&packed.to_be_bytes());
    b.extend_from_slice(&[0u8; 16]);
    b
}

fn meta_block(t: u8, last: bool, payload: &[u8]) -> Vec<u8> {
    let mut v = vec![
        (if last { 0x80 } else { 0 }) | t,
        ((payload.len() >> 16) & 0xFF) as u8,
        ((payload.len() >> 8) & 0xFF) as u8,
        (payload.len() & 0xFF) as u8,
    ];
    v.extend_from_slice(payload);
    v
}

fn make_flac(
    sr: u32,
    ch: u8,
    bps: u8,
    total: u64,
    block: u16,
    frames: &[Vec<u8>],
    seek_points: Option<Vec<(u64, u64)>>,
) -> Vec<u8> {
    let mut v = b"fLaC".to_vec();
    v.extend(meta_block(
        0,
        seek_points.is_none(),
        &streaminfo(sr, ch, bps, total, block),
    ));
    if let Some(points) = seek_points {
        let mut payload = Vec::new();
        for (s, o) in points {
            payload.extend_from_slice(&s.to_be_bytes());
            payload.extend_from_slice(&o.to_be_bytes());
            payload.extend_from_slice(&block.to_be_bytes());
        }
        v.extend(meta_block(3, true, &payload));
    }
    for f in frames {
        v.extend_from_slice(f);
    }
    v
}

fn decode_all(b: &mut FlacBackend) -> Vec<i64> {
    let mut out = Vec::new();
    while let Ok(Some(chunk)) = b.decode_next() {
        out.extend_from_slice(&chunk);
    }
    out
}

fn as_fractions(raw: &[i64], bps: u8) -> Vec<f32> {
    let scale = (1u64 << (bps - 1)) as f32;
    raw.iter().map(|v| *v as f32 / scale).collect()
}

fn expect_samples(out: &[i64], raw: &[i64], bps: u8) {
    assert_eq!(out.len(), raw.len(), "样本数不符");
    for (i, (o, r)) in as_fractions(out, bps).iter().zip(as_fractions(raw, bps)).enumerate() {
        assert_eq!(*o, r, "第 {i} 个样本不符");
    }
    assert_eq!(out, raw);
}

fn interleave(l: &[i64], r: &[i64]) -> Vec<i64> {
    l.iter().zip(r.iter()).flat_map(|(a, b)| [*a, *b]).collect()
}

fn first_error(b: &mut FlacBackend) -> Option<DecodeError> {
    loop {
        match b.decode_next() {
            Ok(Some(_)) => continue,
            Ok(None) => return None,
            Err(e) => return Some(e),
        }
    }
}

/// What the general decoder makes of a file.
fn outside(bytes: Vec<u8>, ext: &str) -> Vec<f32> {
    let source = symphonia::core::io::MediaSourceStream::new(Box::new(std::io::Cursor::new(bytes)), Default::default());
    let mut hint = symphonia::core::formats::probe::Hint::new();
    hint.with_extension(ext);
    let mut reader = symphonia::default::get_probe()
        .probe(&hint, source, symphonia::core::formats::FormatOptions::default(), symphonia::core::meta::MetadataOptions::default())
        .expect("symphonia 应打开");
    let track = reader.default_track(symphonia::core::formats::TrackType::Audio).expect("track");
    let id = track.id;
    let params = track.codec_params.as_ref().and_then(|p| p.audio()).expect("params").clone();
    let mut decoder = symphonia::default::get_codecs()
        .make_audio_decoder(&params, &symphonia::core::codecs::audio::AudioDecoderOptions::default())
        .expect("decoder");
    let mut out = Vec::new();
    while let Ok(Some(packet)) = reader.next_packet() {
        if packet.track_id != id {
            continue;
        }
        let decoded = decoder.decode(&packet).expect("packet");
        let mut samples: Vec<f32> = vec![0.0; decoded.samples_interleaved()];
        decoded.copy_to_slice_interleaved(&mut samples);
        out.extend_from_slice(&samples);
    }
    out
}

#[test]
fn subframe_restores_wasted_bits() {
    let mut r = BitReader::new(vec![0x01, 0x01, 0x7F], 0);
    let mut out: Vec<i64> = Vec::new();
    decode_subframe(&mut r, 1, 16, &mut out).expect("子帧应解码成功");
    assert_eq!(out, vec![0x7Fi64 << 8], "wasted=8 必须左移 8 位还原");
}

#[test]
fn subframe_without_wasted_bits_is_unchanged() {
    let mut r = BitReader::new(vec![0x00, 0x00, 0xFF], 0);
    let mut out: Vec<i64> = Vec::new();
    decode_subframe(&mut r, 1, 16, &mut out).expect("子帧应解码成功");
    assert_eq!(out, vec![0x00FFi64], "无 wasted 标志时样本原样输出");
}

#[test]
fn verbatim_stereo_roundtrip() {
    let l: Vec<i64> = vec![0, 1000, -1000, 32767, -32768, 12345, -23456, 777];
    let r: Vec<i64> = vec![-5, 6, -7, 8, -9, 10, -11, 12];
    let frame = encode_frame(
        0,
        8,
        1,
        16,
        vec![Sub::Verbatim(l.clone()), Sub::Verbatim(r.clone())],
    );
    let bytes = make_flac(44100, 2, 16, 8, 8, &[frame], None);
    let mut b = FlacBackend::open(bytes).expect("应能打开");
    let secs = b.info().total_samples as f64 / f64::from(b.info().sample_rate);
    let params = b.params(secs.to_bits());
    assert_eq!(params.sample_rate, Some(44100));
    assert_eq!(params.channels, Some(2));
    assert_eq!(params.bits_per_sample, Some(16));
    assert_eq!(params.codec_name, "FLAC");
    let d = f64::from_bits(params.duration.expect("应有时长"));
    assert!((d - 8.0 / 44100.0).abs() < 1e-9, "duration 实际 {d}");
    let out = decode_all(&mut b);
    expect_samples(&out, &interleave(&l, &r), 16);
}

#[test]
fn constant_mono() {
    let frame = encode_frame(0, 16, 0, 16, vec![Sub::Constant(-1000)]);
    let bytes = make_flac(8000, 1, 16, 16, 16, &[frame], None);
    let mut b = FlacBackend::open(bytes).expect("应能打开");
    let out = decode_all(&mut b);
    expect_samples(&out, &[-1000; 16], 16);
}

#[test]
fn fixed_orders_with_rice() {
    let s: Vec<i64> = (0..32).map(|i| i * i / 4 + 100).collect();
    for (order, k, rice2) in [
        (0usize, 4u32, false),
        (1, 2, false),
        (2, 2, false),
        (4, 3, true),
    ] {
        let frame = encode_frame(
            0,
            32,
            0,
            16,
            vec![Sub::Fixed {
                samples: s.clone(),
                order,
                k,
                rice2,
            }],
        );
        let bytes = make_flac(44100, 1, 16, 32, 32, &[frame], None);
        let mut b = FlacBackend::open(bytes).expect("应能打开");
        let out = decode_all(&mut b);
        expect_samples(&out, &s, 16);
    }
}

#[test]
fn verbatim_24bit() {
    let s: Vec<i64> = vec![0, 0x7FFFFF, -8388608, 0x123456];
    let frame = encode_frame(0, 4, 0, 24, vec![Sub::Verbatim(s.clone())]);
    let bytes = make_flac(48000, 1, 24, 4, 4, &[frame], None);
    let mut b = FlacBackend::open(bytes).expect("应能打开");
    assert_eq!(b.info().bits_per_sample, 24);
    let out = decode_all(&mut b);
    expect_samples(&out, &s, 24);
}

#[test]
fn left_side_decorrelation() {
    let l: Vec<i64> = vec![3000, -2000, 100, 5000, -8000, 12345, -32768, 32767];
    let r: Vec<i64> = vec![1000, 2500, -400, 3000, -7000, 11111, -30000, 30000];
    let side: Vec<i64> = l.iter().zip(r.iter()).map(|(a, b)| a - b).collect();
    let frame = encode_frame(
        0,
        8,
        8,
        16,
        vec![Sub::Verbatim(l.clone()), Sub::Verbatim(side)],
    );
    let bytes = make_flac(44100, 2, 16, 8, 8, &[frame], None);
    let mut b = FlacBackend::open(bytes).expect("应能打开");
    let out = decode_all(&mut b);
    expect_samples(&out, &interleave(&l, &r), 16);
}

#[test]
fn mid_side_decorrelation() {
    let l: Vec<i64> = vec![4000, -2000, 600, 8000, -9000, 12000, -30000, 32000];
    let r: Vec<i64> = vec![2000, 4000, -800, 4000, -5000, 10000, -28000, 30000];
    let mid: Vec<i64> = l.iter().zip(r.iter()).map(|(a, b)| (a + b) >> 1).collect();
    let side: Vec<i64> = l.iter().zip(r.iter()).map(|(a, b)| a - b).collect();
    let frame = encode_frame(0, 8, 10, 16, vec![Sub::Verbatim(mid), Sub::Verbatim(side)]);
    let bytes = make_flac(44100, 2, 16, 8, 8, &[frame], None);
    let mut b = FlacBackend::open(bytes).expect("应能打开");
    let out = decode_all(&mut b);
    expect_samples(&out, &interleave(&l, &r), 16);
}

#[test]
fn flac_bit_exact_against_symphonia() {
    let s: Vec<i64> = (0..64).map(|i| ((i * 37) % 199) - 99).collect();
    let frame = encode_frame(
        0,
        64,
        1,
        16,
        vec![
            Sub::Fixed {
                samples: s.clone(),
                order: 2,
                k: 4,
                rice2: false,
            },
            Sub::Verbatim(s.clone()),
        ],
    );
    let bytes = make_flac(44100, 2, 16, 64, 64, &[frame], None);
    let mut mine = FlacBackend::open(bytes.clone()).expect("自研应打开");
    let mine_out = as_fractions(&decode_all(&mut mine), 16);
    let theirs_out = outside(bytes, "flac");
    assert_eq!(mine_out.len(), theirs_out.len(), "样本总数不一致");
    for (i, (a, b)) in mine_out.iter().zip(theirs_out.iter()).enumerate() {
        assert_eq!(a.to_bits(), b.to_bits(), "第 {i} 个样本不一致：{a} vs {b}");
    }
}

#[test]
fn seek_with_seektable() {
    let frames: Vec<Vec<u8>> = (0..4)
        .map(|i| encode_frame(i, 16, 0, 16, vec![Sub::Constant(i as i64 * 100)]))
        .collect();
    let off2 = (frames[0].len() + frames[1].len()) as u64;
    let bytes = make_flac(64, 1, 16, 64, 16, &frames, Some(vec![(0, 0), (32, off2)]));
    let mut b = FlacBackend::open(bytes).expect("应能打开");
    b.seek_frame((0.5f64 * 64.0) as u64).expect("seek 应成功");
    let out = decode_all(&mut b);
    let expected: Vec<i64> = [200; 16].into_iter().chain([300; 16]).collect();
    expect_samples(&out, &expected, 16);
    for bad in [-1.0f64, f64::NAN] {
        assert!(matches!(
            check_seek(Route::Flac, bad.to_bits(), "bad"),
            Err(DecodeError::Seek(_))
        ));
    }
}

#[test]
fn seek_without_seektable_decodes_forward() {
    let ramp: Vec<i64> = (0..16).map(|i| i * 100).collect();
    let frames = vec![
        encode_frame(0, 16, 0, 16, vec![Sub::Constant(0)]),
        encode_frame(1, 16, 0, 16, vec![Sub::Verbatim(ramp.clone())]),
    ];
    let bytes = make_flac(32, 1, 16, 32, 16, &frames, None);
    let mut b = FlacBackend::open(bytes).expect("应能打开");
    b.seek_frame((0.75f64 * 32.0) as u64).expect("seek 应成功");
    let out = decode_all(&mut b);
    expect_samples(&out, &ramp[8..], 16);
}

#[test]
fn crc16_corruption_detected() {
    let frame = encode_frame(0, 16, 0, 16, vec![Sub::Constant(7)]);
    let mut bytes = make_flac(8000, 1, 16, 16, 16, std::slice::from_ref(&frame), None);
    let idx = 4 + 38 + 5;
    bytes[idx] ^= 0xFF;
    let mut b = FlacBackend::open(bytes).expect("应能打开");
    let err = first_error(&mut b);
    let msg = format!("{err:?}");
    assert!(
        err.is_some() && msg.contains("CRC"),
        "应报 CRC 错误，实际 {msg}"
    );
}

#[test]
fn crc8_corruption_detected() {
    let frame = encode_frame(0, 16, 0, 16, vec![Sub::Constant(7)]);
    let mut bytes = make_flac(8000, 1, 16, 16, 16, &[frame], None);
    let idx = 4 + 38 + 2;
    bytes[idx] ^= 0x55;
    let mut b = FlacBackend::open(bytes).expect("应能打开");
    let err = first_error(&mut b);
    let msg = format!("{err:?}");
    assert!(
        err.is_some() && msg.contains("CRC"),
        "应报 CRC 错误，实际 {msg}"
    );
}

#[test]
fn truncated_tail_is_tolerant() {
    let frames = vec![
        encode_frame(0, 16, 0, 16, vec![Sub::Constant(11)]),
        encode_frame(1, 16, 0, 16, vec![Sub::Constant(22)]),
    ];
    let mut bytes = make_flac(8000, 1, 16, 32, 16, &frames, None);
    bytes.truncate(bytes.len() - 4);
    let mut b = FlacBackend::open(bytes).expect("应能打开");
    let out = decode_all(&mut b);
    expect_samples(&out, &[11; 16], 16);
}

#[test]
fn not_flac_is_unsupported() {
    let bytes = b"NOPE________".to_vec();
    assert_eq!(probe_sample_rate(&bytes), None);
    assert!(!is_flac_path(ext("a.bin"), &bytes));
    assert!(matches!(
        FlacBackend::open(bytes),
        Err(DecodeError::Unsupported(_))
    ));
}

#[test]
fn flac_probe_and_path_detection() {
    let frame = encode_frame(0, 8, 0, 16, vec![Sub::Constant(1)]);
    let bytes = make_flac(48000, 1, 16, 8, 8, &[frame], None);
    assert_eq!(probe_sample_rate(&bytes), Some(48000));
    assert!(is_flac_path(ext("a.flac"), &bytes));
    assert!(is_flac_path(ext("a.FLAC"), b""));
    assert!(is_flac_path(ext("a"), &bytes));
}

#[test]
fn linear_prediction_is_undone() {
    let s: Vec<i64> = (0..16).map(|i| i * 50 - 300 + i % 3).collect();
    let frame = encode_frame(
        0,
        16,
        1,
        16,
        vec![
            Sub::Lpc { samples: s.clone(), coefficient: 2, k: 6 },
            Sub::Lpc { samples: s.clone(), coefficient: -1, k: 6 },
        ],
    );
    let bytes = make_flac(44100, 2, 16, 16, 16, &[frame], None);
    let mut b = FlacBackend::open(bytes.clone()).unwrap();
    let mine = decode_all(&mut b);
    assert_eq!(mine, interleave(&s, &s));
    assert_eq!(as_fractions(&mine, 16), outside(bytes, "flac"));
}

#[test]
fn right_side_decorrelation() {
    let l: Vec<i64> = vec![5, -6, 7, -8];
    let r: Vec<i64> = vec![100, 200, -300, 400];
    let side: Vec<i64> = l.iter().zip(r.iter()).map(|(a, b)| a - b).collect();
    let frame = encode_frame(0, 4, 9, 16, vec![Sub::Verbatim(side), Sub::Verbatim(r.clone())]);
    let mut b = FlacBackend::open(make_flac(44100, 2, 16, 4, 4, &[frame], None)).unwrap();
    assert_eq!(decode_all(&mut b), interleave(&l, &r));
}

#[test]
fn odd_sums_survive_mid_and_side() {
    let l: Vec<i64> = vec![1, -1, 2, -32768];
    let r: Vec<i64> = vec![2, 0, -1, 32767];
    let mid: Vec<i64> = l.iter().zip(r.iter()).map(|(a, b)| (a + b) >> 1).collect();
    let side: Vec<i64> = l.iter().zip(r.iter()).map(|(a, b)| a - b).collect();
    let frame = encode_frame(0, 4, 10, 16, vec![Sub::Verbatim(mid), Sub::Verbatim(side)]);
    let mut b = FlacBackend::open(make_flac(44100, 2, 16, 4, 4, &[frame], None)).unwrap();
    assert_eq!(decode_all(&mut b), interleave(&l, &r));
}

#[test]
fn checksums_close_over_themselves() {
    let tables = CrcTables::new();
    let text = b"123456789";
    assert_eq!(crc8_of(text), 0xF4);
    assert_eq!(crc16_of(text), 0xFEE8);
    assert_eq!(tables.crc8_update(crc8_of(text), crc8_of(text)), 0);
    let [high, low] = crc16_of(text).to_be_bytes();
    let c = tables.crc16_update(crc16_of(text), high);
    assert_eq!(tables.crc16_update(c, low), 0);
}

#[test]
fn bits_are_read_high_bit_first() {
    let mut r = BitReader::new(vec![0b1010_0001, 0xFF, 0x00, 0x80], 0);
    assert_eq!(r.read_bits(3).unwrap(), 0b101);
    assert_eq!(r.read_unary().unwrap(), 4);
    assert_eq!(r.read_signed(4).unwrap(), -1);
    r.align_byte();
    assert_eq!(r.read_bits64(16).unwrap(), 0x0080);
    assert!(r.read_bits(1).is_err());
}

#[test]
fn seek_goes_back_as_well() {
    let ramp: Vec<i64> = (0..16).collect();
    let frames = vec![encode_frame(0, 16, 0, 16, vec![Sub::Verbatim(ramp.clone())])];
    let mut b = FlacBackend::open(make_flac(16, 1, 16, 16, 16, &frames, None)).unwrap();
    assert_eq!(decode_all(&mut b).len(), 16);
    b.seek_frame(3).unwrap();
    assert_eq!(decode_all(&mut b), ramp[3..].to_vec());
}

#[test]
fn seek_point_outside_the_file_is_not_trusted() {
    let frames: Vec<Vec<u8>> = (0..2)
        .map(|i| encode_frame(i, 16, 0, 16, vec![Sub::Constant(i as i64 + 1)]))
        .collect();
    let bytes = make_flac(64, 1, 16, 32, 16, &frames, Some(vec![(16, 1 << 40)]));
    let mut b = FlacBackend::open(bytes).unwrap();
    b.seek_frame(20).unwrap();
    assert_eq!(decode_all(&mut b), vec![2; 12]);
}

#[test]
fn metadata_faults_have_their_kinds() {
    assert!(has_flac_magic(b"fLaC"));
    assert!(!has_flac_magic(b"fLa"));
    assert!(matches!(parse_metadata(b"ID3......."), Err(DecodeError::Unsupported(_))));
    let mut short = b"fLaC".to_vec();
    short.extend(meta_block(0, true, &[0u8; 8]));
    assert!(matches!(parse_metadata(&short), Err(DecodeError::Decode(_))));
    let mut none = b"fLaC".to_vec();
    none.extend(meta_block(1, true, &[0u8; 4]));
    assert!(matches!(parse_metadata(&none), Err(DecodeError::Decode(_))));
    let meta = parse_metadata(&make_flac(96000, 2, 24, 5, 8, &[], Some(vec![(7, 9)]))).unwrap();
    assert_eq!(meta.info.sample_rate, 96000);
    assert_eq!(meta.info.total_samples, 5);
    assert_eq!(meta.first_frame_offset, 4 + 38 + 4 + 18);
    let table = meta.seek_table.unwrap();
    assert_eq!((table[0].sample, table[0].offset), (7, 9));
}

#[test]
fn unknown_length_has_no_duration() {
    let frame = encode_frame(0, 16, 0, 16, vec![Sub::Constant(-1000)]);
    let bytes = make_flac(8000, 1, 16, 0, 16, &[frame], None);
    let b = FlacBackend::open(bytes).expect("open");
    assert_eq!(b.info().total_samples, 0);
    assert_eq!(b.params(1.5f64.to_bits()).duration, None);
}
