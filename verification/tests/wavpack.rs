//! WavPack streams, made by an encoder of another crate.

use tuneux_corex::decoder::{check_seek, is_wavpack_path, Route};
use tuneux_corex::error::DecodeError;
use tuneux_corex::wavpack::backend::{
    decode_stream, first_block, probe_sample_rate, probed_params, BlockScan, WavPackBackend,
};
use tuneux_corex::wavpack::bitstream::BsReader;
use tuneux_corex::wavpack::decorr::{
    apply_weight, decorr_mono_pass, restore_weight, update_weight, update_weight_clip, wp_exp2s,
    DecorrPass,
};
use tuneux_corex::wavpack::header::{find_first_rate, parse_block_header};

/// The extension of a path.
fn ext(path: &str) -> Option<&str> {
    std::path::Path::new(path).extension().and_then(|e| e.to_str())
}

struct Rng(u64);

impl Rng {
    fn next(&mut self) -> u64 {
        let mut x = self.0;
        x ^= x >> 12;
        x ^= x << 25;
        x ^= x >> 27;
        self.0 = x;
        x.wrapping_mul(0x2545F4914F6CDD1D)
    }
}

fn gen_samples(frames: usize, channels: usize, bits: u32, seed: u64) -> Vec<i32> {
    let mut rng = Rng(seed | 1);
    let max = (1i64 << (bits - 1)) - 1;
    let min = -(1i64 << (bits - 1));
    let mut out = Vec::with_capacity(frames * channels);
    for f in 0..frames {
        for c in 0..channels {
            let phase = (f % 977) as f64 / 977.0 * std::f64::consts::TAU;
            let seg = (f / 61) % 4;
            let v: i64 = match seg {
                0 => ((phase * (1 + c) as f64).sin() * max as f64 * 0.8) as i64,
                1 => (rng.next() as i64) % (max + 1),
                2 => 0,
                _ => {
                    if rng.next() & 1 == 1 {
                        max
                    } else {
                        min
                    }
                }
            };
            out.push(v.clamp(min, max) as i32);
        }
    }
    out
}

fn encode(channels: u32, sample_rate: u32, bits_per_sample: u32, raw: &[i32]) -> Vec<u8> {
    wavicle::encode_int(
        wavicle::EncodeParams {
            channels,
            sample_rate,
            bits_per_sample,
        },
        raw,
    )
    .expect("参考编码器应产出")
}

fn roundtrip_int(frames: usize, channels: u32, bits: u32, seed: u64) {
    let raw = gen_samples(frames, channels as usize, bits, seed);
    let bytes = encode(channels, 44100, bits, &raw);
    let mine = decode_stream(&bytes).expect("自研应解码");
    let theirs = wavicle::decode_stream(&bytes).expect("wavicle 应解码");
    assert_eq!(mine.channels, theirs.channels, "声道数不一致");
    assert_eq!(mine.sample_rate, theirs.sample_rate, "采样率不一致");
    assert_eq!(mine.bits_per_sample, theirs.bits_per_sample, "位深不一致");
    assert_eq!(mine.is_float, theirs.is_float, "float 标记不一致");
    assert_eq!(mine.samples, theirs.samples, "样本位级不一致");
    assert_eq!(mine.samples, raw, "与原样本不一致（非无损）");
}

#[test]
fn read_code_bit_order_selfcheck() {
    let mut r = BsReader::new(&[0b1110_0100]);
    assert_eq!(r.read_code(3), 0);
    assert_eq!(r.read_code(3), 2);
    assert_eq!(r.read_code(3), 1);
    assert_eq!(r.read_code(3), 3);
}

#[test]
fn getbit_lsb_first() {
    let mut r = BsReader::new(&[0b0000_0101]);
    assert_eq!(r.getbit(), 1);
    assert_eq!(r.getbit(), 0);
    assert_eq!(r.getbit(), 1);
    assert_eq!(r.getbit(), 0);
    assert_eq!(r.getbits(4), 0);
}

#[test]
fn exp2s_anchors() {
    assert_eq!(wp_exp2s(0), 0);
    assert_eq!(wp_exp2s(0x100), 1);
    assert_eq!(wp_exp2s(-0x100), -1);
    assert_eq!(wp_exp2s(0x200), 2);
    assert_eq!(wp_exp2s(0x180), 1);
    assert_eq!(wp_exp2s(-0x180), -1);
}

#[test]
fn restore_weight_values() {
    assert_eq!(restore_weight(0), 0);
    assert_eq!(restore_weight(1), 8);
    assert_eq!(restore_weight(-1), -8);
    assert_eq!(restore_weight(127), 1024);
    assert_eq!(restore_weight(-128), -1024);
}

#[test]
fn roundtrip_int16_stereo() {
    roundtrip_int(3000, 2, 16, 11);
}

#[test]
fn roundtrip_int16_mono() {
    roundtrip_int(3000, 1, 16, 22);
}

#[test]
fn roundtrip_int24_stereo() {
    roundtrip_int(2000, 2, 24, 33);
}

#[test]
fn roundtrip_int32_stereo() {
    roundtrip_int(2000, 2, 32, 44);
}

#[test]
fn roundtrip_multiblock() {
    roundtrip_int(100_000, 2, 16, 55);
}

#[test]
fn roundtrip_float32_stereo() {
    let mut rng = Rng(66 | 1);
    let frames = 2000usize;
    let mut raw = Vec::with_capacity(frames * 2);
    for f in 0..frames {
        for c in 0..2 {
            let phase = (f % 311) as f64 / 311.0 * std::f64::consts::TAU;
            let seg = (f / 53) % 3;
            let v: f32 = match seg {
                0 => ((phase * (1 + c) as f64).sin() * 0.9) as f32,
                1 => (rng.next() as f32 / u64::MAX as f32) * 2.0 - 1.0,
                _ => 0.0,
            };
            raw.push(v);
        }
    }
    let bytes = wavicle::encode_float(2, 44100, &raw).expect("参考编码器应产出");
    let mine = decode_stream(&bytes).expect("自研应解码");
    let theirs = wavicle::decode_stream(&bytes).expect("wavicle 应解码");
    assert!(mine.is_float, "应为浮点流");
    assert_eq!(mine.samples, theirs.samples, "样本位级不一致");
    let mine_f: Vec<f32> = mine
        .samples
        .iter()
        .map(|&s| f32::from_bits(s as u32))
        .collect();
    assert_eq!(mine_f.len(), raw.len());
    for (i, (a, b)) in mine_f.iter().zip(raw.iter()).enumerate() {
        assert_eq!(
            a.to_bits(),
            b.to_bits(),
            "第 {i} 个浮点样本不一致：{a} vs {b}"
        );
    }
}

#[test]
fn int8_is_unsupported() {
    let raw = gen_samples(64, 1, 8, 77);
    let bytes = encode(1, 8000, 8, &raw);
    assert!(matches!(
        decode_stream(&bytes),
        Err(DecodeError::Unsupported(_))
    ));
}

#[test]
fn backend_end_to_end() {
    let raw = gen_samples(1000, 2, 16, 88);
    let bytes = encode(2, 44100, 16, &raw);
    let mut b = WavPackBackend::open(&bytes).expect("应能打开");
    let secs = b.total_frames() as f64 / f64::from(b.sample_rate());
    let params = b.params(secs.to_bits());
    assert_eq!(params.sample_rate, Some(44100));
    assert_eq!(params.channels, Some(2));
    assert_eq!(params.bits_per_sample, Some(16));
    assert_eq!(params.codec_name, "WavPack");
    assert!(!b.is_float());
    let d = f64::from_bits(params.duration.expect("应有时长"));
    assert!((d - 1000.0 / 44100.0).abs() < 1e-9, "duration 实际 {d}");
    let mut out: Vec<f32> = Vec::new();
    while let Some(chunk) = b.decode_next() {
        out.extend(chunk.iter().map(|s| (*s as f64 / 32768.0) as f32));
    }
    assert_eq!(out.len(), raw.len());
    for (i, (o, s)) in out.iter().zip(raw.iter()).enumerate() {
        assert_eq!(*o, (*s as f64 / 32768.0) as f32, "第 {i} 个样本不符");
    }
    b.seek_frame((0.01f64 * 44100.0) as u64);
    let mut tail = Vec::new();
    while let Some(chunk) = b.decode_next() {
        tail.extend_from_slice(&chunk);
    }
    assert_eq!(tail[0], raw[441 * 2]);
    assert_eq!(tail.len(), raw.len() - 441 * 2);
    b.seek_frame((999.0f64 * 44100.0) as u64);
    assert!(b.decode_next().is_none());
    for bad in [-1.0f64, f64::NAN] {
        assert!(matches!(
            check_seek(Route::WavPack, bad.to_bits(), "bad"),
            Err(DecodeError::Seek(_))
        ));
    }
}

#[test]
fn probe_sample_rate_paths() {
    let raw = gen_samples(16, 1, 16, 99);
    let bytes = encode(1, 44100, 16, &raw);
    assert_eq!(probe_sample_rate(&bytes), Some(44100));
    assert!(is_wavpack_path(ext("a.wv")));
    let bytes = encode(1, 46000, 16, &raw);
    assert_eq!(probe_sample_rate(&bytes), Some(46000));
}

#[test]
fn error_classification() {
    assert!(matches!(
        decode_stream(b"NOPE________"),
        Err(DecodeError::Decode(_))
    ));
    let raw = gen_samples(16, 1, 16, 111);
    let good = encode(1, 8000, 16, &raw);

    let mut hybrid = good.clone();
    hybrid[24] |= 1 << 3;
    assert!(matches!(
        decode_stream(&hybrid),
        Err(DecodeError::Unsupported(_))
    ));

    let mut badver = good.clone();
    badver[8] = 0x00;
    badver[9] = 0x05;
    assert!(matches!(
        decode_stream(&badver),
        Err(DecodeError::Unsupported(_))
    ));

    let truncated = &good[..good.len() / 2];
    assert!(matches!(
        decode_stream(truncated),
        Err(DecodeError::Decode(_))
    ));
}

#[test]
fn crc_corruption_detected() {
    let raw = gen_samples(500, 1, 16, 222);
    let mut bytes = encode(1, 8000, 16, &raw);
    let idx = 60;
    bytes[idx] ^= 0xFF;
    assert!(matches!(decode_stream(&bytes), Err(DecodeError::Decode(_))));
}

#[test]
fn roundtrip_int24_mono() {
    roundtrip_int(1500, 1, 24, 5);
}

#[test]
fn roundtrip_int32_mono() {
    roundtrip_int(1500, 1, 32, 6);
}

#[test]
fn special_floats_survive() {
    let raw: Vec<f32> = vec![
        0.0,
        -0.0,
        1.0,
        -1.0,
        f32::MIN_POSITIVE,
        1e-40,
        f32::MAX,
        0.1,
        3.5e20,
        -2.5e-20,
        0.5,
        0.25,
    ];
    let bytes = wavicle::encode_float(1, 44100, &raw).expect("encode");
    let mine = decode_stream(&bytes).expect("decode");
    let back: Vec<u32> = mine.samples.iter().map(|&s| s as u32).collect();
    let bits: Vec<u32> = raw.iter().map(|v| v.to_bits()).collect();
    assert_eq!(back, bits);
}

#[test]
fn chunks_are_of_one_size() {
    let raw = gen_samples(10_000, 1, 16, 3);
    let mut b = WavPackBackend::open(&encode(1, 8000, 16, &raw)).unwrap();
    assert_eq!(b.total_frames(), 10_000);
    let mut sizes = Vec::new();
    while let Some(chunk) = b.decode_next() {
        sizes.push(chunk.len());
    }
    assert_eq!(sizes, vec![4096, 4096, 1808]);
}

#[test]
fn scan_counts_the_frames_of_all_blocks() {
    let raw = gen_samples(100_000, 2, 16, 9);
    let bytes = encode(2, 44100, 16, &raw);
    let (header, _) = first_block(&bytes).expect("block");
    let mut scan = BlockScan::new(&header, bytes.len() as u64);
    while let Some(at) = scan.ask() {
        let at = at as usize;
        if at + 32 <= bytes.len() {
            scan.tell(Some(&bytes[at..at + 32]));
        } else {
            scan.tell(None);
        }
    }
    assert_eq!(scan.frames(), Some(100_000));
}

#[test]
fn weights_round_and_stay_in_bounds() {
    assert_eq!(apply_weight(1024, 100), 100);
    assert_eq!(apply_weight(512, 101), 51);
    assert_eq!(apply_weight(0, 12345), 0);
    let mut w = 10;
    update_weight(&mut w, 2, 5, 7);
    assert_eq!(w, 12);
    update_weight(&mut w, 2, 5, -7);
    assert_eq!(w, 10);
    update_weight(&mut w, 2, 0, -7);
    assert_eq!(w, 10);
    let mut c = 1023;
    update_weight_clip(&mut c, 2, 5, 7);
    assert_eq!(c, 1024);
    let mut d = -1023;
    update_weight_clip(&mut d, 2, -5, 7);
    assert_eq!(d, -1024);
}

#[test]
fn pass_of_term_one_adds_up() {
    let mut p = DecorrPass {
        term: 1,
        delta: 0,
        weight_a: 1024,
        weight_b: 0,
        samples_a: [5, 0, 0, 0, 0, 0, 0, 0],
        samples_b: [0; 8],
    };
    let mut buf = vec![1, 2, 3];
    decorr_mono_pass(&mut p, &mut buf);
    assert_eq!(buf, vec![6, 8, 11]);
    assert_eq!(p.samples_a[0], 11);
}

#[test]
fn header_fields_are_read() {
    let bytes = encode(2, 44100, 16, &gen_samples(8, 2, 16, 1));
    let h = parse_block_header(&bytes).unwrap();
    assert_eq!(h.bytes_per_sample(), 2);
    assert_eq!(h.block_samples, 8);
    assert_eq!(h.channels(), 2);
    assert_eq!(h.srate_index(), 9);
    assert!(!h.float_data());
    assert!(matches!(parse_block_header(&bytes[..31]), Err(DecodeError::Decode(_))));
    assert_eq!(find_first_rate(&[0x27, 2, 0x80, 0xBB, 0x00, 0x00]), Some(48_000));
}

#[test]
fn reader_knows_when_it_is_empty() {
    let mut r = BsReader::new(&[0xFF]);
    assert!(!r.exhausted());
    assert_eq!(r.getbits(8), 0xFF);
    assert!(!r.exhausted());
    let _ = r.getbit();
    assert!(r.exhausted());
}

#[test]
fn streams_of_one_format_join() {
    let (x, y) = (gen_samples(700, 2, 16, 5), gen_samples(300, 2, 16, 6));
    let mut bytes = encode(2, 44100, 16, &x);
    bytes.extend(encode(2, 44100, 16, &y));
    let d = decode_stream(&bytes).expect("joined");
    let mut all = x;
    all.extend(y);
    assert_eq!(d.samples, all);
    assert_eq!((d.channels, d.sample_rate, d.bits_per_sample), (2, 44100, 16));
}

#[test]
fn streams_of_two_formats_do_not_join() {
    let (x, y) = (gen_samples(100, 2, 16, 5), gen_samples(100, 1, 16, 6));
    let first = encode(2, 44100, 16, &x);
    for second in [encode(1, 44100, 16, &y), encode(2, 48000, 16, &x)] {
        let mut bytes = first.clone();
        bytes.extend(second);
        match decode_stream(&bytes) {
            Err(DecodeError::Decode(text)) => assert_eq!(text, "WavPack 多块格式中途变化"),
            _ => panic!(),
        }
    }
}

#[test]
fn tag_behind_the_blocks_is_left_out() {
    let raw = gen_samples(100, 2, 16, 9);
    let plain = encode(2, 44100, 16, &raw);
    for tag in [b"TAG".to_vec(), vec![b'A'; 200]] {
        let mut bytes = plain.clone();
        bytes.extend(tag);
        assert_eq!(decode_stream(&bytes).expect("with a tag").samples, raw);
    }
}

#[test]
fn probed_length_needs_a_rate_and_a_count() {
    let bytes = encode(2, 44100, 16, &gen_samples(50, 2, 16, 1));
    let (header, _) = first_block(&bytes).unwrap();
    let p = probed_params(&header, 44100, Some(50), 7);
    assert_eq!((p.sample_rate, p.channels, p.bits_per_sample), (Some(44100), Some(2), Some(16)));
    assert_eq!((p.codec_name.as_str(), p.track_id, p.duration), ("WavPack", 0, Some(7)));
    assert_eq!(probed_params(&header, 44100, None, 7).duration, None);
    assert_eq!(probed_params(&header, 0, Some(50), 7).duration, None);
}
