//! Opus streams: heads, packets, the samples to skip, and seeking.

use tuneux_corex::error::DecodeError;
use tuneux_corex::opus::{
    choose_output_rate, is_header_packet, map_opus_error, parse_opus_head, probe_sample_rate,
    OpusFault, OpusStream, Search,
};

fn build_opus_head(
    version: u8,
    channels: u8,
    pre_skip: u16,
    input_sample_rate: u32,
    output_gain: i16,
    mapping_family: u8,
) -> Vec<u8> {
    let mut buf = Vec::with_capacity(19);
    buf.extend_from_slice(b"OpusHead");
    buf.push(version);
    buf.push(channels);
    buf.extend_from_slice(&pre_skip.to_le_bytes());
    buf.extend_from_slice(&input_sample_rate.to_le_bytes());
    buf.extend_from_slice(&output_gain.to_le_bytes());
    buf.push(mapping_family);
    assert_eq!(buf.len(), 19);
    buf
}

fn page(granule: u64, sequence: u32, packets: &[Vec<u8>]) -> Vec<u8> {
    let mut out = Vec::new();
    out.extend_from_slice(b"OggS");
    out.push(0);
    out.push(0);
    out.extend_from_slice(&granule.to_le_bytes());
    out.extend_from_slice(&7u32.to_le_bytes());
    out.extend_from_slice(&sequence.to_le_bytes());
    out.extend_from_slice(&0u32.to_le_bytes());
    out.push(packets.len() as u8);
    for p in packets {
        out.push(p.len() as u8);
    }
    for p in packets {
        out.extend_from_slice(p);
    }
    out
}

/// A stream of a head, tags, and two pages of two audio packets each.
fn stream(pre_skip: u16, rate: u32) -> Vec<u8> {
    let mut v = page(0, 0, &[build_opus_head(1, 2, pre_skip, rate, 0, 0)]);
    v.extend(page(0, 1, &[b"OpusTags....".to_vec()]));
    v.extend(page(1920, 2, &[vec![1, 1], vec![2, 2, 2]]));
    v.extend(page(3840, 3, &[vec![3], vec![4, 4]]));
    v
}

#[test]
fn parse_valid_opus_head_default_fields() {
    let pkt = build_opus_head(1, 2, 312, 48_000, 0, 0);
    let (rate, ch, pre) = parse_opus_head(&pkt).expect("合法 OpusHead 应解析成功");
    assert_eq!(rate, 48_000, "输入采样率应为 48000");
    assert_eq!(ch, 2, "声道数应为 2");
    assert_eq!(pre, 312, "预跳过应为 312");
}

#[test]
fn parse_valid_opus_head_custom_fields() {
    let pkt = build_opus_head(1, 1, 120, 16_000, -128, 0);
    let (rate, ch, pre) = parse_opus_head(&pkt).expect("应解析");
    assert_eq!(rate, 16_000);
    assert_eq!(ch, 1);
    assert_eq!(pre, 120);
}

#[test]
fn parse_valid_opus_head_edge_values() {
    let pkt = build_opus_head(1, 2, 0, 8_000, 0, 0);
    let (rate, ch, pre) = parse_opus_head(&pkt).expect("应解析");
    assert_eq!(rate, 8_000);
    assert_eq!(ch, 2);
    assert_eq!(pre, 0);
}

#[test]
fn parse_valid_opus_head_24khz() {
    let pkt = build_opus_head(1, 1, 0, 24_000, 0, 0);
    let (rate, _, _) = parse_opus_head(&pkt).expect("应解析");
    assert_eq!(rate, 24_000);
}

#[test]
fn reject_too_short_packet_returns_unsupported() {
    let pkt: Vec<u8> = b"OpusHead".to_vec();
    assert_eq!(pkt.len(), 8);
    let err = parse_opus_head(&pkt).expect_err("过短应报错");
    assert!(matches!(err, DecodeError::Unsupported(_)));
    let msg = err.message();
    assert!(
        msg.contains("OpusHead") || msg.contains("头包"),
        "错误信息应指明非 OpusHead 头包，实际：{msg}"
    );
}

#[test]
fn reject_bad_magic_returns_unsupported() {
    let mut pkt = build_opus_head(1, 2, 0, 48_000, 0, 0);
    pkt[7] = 0xFF;
    let err = parse_opus_head(&pkt).expect_err("魔数错应报错");
    let msg = err.message();
    assert!(msg.contains("OpusHead"), "错误信息应指明非 OpusHead，实际：{msg}");
}

#[test]
fn reject_unsupported_opus_version_returns_unsupported() {
    let pkt = build_opus_head(2, 2, 0, 48_000, 0, 0);
    let err = parse_opus_head(&pkt).expect_err("版本 2 应报错");
    let msg = err.message();
    assert!(msg.contains("版本"), "错误信息应说明版本问题，实际：{msg}");
}

#[test]
fn reject_nonzero_mapping_family_returns_unsupported() {
    let pkt = build_opus_head(1, 2, 0, 48_000, 0, 1);
    let err = parse_opus_head(&pkt).expect_err("映射族 1 应报错");
    let msg = err.message();
    assert!(msg.contains("映射族"), "错误信息应说明映射族不受支持，实际：{msg}");
}

#[test]
fn reject_mapping_family_255_returns_unsupported() {
    let pkt = build_opus_head(1, 2, 0, 48_000, 0, 255);
    assert!(parse_opus_head(&pkt).is_err(), "映射族 255 应同样被拒");
}

#[test]
fn output_rate_is_one_the_decoder_has() {
    for rate in [8_000, 12_000, 16_000, 24_000, 48_000] {
        assert_eq!(choose_output_rate(rate), rate);
    }
    assert_eq!(choose_output_rate(44_100), 48_000);
    assert_eq!(choose_output_rate(0), 48_000);
}

#[test]
fn header_packets_are_no_audio() {
    assert!(is_header_packet(b"OpusHead and more"));
    assert!(is_header_packet(b"OpusTags and more"));
    assert!(!is_header_packet(b"OpusTag"));
    assert!(!is_header_packet(&[1, 2, 3]));
}

#[test]
fn audio_packets_come_in_order() {
    let mut s = OpusStream::open(stream(312, 44_100)).expect("open");
    assert_eq!(s.sample_rate(), 48_000);
    assert_eq!(s.channels(), 2);
    assert_eq!(s.next_audio_packet().unwrap(), Some(vec![1, 1]));
    assert_eq!(s.next_audio_packet().unwrap(), Some(vec![2, 2, 2]));
    assert_eq!(s.next_audio_packet().unwrap(), Some(vec![3]));
    assert_eq!(s.next_audio_packet().unwrap(), Some(vec![4, 4]));
    assert_eq!(s.next_audio_packet().unwrap(), None);
}

#[test]
fn pre_skip_is_taken_from_the_front() {
    let mut s = OpusStream::open(stream(312, 48_000)).expect("open");
    assert_eq!(s.apply_pre_skip(200), 200);
    assert_eq!(s.apply_pre_skip(200), 112);
    assert_eq!(s.apply_pre_skip(200), 0);
}

#[test]
fn empty_stream_is_unsupported() {
    assert!(matches!(OpusStream::open(Vec::new()), Err(DecodeError::Unsupported(_))));
}

#[test]
fn seek_starts_at_the_page_that_holds_the_target() {
    let mut s = OpusStream::open(stream(0, 48_000)).expect("open");
    let mut search = s.seek(2000, 2000).expect("seek");
    assert_eq!(s.next_audio_packet().unwrap(), Some(vec![3]));
    assert_eq!(search.take(60), None);
    assert_eq!(search.take(60), Some(20));
}

#[test]
fn seek_beyond_the_last_page_scans_from_the_start() {
    let mut s = OpusStream::open(stream(0, 48_000)).expect("open");
    let search = s.seek(1_000_000, 1_000_000).expect("seek");
    assert_eq!(search.skip, 1_000_000);
    assert_eq!(s.next_audio_packet().unwrap(), Some(vec![1, 1]));
    assert!(matches!(Search::beyond_end(), DecodeError::Seek(_)));
}

#[test]
fn search_ends_in_the_packet_that_holds_the_target() {
    let mut search = Search { skip: 100, passed: 0 };
    assert_eq!(search.take(40), None);
    assert_eq!(search.take(40), None);
    assert_eq!(search.take(40), Some(20));
}

#[test]
fn probe_gives_the_rate_of_the_output() {
    assert_eq!(probe_sample_rate(&stream(0, 16_000)), Some(16_000));
    assert_eq!(probe_sample_rate(&stream(0, 44_100)), Some(48_000));
    assert_eq!(probe_sample_rate(b"NOPE"), None);
}

#[test]
fn each_fault_of_the_decoder_has_a_text() {
    assert_eq!(map_opus_error(OpusFault::InvalidPacket).message(), "解码错误：Opus 包畸形");
    assert_eq!(map_opus_error(OpusFault::InternalError).message(), "解码错误：Opus 解码器内部错误");
    assert_eq!(map_opus_error(OpusFault::BufferTooSmall).message(), "解码错误：Opus 输出缓冲不足");
    let e = map_opus_error(OpusFault::InvalidArgument("rate".to_string()));
    assert_eq!(e.message(), "不支持：Opus 参数非法：rate");
}
