//! Ogg pages and the packets that they carry.

use tuneux_corex::error::DecodeError;
use tuneux_corex::ogg_opus::{looks_like_ogg_opus, OggOpusReader};

#[allow(clippy::too_many_arguments)]
fn build_page(
    magic: &[u8; 4],
    version: u8,
    header_type: u8,
    granule_position: u64,
    serial: u32,
    sequence: u32,
    crc: u32,
    lacing: &[u8],
    payload: &[u8],
) -> Vec<u8> {
    let mut out = Vec::with_capacity(27 + lacing.len() + payload.len());
    out.extend_from_slice(magic);
    out.push(version);
    out.push(header_type);
    out.extend_from_slice(&granule_position.to_le_bytes());
    out.extend_from_slice(&serial.to_le_bytes());
    out.extend_from_slice(&sequence.to_le_bytes());
    out.extend_from_slice(&crc.to_le_bytes());
    out.push(lacing.len() as u8);
    out.extend_from_slice(lacing);
    out.extend_from_slice(payload);
    out
}

fn page(
    header_type: u8,
    granule: u64,
    serial: u32,
    sequence: u32,
    lacing: &[u8],
    payload: &[u8],
) -> Vec<u8> {
    build_page(b"OggS", 0, header_type, granule, serial, sequence, 0, lacing, payload)
}

#[test]
fn parse_bos_page_header_fields_recovered() {
    let payload = [0x11u8, 0x22, 0x33];
    let bytes = page(0x02, 0x0102_0304_0506_0708, 0x1122_3344, 0x5566_7788, &[3], &payload);
    let mut reader = OggOpusReader::open(bytes);
    let pkt = reader
        .next_packet()
        .expect("应能读出一个完整包")
        .expect("首包不应为 None");
    assert_eq!(pkt, vec![0x11, 0x22, 0x33], "首段负载应被完整重组");
    let eof = reader.next_packet().expect("EOF 不应报错");
    assert!(eof.is_none(), "首包之后应立即 EOF");
}

#[test]
fn parse_eos_page_header_type_does_not_leak() {
    let bytes = page(0x04, 999, 0xAABB_CCDD, 7, &[1], &[0xFF]);
    let mut reader = OggOpusReader::open(bytes);
    let pkt = reader.next_packet().expect("应能读出").expect("应非空");
    assert_eq!(pkt, vec![0xFF]);
    assert!(reader.next_packet().expect("EOF").is_none());
}

#[test]
fn single_segment_packet_reassembled() {
    let payload: Vec<u8> = (0..10).collect();
    let bytes = page(0x00, 0, 0x0000_0001, 0, &[10], &payload);
    let mut r = OggOpusReader::open(bytes);
    let pkt = r.next_packet().expect("packet ok").expect("some");
    assert_eq!(pkt.len(), 10);
    assert_eq!(pkt, payload, "单段负载应原样返回");
    assert!(r.next_packet().expect("eof").is_none());
}

#[test]
fn multi_segment_independent_packets_reassembled() {
    let payload: Vec<u8> = (0..12).collect();
    let bytes = page(0x00, 0, 0x0000_0002, 0, &[3, 4, 5], &payload);
    let mut r = OggOpusReader::open(bytes);
    let p1 = r.next_packet().expect("p1 ok").expect("p1 some");
    let p2 = r.next_packet().expect("p2 ok").expect("p2 some");
    let p3 = r.next_packet().expect("p3 ok").expect("p3 some");
    assert_eq!(p1, vec![0, 1, 2], "第 1 包应等于前 3 字节");
    assert_eq!(p2, vec![3, 4, 5, 6], "第 2 包应等于接下来 4 字节");
    assert_eq!(p3, vec![7, 8, 9, 10, 11], "第 3 包应等于最后 5 字节");
    assert!(r.next_packet().expect("eof").is_none(), "应立即 EOF");
}

#[test]
fn continued_segments_within_one_page_assemble_one_packet() {
    let n = 255 + 255 + 3;
    let payload: Vec<u8> = (0..n).map(|i| (i & 0xFF) as u8).collect();
    let bytes = page(0x00, 0, 0x0000_0003, 0, &[255, 255, 3], &payload);
    let mut r = OggOpusReader::open(bytes);
    let pkt = r.next_packet().expect("packet ok").expect("some");
    assert_eq!(pkt.len(), 513, "续段应拼成 513 字节单一包");
    assert_eq!(pkt, payload, "续段拼出的整包字节应与原始 payload 一致");
    assert!(r.next_packet().expect("eof").is_none());
}

#[test]
fn packet_spanning_two_pages_reassembled() {
    let full: Vec<u8> = (0..300).map(|i| (i & 0xFF) as u8).collect();
    let (head, tail) = full.split_at(255);
    assert_eq!(head.len(), 255);
    assert_eq!(tail.len(), 45);
    let p1 = page(0x00, 100, 0x0000_1111, 0, &[255], head);
    let p2 = page(0x00, 200, 0x0000_1111, 1, &[45], tail);
    let mut stream = p1;
    stream.extend_from_slice(&p2);
    let mut r = OggOpusReader::open(stream);
    let pkt = r.next_packet().expect("packet ok").expect("some");
    assert_eq!(pkt.len(), 300, "跨页包应拼成 300 字节");
    assert_eq!(pkt, full, "跨页重组应严格按字节序恢复 300 字节");
    assert!(r.next_packet().expect("eof").is_none(), "之后应 EOF");
}

#[test]
fn packet_spanning_three_pages_reassembled() {
    let full: Vec<u8> = (0..700).map(|i| (i & 0xFF) as u8).collect();
    let p1 = page(0x00, 100, 0x0000_2222, 0, &[255], &full[0..255]);
    let p2 = page(0x00, 200, 0x0000_2222, 1, &[255], &full[255..510]);
    let p3 = page(0x00, 300, 0x0000_2222, 2, &[190], &full[510..700]);
    let mut stream = p1;
    stream.extend_from_slice(&p2);
    stream.extend_from_slice(&p3);
    let mut r = OggOpusReader::open(stream);
    let pkt = r.next_packet().expect("ok").expect("some");
    assert_eq!(pkt.len(), 700, "三页跨页包应拼成 700 字节");
    assert_eq!(pkt, full);
    assert!(r.next_packet().expect("eof").is_none());
}

#[test]
fn reject_non_ogg_magic_returns_decode_error() {
    let bytes = build_page(b"XXXX", 0, 0, 0, 0x1234_5678, 0, 0, &[0], &[]);
    let mut r = OggOpusReader::open(bytes);
    let err = r.next_packet().expect_err("魔数错应报解码错误");
    assert!(matches!(err, DecodeError::Decode(_)));
    let msg = err.message();
    assert!(
        msg.contains("OggS") || msg.contains("捕获模式"),
        "错误信息应指明捕获模式问题，实际：{msg}"
    );
}

#[test]
fn reject_unsupported_ogg_version_returns_unsupported_error() {
    let bytes = build_page(b"OggS", 1, 0, 0, 0x1234_5678, 0, 0, &[0], &[]);
    let mut r = OggOpusReader::open(bytes);
    let err = r.next_packet().expect_err("版本错应报不支持");
    assert!(matches!(err, DecodeError::Unsupported(_)));
    let msg = err.message();
    assert!(
        msg.contains("版本") || msg.contains("Unsupported"),
        "错误信息应说明版本不支持，实际：{msg}"
    );
}

#[test]
fn reject_segment_table_exceeding_payload_returns_decode_error() {
    let payload = [0xAA, 0xBB, 0xCC];
    let bytes = page(0x00, 0, 0xCAFE_BABE, 42, &[5, 5], &payload);
    let mut r = OggOpusReader::open(bytes);
    let err = r.next_packet().expect_err("段表越界应报错");
    assert!(!err.message().is_empty(), "段表越界应产生错误");
    assert!(matches!(err, DecodeError::Io(_)));
}

#[test]
fn stream_that_ends_inside_a_packet_is_refused() {
    let bytes = page(0x00, 0, 1, 0, &[255], &[9u8; 255]);
    let mut r = OggOpusReader::open(bytes);
    let err = r.next_packet().expect_err("truncated");
    assert!(matches!(err, DecodeError::Decode(_)));
}

#[test]
fn rewind_gives_the_first_packet_again() {
    let mut bytes = page(0x02, 0, 5, 0, &[2], &[1, 2]);
    bytes.extend(page(0, 9, 5, 1, &[3], &[3, 4, 5]));
    let mut r = OggOpusReader::open(bytes);
    assert_eq!(r.next_packet().unwrap(), Some(vec![1, 2]));
    assert_eq!(r.next_packet().unwrap(), Some(vec![3, 4, 5]));
    r.rewind();
    assert_eq!(r.next_packet().unwrap(), Some(vec![1, 2]));
}

#[test]
fn seek_index_lists_the_pages_with_their_start() {
    let first = page(0x02, 0, 5, 0, &[2], &[1, 2]);
    let second = page(0, 960, 5, 1, &[1], &[3]);
    let third = page(0, 1920, 5, 2, &[1], &[4]);
    let at2 = first.len() as u64;
    let at3 = at2 + second.len() as u64;
    let mut bytes = first;
    bytes.extend(second);
    bytes.extend(third);
    let mut r = OggOpusReader::open(bytes);
    let points = r.scan_seek_index().expect("index");
    let p = points.iter().find(|p| p.granule_position == 960).expect("page");
    assert_eq!(p.file_offset, at2);
    let q = points.iter().find(|p| p.granule_position == 1920).expect("page");
    assert_eq!(q.file_offset, at3);
    assert_eq!(q.prev_granule, 960);
    r.seek_to(at3);
    assert_eq!(r.next_packet().unwrap(), Some(vec![4]));
}

#[test]
fn first_page_tells_an_opus_stream() {
    let opus = page(0x02, 0, 1, 0, &[12], b"OpusHead....");
    let other = page(0x02, 0, 1, 0, &[12], b"vorbis......");
    assert!(looks_like_ogg_opus(&opus));
    assert!(!looks_like_ogg_opus(&other));
    assert!(!looks_like_ogg_opus(b"OggS"));
}

#[test]
fn segments_are_cut_after_each_short_length() {
    let bytes: Vec<u8> = (0..12).collect();
    let mut reader = OggOpusReader::open(page(2, 0, 1, 0, &[3, 4, 5], &bytes));
    assert_eq!(reader.next_packet().unwrap(), Some(vec![0, 1, 2]));
    assert_eq!(reader.next_packet().unwrap(), Some(vec![3, 4, 5, 6]));
    assert_eq!(reader.next_packet().unwrap(), Some(vec![7, 8, 9, 10, 11]));
    assert_eq!(reader.next_packet().unwrap(), None);
}

#[test]
fn packets_come_in_order_over_pages_and_past_other_streams() {
    let all: Vec<u8> = (0..600).map(|i| (i % 251) as u8).collect();
    let mut file = page(2, 0, 1, 0, &[2, 255], &all[..257]);
    file.extend(page(2, 0, 9, 0, &[4], &[77; 4]));
    file.extend(page(1, 0, 1, 1, &[255, 0, 1], &all[257..513]));
    file.extend(page(0, 0, 1, 2, &[], &[]));
    file.extend(page(0, 0, 1, 3, &[0, 87], &all[513..600]));
    let mut reader = OggOpusReader::open(file);
    let mut lengths = Vec::new();
    let mut joined = Vec::new();
    while let Some(p) = reader.next_packet().unwrap() {
        lengths.push(p.len());
        joined.extend(p);
    }
    assert_eq!(lengths, vec![2, 510, 1, 0, 87]);
    assert_eq!(joined, all);
}

#[test]
fn full_length_at_the_end_is_an_error() {
    let mut file = page(2, 0, 1, 0, &[1], &[5]);
    file.extend(page(0, 0, 1, 1, &[255], &[6; 255]));
    let mut reader = OggOpusReader::open(file);
    assert_eq!(reader.next_packet().unwrap(), Some(vec![5]));
    match reader.next_packet() {
        Err(DecodeError::Decode(text)) => assert_eq!(text, "Ogg 流在包中间被截断"),
        _ => panic!(),
    }
}
