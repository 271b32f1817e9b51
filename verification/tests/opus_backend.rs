//! Playing Opus files, with the decoder between the steps.

use opus_decoder::{OpusDecoder, OpusError};
use tuneux_corex::error::DecodeError;
use tuneux_corex::opus::OpusFault;
use tuneux_corex::opus_backend::{no_decoder, Action, OpusBackend};

struct Player {
    inner: OpusBackend,
    decoder: OpusDecoder,
    resets: usize,
}

impl Player {
    fn open(data: Vec<u8>) -> Result<Player, DecodeError> {
        let inner = OpusBackend::open(data)?;
        let decoder = OpusDecoder::new(inner.sample_rate(), inner.channels() as usize).unwrap();
        Ok(Player { inner, decoder, resets: 0 })
    }

    fn run(&mut self, first: Action) -> Result<Action, DecodeError> {
        let mut action = first;
        loop {
            action = match action {
                Action::Decode(packet) => {
                    let max = self.decoder.max_frame_size_per_channel();
                    let mut pcm = vec![0i16; self.inner.buffer_len(max)];
                    let out = match self.decoder.decode(&packet, &mut pcm, false) {
                        Ok(n) => Ok(n),
                        Err(OpusError::InvalidPacket) => Err(OpusFault::InvalidPacket),
                        Err(_) => Err(OpusFault::InternalError),
                    };
                    self.inner.decoded(pcm, out)?
                }
                Action::Reset => {
                    self.decoder.reset();
                    self.resets += 1;
                    self.inner.after_reset()?
                }
                done => return Ok(done),
            };
        }
    }

    fn decode_next(&mut self) -> Result<Option<Vec<i16>>, DecodeError> {
        let first = self.inner.decode_next()?;
        match self.run(first)? {
            Action::Give(v) => Ok(Some(v)),
            Action::End => Ok(None),
            _ => panic!(),
        }
    }

    fn seek(&mut self, granule: u64, from_start: u64) -> Result<(), DecodeError> {
        let first = self.inner.seek(granule, from_start)?;
        match self.run(first)? {
            Action::Arrived => Ok(()),
            _ => panic!(),
        }
    }
}

fn head(channels: u8, pre_skip: u16, rate: u32) -> Vec<u8> {
    let mut buf = b"OpusHead".to_vec();
    buf.push(1);
    buf.push(channels);
    buf.extend_from_slice(&pre_skip.to_le_bytes());
    buf.extend_from_slice(&rate.to_le_bytes());
    buf.extend_from_slice(&0i16.to_le_bytes());
    buf.push(0);
    buf
}

fn page(granule: u64, sequence: u32, packets: &[Vec<u8>]) -> Vec<u8> {
    let mut out = b"OggS".to_vec();
    out.push(0);
    out.push(0);
    out.extend_from_slice(&granule.to_le_bytes());
    out.extend_from_slice(&7u32.to_le_bytes());
    out.extend_from_slice(&sequence.to_le_bytes());
    out.extend_from_slice(&0u32.to_le_bytes());
    let mut table = Vec::new();
    for p in packets {
        for _ in 0..p.len() / 255 {
            table.push(255u8);
        }
        table.push((p.len() % 255) as u8);
    }
    out.push(table.len() as u8);
    out.extend_from_slice(&table);
    for p in packets {
        out.extend_from_slice(p);
    }
    out
}

/// Twenty milliseconds of silence.
fn silence(channels: u8) -> Vec<u8> {
    vec![if channels == 2 { 0xFC } else { 0xF8 }, 0xFF, 0xFE]
}

/// A file of two pages of two packets each, 20 ms a packet.
fn file(channels: u8, pre_skip: u16, rate: u32) -> Vec<u8> {
    let mut v = page(0, 0, &[head(channels, pre_skip, rate)]);
    v.extend(page(0, 1, &[b"OpusTags....".to_vec()]));
    v.extend(page(1920, 2, &[silence(channels), silence(channels)]));
    v.extend(page(3840, 3, &[silence(channels), silence(channels)]));
    v
}

fn lengths(b: &mut Player) -> Vec<usize> {
    let mut out = Vec::new();
    while let Some(samples) = b.decode_next().unwrap() {
        out.push(samples.len());
    }
    out
}

#[test]
fn packets_give_what_they_announce() {
    let mut stereo = Player::open(file(2, 0, 48_000)).unwrap();
    assert_eq!((stereo.inner.sample_rate(), stereo.inner.channels()), (48_000, 2));
    let first = stereo.decode_next().unwrap().unwrap();
    assert_eq!(first, vec![0i16; 1920]);
    assert_eq!(lengths(&mut stereo), vec![1920, 1920, 1920]);
    let params = stereo.inner.params();
    assert_eq!((params.sample_rate, params.channels), (Some(48_000), Some(2)));
    assert_eq!((params.bits_per_sample, params.duration), (Some(16), None));
    assert_eq!((params.codec_name.as_str(), params.track_id), ("Opus", 0));
    let mut mono = Player::open(file(1, 0, 16_000)).unwrap();
    assert_eq!((mono.inner.sample_rate(), mono.inner.channels()), (16_000, 1));
    assert_eq!(lengths(&mut mono), vec![320, 320, 320, 320]);
}

#[test]
fn start_of_the_stream_is_dropped() {
    let mut b = Player::open(file(2, 312, 48_000)).unwrap();
    assert_eq!(lengths(&mut b), vec![(960 - 312) * 2, 1920, 1920, 1920]);
    let mut b = Player::open(file(2, 1000, 48_000)).unwrap();
    assert_eq!(lengths(&mut b), vec![(1920 - 1000) * 2, 1920, 1920]);
    let mut b = Player::open(file(1, 312, 24_000)).unwrap();
    assert_eq!(lengths(&mut b), vec![480 - 156, 480, 480, 480]);
}

#[test]
fn seek_lands_on_the_sample() {
    let mut b = Player::open(file(2, 312, 48_000)).unwrap();
    b.seek(2000, 2000).unwrap();
    assert_eq!(lengths(&mut b), vec![(960 - 80) * 2, 1920]);
    assert_eq!(b.resets, 1);
    b.seek(3000, 3000).unwrap();
    assert_eq!(lengths(&mut b), vec![(1920 - 1080) * 2]);
    b.seek(0, 0).unwrap();
    assert_eq!(lengths(&mut b).iter().sum::<usize>(), 3840 * 2);
}

#[test]
fn seek_beyond_the_end_is_refused() {
    let mut b = Player::open(file(2, 312, 48_000)).unwrap();
    match b.seek(10_000, 10_000) {
        Err(DecodeError::Seek(text)) => assert_eq!(text, "目标位置超出文件末尾"),
        _ => panic!(),
    }
}

#[test]
fn damaged_packet_is_refused() {
    let mut v = page(0, 0, &[head(2, 0, 48_000)]);
    v.extend(page(0, 1, &[b"OpusTags....".to_vec()]));
    v.extend(page(1920, 2, &[vec![0xFC; 1501], vec![0xFD, 1, 2, 3], silence(2)]));
    let mut b = Player::open(v).unwrap();
    for _ in 0..2 {
        match b.decode_next() {
            Err(DecodeError::Decode(text)) => assert_eq!(text, "Opus 包畸形"),
            _ => panic!(),
        }
    }
    assert_eq!(b.decode_next().unwrap().unwrap().len(), 1920);
    assert!(b.decode_next().unwrap().is_none());
}

#[test]
fn three_channels_are_unsupported() {
    match Player::open(file(3, 0, 48_000)) {
        Err(DecodeError::Unsupported(_)) => {}
        _ => panic!(),
    }
}

/// Hands a packet over as one that gave `n` samples per channel, numbered from `first`.
fn feed(b: &mut OpusBackend, first: i16, n: usize, room: usize) -> Action {
    let mut pcm = vec![-1i16; b.buffer_len(room)];
    let count = n * b.channels() as usize;
    for (i, s) in pcm.iter_mut().take(count).enumerate() {
        *s = first + i as i16;
    }
    b.decoded(pcm, Ok(n)).unwrap()
}

#[test]
fn buffers_hold_all_channels() {
    let stereo = OpusBackend::open(file(2, 0, 48_000)).unwrap();
    assert_eq!(stereo.buffer_len(5760), 11520);
    let mono = OpusBackend::open(file(1, 0, 48_000)).unwrap();
    assert_eq!(mono.buffer_len(5760), 5760);
}

#[test]
fn only_what_was_filled_is_given_out() {
    let mut b = OpusBackend::open(file(2, 0, 48_000)).unwrap();
    match b.decode_next().unwrap() {
        Action::Decode(p) => assert_eq!(p, silence(2)),
        _ => panic!(),
    }
    match feed(&mut b, 1, 3, 10) {
        Action::Give(v) => assert_eq!(v, vec![1, 2, 3, 4, 5, 6]),
        _ => panic!(),
    }
}

#[test]
fn start_of_the_stream_may_take_several_packets() {
    let mut b = OpusBackend::open(file(2, 5, 48_000)).unwrap();
    assert!(matches!(b.decode_next().unwrap(), Action::Decode(_)));
    assert!(matches!(feed(&mut b, 1, 3, 10), Action::Decode(_)));
    match feed(&mut b, 7, 3, 10) {
        Action::Give(v) => assert_eq!(v, vec![11, 12]),
        _ => panic!(),
    }
    assert!(matches!(b.decode_next().unwrap(), Action::Decode(_)));
    match feed(&mut b, 1, 2, 2) {
        Action::Give(v) => assert_eq!(v, vec![1, 2, 3, 4]),
        _ => panic!(),
    }
}

#[test]
fn seek_resets_and_passes_over_packets() {
    let mut b = OpusBackend::open(file(1, 0, 48_000)).unwrap();
    assert!(matches!(b.seek(5, 5).unwrap(), Action::Reset));
    assert!(matches!(b.after_reset().unwrap(), Action::Decode(_)));
    assert!(matches!(feed(&mut b, 1, 3, 10), Action::Decode(_)));
    assert!(matches!(feed(&mut b, 4, 4, 10), Action::Arrived));
    match b.decode_next().unwrap() {
        Action::Give(v) => assert_eq!(v, vec![6, 7]),
        _ => panic!(),
    }
    assert!(matches!(b.decode_next().unwrap(), Action::Decode(_)));
}

#[test]
fn failed_packet_ends_a_seek() {
    let mut b = OpusBackend::open(file(1, 0, 48_000)).unwrap();
    assert!(matches!(b.seek(5, 5).unwrap(), Action::Reset));
    assert!(matches!(b.after_reset().unwrap(), Action::Decode(_)));
    let pcm = vec![0i16; b.buffer_len(10)];
    match b.decoded(pcm, Err(OpusFault::BufferTooSmall)) {
        Err(DecodeError::Decode(text)) => assert_eq!(text, "Opus 输出缓冲不足"),
        _ => panic!(),
    }
    assert!(matches!(b.decode_next().unwrap(), Action::Decode(_)));
    match feed(&mut b, 1, 2, 10) {
        Action::Give(v) => assert_eq!(v, vec![1, 2]),
        _ => panic!(),
    }
}

#[test]
fn missing_decoder_is_reported() {
    match no_decoder("rate") {
        DecodeError::Unsupported(text) => assert_eq!(text, "Opus 解码器初始化失败：rate"),
        _ => panic!(),
    }
}
