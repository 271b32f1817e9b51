//! Opus in Ogg: the header, which packets hold sound, how many samples to drop,
//! and where to start after a seek. The packets are decoded outside.

use crate::bytes::{has_at, le16, le32, matches_at, read_le16, read_le32};
use crate::error::{DecodeError, Fault};
use crate::ogg_opus::{opus_head, page_at, points_from, OggOpusReader, OggSeekPoint, Stream};
use crate::text::{decimal, decimal_text};
use vstd::prelude::*;

verus! {

/// Bytes of the header.
pub const OPUS_HEAD_MIN_LEN: usize = 19;

/// The bytes of "OpusTags".
pub open spec fn opus_tags() -> Seq<u8> {
    seq![0x4Fu8, 0x70u8, 0x75u8, 0x73u8, 0x54u8, 0x61u8, 0x67u8, 0x73u8]
}

/// What the header says: the sample rate before encoding, the channels, and the
/// samples to drop at the start.
pub open spec fn head_of(b: Seq<u8>) -> Result<(u32, u8, u16), Fault> {
    if b.len() < OPUS_HEAD_MIN_LEN || !has_at(b, 0, opus_head()) {
        Err(Fault::Unsupported("非 OpusHead 头包"@))
    } else if b[8] != 1 {
        Err(Fault::Unsupported("Opus 版本 "@ + decimal(b[8] as int) + " 不受支持"@))
    } else if b[18] != 0 {
        Err(
            Fault::Unsupported(
                "Opus 映射族 "@ + decimal(b[18] as int) + " 不受支持（仅支持 0）"@,
            ),
        )
    } else {
        Ok((le32(b, 12) as u32, b[9], le16(b, 10) as u16))
    }
}

/// Parses the header.
pub fn parse_opus_head(packet: &[u8]) -> (r: Result<(u32, u8, u16), DecodeError>)
    ensures
        match head_of(packet@) {
            Ok(h) => r matches Ok(w) && w == h,
            Err(f) => r matches Err(e) && e@ == f,
        },
{
    let head: [u8; 8] = [0x4F, 0x70, 0x75, 0x73, 0x48, 0x65, 0x61, 0x64];
    assert(head@ =~= opus_head());
    if packet.len() < OPUS_HEAD_MIN_LEN || !matches_at(packet, 0, head.as_slice()) {
        return Err(DecodeError::unsupported("非 OpusHead 头包"));
    }
    if packet[8] != 1 {
        let mut text: String = "Opus 版本 ".to_owned();
        text.append(decimal_text(packet[8] as i64).as_str());
        text.append(" 不受支持");
        return Err(DecodeError::Unsupported(text));
    }
    if packet[18] != 0 {
        let mut text: String = "Opus 映射族 ".to_owned();
        text.append(decimal_text(packet[18] as i64).as_str());
        text.append(" 不受支持（仅支持 0）");
        return Err(DecodeError::Unsupported(text));
    }
    Ok((read_le32(packet, 12), packet[9], read_le16(packet, 10)))
}

/// The sample rate that packets are decoded to: that before encoding where there
/// is a decoder for it, else 48 kHz.
#[verifier::allow_in_spec]
pub fn choose_output_rate(input_rate: u32) -> u32
    returns
        (if input_rate == 8_000 || input_rate == 12_000 || input_rate == 16_000 || input_rate
            == 24_000 || input_rate == 48_000 {
            input_rate
        } else {
            48_000u32
        }),
{
    match input_rate {
        8_000 | 12_000 | 16_000 | 24_000 | 48_000 => input_rate,
        _ => 48_000,
    }
}

/// Whether a packet is a header.
pub open spec fn is_header(b: Seq<u8>) -> bool {
    has_at(b, 0, opus_head()) || has_at(b, 0, opus_tags())
}

/// Tests for a header.
pub fn is_header_packet(packet: &[u8]) -> (r: bool)
    ensures
        r == is_header(packet@),
{
    let head: [u8; 8] = [0x4F, 0x70, 0x75, 0x73, 0x48, 0x65, 0x61, 0x64];
    let tags: [u8; 8] = [0x4F, 0x70, 0x75, 0x73, 0x54, 0x61, 0x67, 0x73];
    assert(head@ =~= opus_head());
    assert(tags@ =~= opus_tags());
    matches_at(packet, 0, head.as_slice()) || matches_at(packet, 0, tags.as_slice())
}

/// A number of samples at 48 kHz as one at another rate, to the nearest.
pub open spec fn scaled(samples: nat, rate: nat) -> nat {
    (samples * rate + 24_000) / 48_000
}

fn scale(samples: u64, rate: u32) -> (n: u64)
    requires
        rate <= 48_000,
    ensures
        n == scaled(samples as nat, rate as nat),
{
    assert(samples * rate <= samples * 48_000) by (nonlinear_arith)
        requires
            rate <= 48_000,
    ;
    ((samples as u128 * rate as u128 + 24_000) / 48_000) as u64
}

/// Reading a packet gets on: some data is behind, or the queue is shorter.
pub proof fn lemma_packet_progress(s: Stream)
    ensures
        match s.next_packet() {
            (Ok(Some(_)), t) => {
                &&& t.data == s.data
                &&& s.pos < t.pos <= s.data.len() || t.pos == s.pos && t.queue.len()
                    < s.queue.len()
            },
            _ => true,
        },
    decreases s.data.len() - s.pos,
{
    if s.queue.len() == 0 {
        match page_at(s.data, s.pos, false) {
            (Ok(Some(p)), pos) => {
                if s.serial is Some && s.serial != Some(p.serial) {
                    lemma_packet_progress(Stream { pos, ..s });
                } else {
                    let from = Stream { pos, serial: Some(p.serial), ..s };
                    let t = from.with_segments(p, p.lacing.len());
                    crate::ogg_opus::lemma_segments_keep(from, p, p.lacing.len());
                    if t.queue.len() == 0 {
                        lemma_packet_progress(t);
                    }
                }
            },
            _ => {},
        }
    }
}

/// The next packet that is no header.
pub open spec fn next_audio(s: Stream) -> (Result<Option<Seq<u8>>, Fault>, Stream)
    decreases
        if s.pos < s.data.len() {
            s.data.len() - s.pos
        } else {
            0
        },
        s.queue.len(),
{
    match s.next_packet() {
        (Ok(Some(p)), t) => if is_header(p) {
            proof {
                lemma_packet_progress(s);
            }
            next_audio(t)
        } else {
            (Ok(Some(p)), t)
        },
        (r, t) => (r, t),
    }
}

/// A file being played.
pub struct Session {
    /// The packets.
    pub stream: Stream,
    /// The sample rate that packets are decoded to.
    pub rate: u32,
    /// The channels.
    pub channels: u8,
    /// The samples to drop at the start.
    pub pre_skip: nat,
    /// Those of them still to be dropped.
    pub to_skip: nat,
    /// The places that can be sought to, once they are known.
    pub index: Option<Seq<OggSeekPoint>>,
}

/// A file opened.
pub open spec fn opened(data: Seq<u8>) -> Result<Session, Fault> {
    let start = Stream {
        data,
        pos: 0,
        serial: None,
        pending: Seq::empty(),
        queue: Seq::empty(),
    };
    match start.next_packet() {
        (Err(f), _) => Err(f),
        (Ok(None), _) => Err(Fault::Unsupported("空的 Ogg 流"@)),
        (Ok(Some(p)), stream) => match head_of(p) {
            Err(f) => Err(f),
            Ok((input_rate, channels, pre_skip)) => if channels == 0 || channels > 2 {
                Err(
                    Fault::Unsupported(
                        "Opus 声道数 "@ + decimal(channels as int) + " 超出 1~2 范围"@,
                    ),
                )
            } else {
                let rate = choose_output_rate(input_rate);
                let skip = scaled(pre_skip as nat, rate as nat);
                Ok(
                    Session {
                        stream,
                        rate,
                        channels,
                        pre_skip: skip,
                        to_skip: skip,
                        index: None,
                    },
                )
            },
        },
    }
}

/// The first place at or behind a position, from `i` on.
pub open spec fn first_at(points: Seq<OggSeekPoint>, granule: u64, i: int) -> Option<OggSeekPoint>
    decreases points.len() - i,
{
    if i >= points.len() {
        None
    } else if points[i].granule_position >= granule {
        Some(points[i])
    } else {
        first_at(points, granule, i + 1)
    }
}

/// A place found is the first of the list that is not before the position; there
/// is none only if all are before it.
pub proof fn law_first_at(points: Seq<OggSeekPoint>, granule: u64, i: int)
    requires
        0 <= i <= points.len(),
    ensures
        match first_at(points, granule, i) {
            Some(p) => exists|k: int|
                #![trigger points[k]]
                i <= k < points.len() && points[k] == p && p.granule_position >= granule && (
                forall|j: int| i <= j < k ==> (#[trigger] points[j]).granule_position < granule),
            None => forall|j: int|
                i <= j < points.len() ==> (#[trigger] points[j]).granule_position < granule,
        },
    decreases points.len() - i,
{
    if i < points.len() {
        if points[i].granule_position >= granule {
            assert(points[i] == points[i]);
        } else {
            law_first_at(points, granule, i + 1);
            if first_at(points, granule, i) is Some {
                let p = first_at(points, granule, i).unwrap();
                let k = choose|k: int|
                    #![trigger points[k]]
                    i + 1 <= k < points.len() && points[k] == p && p.granule_position >= granule
                        && (forall|j: int|
                        i + 1 <= j < k ==> (#[trigger] points[j]).granule_position < granule);
                assert(points[k] == p);
            }
        }
    }
}

impl Session {
    /// The places that can be sought to, all over the file, and the stream after
    /// they were looked for.
    pub open spec fn all_points(self) -> (Result<Seq<OggSeekPoint>, Fault>, Stream) {
        let (points, pos, serial) = points_from(self.stream.data, 0, None, 0, Seq::empty());
        (points, Stream { pos, serial, ..self.stream.moved(0) })
    }

    /// The samples of a packet to be dropped because they belong to the start of
    /// the stream.
    pub open spec fn dropped(self, frames: nat) -> nat {
        if self.to_skip < frames {
            self.to_skip
        } else {
            frames
        }
    }

    /// Playback moved near a position: to the page that holds `granule`, where a
    /// page is known to, else to the start. The number is that of the samples
    /// still to be passed over; `from_start` is that number from the start.
    pub open spec fn sought(self, granule: u64, from_start: nat) -> (Result<nat, Fault>, Session) {
        let known = match self.index {
            Some(points) => (Ok(points), self.stream),
            None => self.all_points(),
        };
        match known {
            (Err(f), stream) => (Err(f), Session { stream, ..self }),
            (Ok(points), _) => {
                let s = Session { index: Some(points), ..self };
                match first_at(points, granule, 0) {
                    Some(p) => (
                        Ok(
                            scaled(
                                if granule > p.prev_granule {
                                    (granule - p.prev_granule) as nat
                                } else {
                                    0
                                },
                                self.rate as nat,
                            ),
                        ),
                        Session {
                            stream: self.stream.moved(p.file_offset as int),
                            to_skip: 0,
                            ..s
                        },
                    ),
                    None => match self.stream.moved(0).next_packet() {
                        (Err(f), stream) => (Err(f), Session { stream, ..s }),
                        (Ok(None), stream) => (
                            Err(Fault::Decode("重扫时流为空"@)),
                            Session { stream, ..s },
                        ),
                        (Ok(Some(p)), stream) => match head_of(p) {
                            Err(f) => (Err(f), Session { stream, ..s }),
                            Ok(_) => (
                                Ok(from_start),
                                Session { stream, to_skip: self.pre_skip, ..s },
                            ),
                        },
                    },
                }
            },
        }
    }
}

/// Playing a file, but for the decoding of packets.
pub struct OpusStream {
    reader: OggOpusReader,
    rate: u32,
    channels: u8,
    pre_skip_out: u64,
    samples_to_skip: u64,
    seek_index: Option<Vec<OggSeekPoint>>,
}

/// The places of an optional index.
pub open spec fn index_of(i: Option<Vec<OggSeekPoint>>) -> Option<Seq<OggSeekPoint>> {
    match i {
        Some(v) => Some(v@),
        None => None,
    }
}

impl View for OpusStream {
    type V = Session;

    closed spec fn view(&self) -> Session {
        Session {
            stream: self.reader@,
            rate: self.rate,
            channels: self.channels,
            pre_skip: self.pre_skip_out as nat,
            to_skip: self.samples_to_skip as nat,
            index: index_of(self.seek_index),
        }
    }
}

/// The places found lie in the file.
proof fn lemma_points_inside(
    b: Seq<u8>,
    pos: int,
    serial: Option<u32>,
    prev: u64,
    acc: Seq<OggSeekPoint>,
)
    requires
        0 <= pos,
        b.len() <= i64::MAX,
        forall|i: int| 0 <= i < acc.len() ==> (#[trigger] acc[i]).file_offset <= b.len(),
    ensures
        points_from(b, pos, serial, prev, acc).0 matches Ok(s) ==> forall|i: int|
            0 <= i < s.len() ==> (#[trigger] s[i]).file_offset <= b.len(),
    decreases
        if pos < b.len() {
            b.len() - pos
        } else {
            0
        },
{
    match page_at(b, pos, true) {
        (Ok(Some(p)), next) => {
            if serial is Some && serial != Some(p.serial) {
                lemma_points_inside(b, next, serial, prev, acc);
            } else if p.continued {
                lemma_points_inside(b, next, Some(p.serial), p.granule, acc);
            } else {
                lemma_points_inside(
                    b,
                    next,
                    Some(p.serial),
                    p.granule,
                    acc.push(
                        OggSeekPoint {
                            granule_position: p.granule,
                            file_offset: pos as u64,
                            prev_granule: prev,
                        },
                    ),
                );
            }
        },
        _ => {},
    }
}

impl OpusStream {
    /// There are one or two channels at a rate that packets can be decoded to, and
    /// the places that can be sought to lie in the file.
    pub closed spec fn inv(&self) -> bool {
        &&& self.reader.inv()
        &&& 1 <= self.channels <= 2
        &&& self.rate == choose_output_rate(self.rate)
        &&& self.seek_index matches Some(v) ==> forall|i: int|
            0 <= i < v@.len() ==> (#[trigger] v@[i]).file_offset <= i64::MAX
    }

    /// Opens a file. (No vector is longer than is asked here.)
    pub fn open(data: Vec<u8>) -> (r: Result<OpusStream, DecodeError>)
        requires
            data.len() <= i64::MAX,
        ensures
            match opened(data@) {
                Ok(s) => r matches Ok(o) && o.inv() && o@ == s,
                Err(f) => r matches Err(e) && e@ == f,
            },
    {
        let mut reader: OggOpusReader = OggOpusReader::open(data);
        let packet: Vec<u8> = match reader.next_packet() {
            Ok(Some(p)) => p,
            Ok(None) => return Err(DecodeError::unsupported("空的 Ogg 流")),
            Err(e) => return Err(e),
        };
        let (input_rate, channels, pre_skip): (u32, u8, u16) = match parse_opus_head(
            packet.as_slice(),
        ) {
            Ok(h) => h,
            Err(e) => return Err(e),
        };
        if channels == 0 || channels > 2 {
            let mut text: String = "Opus 声道数 ".to_owned();
            text.append(decimal_text(channels as i64).as_str());
            text.append(" 超出 1~2 范围");
            return Err(DecodeError::Unsupported(text));
        }
        let rate: u32 = choose_output_rate(input_rate);
        let skip: u64 = scale(pre_skip as u64, rate);
        Ok(
            OpusStream {
                reader,
                rate,
                channels,
                pre_skip_out: skip,
                samples_to_skip: skip,
                seek_index: None,
            },
        )
    }

    /// The sample rate that packets are decoded to.
    pub fn sample_rate(&self) -> (rate: u32)
        requires
            self.inv(),
        ensures
            rate == self@.rate,
            rate == choose_output_rate(rate),
    {
        self.rate
    }

    /// The number of channels.
    pub fn channels(&self) -> (n: u8)
        requires
            self.inv(),
        ensures
            n == self@.channels,
            1 <= n <= 2,
    {
        self.channels
    }

    /// Reads the next packet that holds sound; none at the end.
    pub fn next_audio_packet(&mut self) -> (r: Result<Option<Vec<u8>>, DecodeError>)
        requires
            old(self).inv(),
        ensures
            final(self).inv(),
            ({
                let (p, stream) = next_audio(old(self)@.stream);
                &&& final(self)@ == (Session { stream, ..old(self)@ })
                &&& match p {
                    Ok(Some(p)) => r matches Ok(Some(w)) && w@ == p,
                    Ok(None) => r matches Ok(None),
                    Err(f) => r matches Err(e) && e@ == f,
                }
            }),
    {
        loop
            invariant
                self.inv(),
                self@ == (Session { stream: self@.stream, ..old(self)@ }),
                next_audio(old(self)@.stream) == next_audio(self@.stream),
            decreases
                if self@.stream.pos < self@.stream.data.len() {
                    self@.stream.data.len() - self@.stream.pos
                } else {
                    0
                },
                self@.stream.queue.len(),
        {
            proof {
                lemma_packet_progress(self@.stream);
            }
            match self.reader.next_packet() {
                Ok(Some(p)) => {
                    if !is_header_packet(p.as_slice()) {
                        return Ok(Some(p));
                    }
                },
                Ok(None) => return Ok(None),
                Err(e) => return Err(e),
            }
        }
    }

    /// How many of the samples that a packet gave, per channel, have to be dropped.
    pub fn apply_pre_skip(&mut self, frames: u64) -> (n: u64)
        requires
            old(self).inv(),
        ensures
            final(self).inv(),
            n == old(self)@.dropped(frames as nat),
            final(self)@ == (Session {
                to_skip: (old(self)@.to_skip - n) as nat,
                ..old(self)@
            }),
    {
        let n: u64 = if self.samples_to_skip < frames {
            self.samples_to_skip
        } else {
            frames
        };
        self.samples_to_skip = self.samples_to_skip - n;
        n
    }

    /// Finds the places that can be sought to, if they are not known.
    fn learn_index(&mut self) -> (r: Result<(), DecodeError>)
        requires
            old(self).inv(),
        ensures
            final(self).inv(),
            final(self)@.stream.data == old(self)@.stream.data,
            final(self).rate == old(self).rate,
            final(self).channels == old(self).channels,
            final(self).pre_skip_out == old(self).pre_skip_out,
            final(self).samples_to_skip == old(self).samples_to_skip,
            match old(self)@.index {
                Some(points) => {
                    &&& r is Ok
                    &&& final(self)@.index == Some(points)
                    &&& final(self)@.stream == old(self)@.stream
                },
                None => match old(self)@.all_points() {
                    (Ok(points), _) => r is Ok && final(self)@.index == Some(points),
                    (Err(f), stream) => {
                        &&& r matches Err(e)
                        &&& e@ == f
                        &&& final(self)@ == (Session { stream, ..old(self)@ })
                    },
                },
            },
    {
        if self.seek_index.is_some() {
            return Ok(());
        }
        self.reader.rewind();
        proof {
            let data = self.reader@.data;
            self.reader.lemma_counted();
            lemma_points_inside(data, 0, None, 0, Seq::empty());
        }
        match self.reader.scan_seek_index() {
            Ok(points) => {
                self.seek_index = Some(points);
                Ok(())
            },
            Err(e) => Err(e),
        }
    }

    fn find_point(&self, granule: u64) -> (p: Option<OggSeekPoint>)
        requires
            self.inv(),
            self.seek_index is Some,
        ensures
            p == first_at(self@.index.unwrap(), granule, 0),
            p matches Some(q) ==> q.file_offset <= i64::MAX,
    {
        match &self.seek_index {
            None => None,
            Some(points) => {
                let mut i: usize = 0;
                while i < points.len()
                    invariant
                        i <= points.len(),
                        self@.index == Some(points@),
                        first_at(points@, granule, 0) == first_at(points@, granule, i as int),
                        forall|j: int|
                            0 <= j < points@.len() ==> (#[trigger] points@[j]).file_offset
                                <= i64::MAX,
                    decreases points.len() - i,
                {
                    if points[i].granule_position >= granule {
                        return Some(points[i]);
                    }
                    i = i + 1;
                }
                None
            },
        }
    }

    /// Moves near a position, given in samples at 48 kHz and, from the start, at the
    /// rate of the decoder. The result is the number of samples per channel to pass
    /// over from there.
    pub fn seek(&mut self, granule: u64, from_start: u64) -> (r: Result<Search, DecodeError>)
        requires
            old(self).inv(),
        ensures
            final(self).inv(),
            match old(self)@.sought(granule, from_start as nat) {
                (Ok(n), s) => {
                    &&& r matches Ok(w)
                    &&& w.skip == n
                    &&& w.passed == 0
                    &&& final(self)@ == s
                },
                (Err(f), s) => r matches Err(e) && e@ == f && final(self)@ == s,
            },
    {
        match self.learn_index() {
            Ok(_) => {},
            Err(e) => return Err(e),
        }
        match self.find_point(granule) {
            Some(p) => {
                self.reader.seek_to(p.file_offset);
                self.samples_to_skip = 0;
                let ahead: u64 = if granule > p.prev_granule {
                    granule - p.prev_granule
                } else {
                    0
                };
                Ok(Search { skip: scale(ahead, self.rate), passed: 0 })
            },
            None => {
                self.reader.rewind();
                let head: Vec<u8> = match self.reader.next_packet() {
                    Ok(Some(p)) => p,
                    Ok(None) => return Err(DecodeError::decode("重扫时流为空")),
                    Err(e) => return Err(e),
                };
                match parse_opus_head(head.as_slice()) {
                    Ok(_) => {},
                    Err(e) => return Err(e),
                }
                self.samples_to_skip = self.pre_skip_out;
                Ok(Search { skip: from_start, passed: 0 })
            },
        }
    }
}

/// Samples being passed over after a seek.
#[derive(Debug, Clone, Copy)]
pub struct Search {
    /// How many have to be passed over, per channel.
    pub skip: u64,
    /// How many have been.
    pub passed: u64,
}

impl Search {
    /// No more were passed over than have to be.
    pub open spec fn inv(self) -> bool {
        self.passed <= self.skip
    }

    /// A packet gave `frames` samples per channel: the number of them to be dropped
    /// where it reaches the position, nothing where it does not.
    pub fn take(&mut self, frames: u64) -> (r: Option<u64>)
        requires
            old(self).inv(),
        ensures
            final(self).inv(),
            final(self).skip == old(self).skip,
            r == (if old(self).passed + frames >= old(self).skip {
                Some((old(self).skip - old(self).passed) as u64)
            } else {
                None
            }),
            r matches Some(n) ==> n <= frames,
            final(self).passed == (if r is Some {
                old(self).passed as int
            } else {
                old(self).passed + frames
            }),
    {
        let left: u64 = self.skip - self.passed;
        if frames >= left {
            Some(left)
        } else {
            self.passed = self.passed + frames;
            None
        }
    }

    /// The error where the stream ends before the position.
    pub fn beyond_end() -> (e: DecodeError)
        ensures
            e@ == Fault::Seek("目标位置超出文件末尾"@),
    {
        DecodeError::seek("目标位置超出文件末尾")
    }
}

/// Why a packet could not be decoded.
pub enum OpusFault {
    /// The packet is malformed.
    InvalidPacket,
    /// The decoder failed.
    InternalError,
    /// The samples did not fit.
    BufferTooSmall,
    /// The decoder was asked for something that it cannot do.
    InvalidArgument(String),
}

/// The error for a packet that could not be decoded.
pub open spec fn opus_fault(e: OpusFault) -> Fault {
    match e {
        OpusFault::InvalidPacket => Fault::Decode("Opus 包畸形"@),
        OpusFault::InternalError => Fault::Decode("Opus 解码器内部错误"@),
        OpusFault::BufferTooSmall => Fault::Decode("Opus 输出缓冲不足"@),
        OpusFault::InvalidArgument(what) => Fault::Unsupported("Opus 参数非法："@ + what@),
    }
}

/// The error for a packet that could not be decoded.
pub fn map_opus_error(e: OpusFault) -> (r: DecodeError)
    ensures
        r@ == opus_fault(e),
{
    match e {
        OpusFault::InvalidPacket => DecodeError::decode("Opus 包畸形"),
        OpusFault::InternalError => DecodeError::decode("Opus 解码器内部错误"),
        OpusFault::BufferTooSmall => DecodeError::decode("Opus 输出缓冲不足"),
        OpusFault::InvalidArgument(what) => {
            let mut text: String = "Opus 参数非法：".to_owned();
            text.append(what.as_str());
            DecodeError::Unsupported(text)
        },
    }
}

/// The sample rate that a probe finds.
pub open spec fn probed_rate(data: Seq<u8>) -> Option<u32> {
    let start = Stream {
        data,
        pos: 0,
        serial: None,
        pending: Seq::empty(),
        queue: Seq::empty(),
    };
    match start.next_packet().0 {
        Ok(Some(p)) => match head_of(p) {
            Ok(h) => Some(choose_output_rate(h.0)),
            Err(_) => None,
        },
        _ => None,
    }
}

fn copied(b: &[u8]) -> (v: Vec<u8>)
    ensures
        v@ == b@,
{
    let mut v: Vec<u8> = Vec::new();
    let mut i: usize = 0;
    while i < b.len()
        invariant
            i <= b.len(),
            v@ == b@.take(i as int),
        decreases b.len() - i,
    {
        v.push(b[i]);
        assert(v@ =~= b@.take(i + 1));
        i = i + 1;
    }
    assert(v@ =~= b@);
    v
}

/// The sample rate that the packets of a file are decoded to.
pub fn probe_sample_rate(data: &[u8]) -> (rate: Option<u32>)
    requires
        data.len() <= i64::MAX,
    ensures
        rate == probed_rate(data@),
{
    let mut reader: OggOpusReader = OggOpusReader::open(copied(data));
    match reader.next_packet() {
        Ok(Some(p)) => match parse_opus_head(p.as_slice()) {
            Ok(h) => Some(choose_output_rate(h.0)),
            Err(_) => None,
        },
        _ => None,
    }
}

} // verus!
