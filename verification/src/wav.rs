//! WAV files: the header, the samples in chunks, and seeking.

use crate::bytes::{
    has_at, le16, le24, le32, le64, matches_at, read_le16, read_le24, read_le32, read_le64,
};
use crate::decoder::{AudioParams, Params};
use crate::error::{short_file, DecodeError, Fault};
use crate::text::{decimal, decimal_text};
use vstd::arithmetic::div_mod::{
    lemma_fundamental_div_mod, lemma_fundamental_div_mod_converse, lemma_mod_bound,
};
use vstd::prelude::*;

verus! {

/// The most frames in a chunk.
pub const CHUNK_FRAMES: u64 = 4096;

/// How a sample is stored, lowest byte first.
#[derive(Debug, Clone, Copy, PartialEq, Eq, Structural)]
pub enum SampleFormat {
    /// One byte, 128 at rest.
    PcmU8,
    /// Two bytes in two's complement.
    Pcm16,
    /// Three bytes in two's complement.
    Pcm24,
    /// Four bytes in two's complement.
    Pcm32,
    /// A single-precision number.
    Float32,
    /// A double-precision number.
    Float64,
}

impl SampleFormat {
    /// Bytes per sample.
    #[verifier::allow_in_spec]
    pub fn bytes(self) -> u32
        returns
            (match self {
                SampleFormat::PcmU8 => 1u32,
                SampleFormat::Pcm16 => 2u32,
                SampleFormat::Pcm24 => 3u32,
                SampleFormat::Pcm32 => 4u32,
                SampleFormat::Float32 => 4u32,
                SampleFormat::Float64 => 8u32,
            }),
    {
        match self {
            SampleFormat::PcmU8 => 1u32,
            SampleFormat::Pcm16 => 2u32,
            SampleFormat::Pcm24 => 3u32,
            SampleFormat::Pcm32 => 4u32,
            SampleFormat::Float32 => 4u32,
            SampleFormat::Float64 => 8u32,
        }
    }
}

/// What the header of a file says.
#[derive(Debug, Clone, Copy)]
pub struct WavHeader {
    /// How samples are stored.
    pub format: SampleFormat,
    /// The number of channels.
    pub channels: u16,
    /// The sample rate in Hz.
    pub sample_rate: u32,
    /// Bits per sample, to be shown.
    pub bits_per_sample: u32,
    /// Bytes per frame.
    pub block_align: u16,
    /// Where the samples start.
    pub data_start: u64,
    /// The number of bytes of samples.
    pub data_len: u64,
}

/// What the chunk on the format says.
#[derive(Clone, Copy)]
pub struct Fmt {
    /// The format.
    pub tag: u16,
    /// The number of channels.
    pub channels: u16,
    /// The sample rate.
    pub sample_rate: u32,
    /// Bytes per frame.
    pub block_align: u16,
    /// Bits per sample.
    pub bits: u16,
}

/// The bytes of "RIFF".
pub open spec fn riff() -> Seq<u8> {
    seq![0x52u8, 0x49u8, 0x46u8, 0x46u8]
}

/// The bytes of "WAVE".
pub open spec fn wave() -> Seq<u8> {
    seq![0x57u8, 0x41u8, 0x56u8, 0x45u8]
}

/// The bytes of "fmt ".
pub open spec fn fmt_id() -> Seq<u8> {
    seq![0x66u8, 0x6Du8, 0x74u8, 0x20u8]
}

/// The bytes of "data".
pub open spec fn data_id() -> Seq<u8> {
    seq![0x64u8, 0x61u8, 0x74u8, 0x61u8]
}

/// Whether a file begins as WAV files do.
pub open spec fn is_riff_wave(b: Seq<u8>) -> bool {
    has_at(b, 0, riff()) && has_at(b, 8, wave())
}

/// The format at `at`. An extensible one stands for another, which its longer
/// chunk names.
pub open spec fn fmt_at(b: Seq<u8>, at: int, size: int) -> Fmt {
    Fmt {
        tag: if le16(b, at) == 0xFFFE && size >= 40 {
            le16(b, at + 24) as u16
        } else {
            le16(b, at) as u16
        },
        channels: le16(b, at + 2) as u16,
        sample_rate: le32(b, at + 4) as u32,
        block_align: le16(b, at + 12) as u16,
        bits: le16(b, at + 14) as u16,
    }
}

/// The chunks from `pos` on, up to one on the format and one of samples, behind
/// those already found. Chunks of odd length are followed by a byte of padding.
pub open spec fn chunks_from(
    b: Seq<u8>,
    pos: int,
    fmt: Option<Fmt>,
    data: Option<(u64, u64)>,
) -> Result<(Option<Fmt>, Option<(u64, u64)>), Fault>
    decreases
        if pos < b.len() {
            b.len() - pos
        } else {
            0
        },
{
    if fmt is Some && data is Some || pos + 8 > b.len() {
        Ok((fmt, data))
    } else {
        let size = le32(b, pos + 4) as int;
        let body = pos + 8;
        let padded = size + size % 2;
        if has_at(b, pos, fmt_id()) {
            if size < 16 {
                Err(Fault::Decode("fmt chunk 过短"@))
            } else if size > 64 {
                Err(
                    Fault::Unsupported(
                        "fmt chunk 异常大（"@ + decimal(size) + " 字节，合法上限 64）"@,
                    ),
                )
            } else if body + size > b.len() {
                Err(short_file())
            } else {
                chunks_from(b, body + padded, Some(fmt_at(b, body, size)), data)
            }
        } else if has_at(b, pos, data_id()) {
            chunks_from(b, body + padded, fmt, Some((body as u64, size as u64)))
        } else {
            chunks_from(b, body + padded, fmt, data)
        }
    }
}

/// How samples of a format and a width are stored.
pub open spec fn format_of(tag: u16, bits: u16) -> Option<SampleFormat> {
    if tag == 1 && bits == 8 {
        Some(SampleFormat::PcmU8)
    } else if tag == 1 && bits == 16 {
        Some(SampleFormat::Pcm16)
    } else if tag == 1 && bits == 24 {
        Some(SampleFormat::Pcm24)
    } else if tag == 1 && bits == 32 {
        Some(SampleFormat::Pcm32)
    } else if tag == 3 && bits == 32 {
        Some(SampleFormat::Float32)
    } else if tag == 3 && bits == 64 {
        Some(SampleFormat::Float64)
    } else {
        None
    }
}

/// The header from the two chunks.
pub open spec fn header_from(fmt: Option<Fmt>, data: Option<(u64, u64)>) -> Result<
    WavHeader,
    Fault,
> {
    match (fmt, data) {
        (None, _) => Err(Fault::Unsupported("缺 fmt chunk"@)),
        (Some(_), None) => Err(Fault::Unsupported("缺 data chunk"@)),
        (Some(f), Some((data_start, data_len))) => match format_of(f.tag, f.bits) {
            None => Err(
                Fault::Unsupported(
                    "不支持的 WAV 编码形态（格式标签 "@ + decimal(f.tag as int) + " / 位深 "@
                        + decimal(f.bits as int) + "）"@,
                ),
            ),
            Some(format) => if f.channels == 0 {
                Err(Fault::Decode("通道数为 0"@))
            } else if f.sample_rate == 0 {
                Err(Fault::Decode("采样率为 0"@))
            } else if f.block_align < f.channels * format.bytes() {
                Err(Fault::Decode("block_align 与通道数/位深不符（头部损坏）"@))
            } else {
                Ok(
                    WavHeader {
                        format,
                        channels: f.channels,
                        sample_rate: f.sample_rate,
                        bits_per_sample: f.bits as u32,
                        block_align: f.block_align,
                        data_start,
                        data_len,
                    },
                )
            },
        },
    }
}

/// The header of a file.
pub open spec fn header_of(b: Seq<u8>) -> Result<WavHeader, Fault> {
    if b.len() < 12 {
        Err(short_file())
    } else if !is_riff_wave(b) {
        Err(Fault::Unsupported("不是 RIFF/WAVE 文件"@))
    } else {
        match chunks_from(b, 12, None, None) {
            Err(f) => Err(f),
            Ok((fmt, data)) => header_from(fmt, data),
        }
    }
}

/// A header that describes samples.
pub open spec fn is_valid(h: WavHeader) -> bool {
    &&& h.channels >= 1
    &&& h.sample_rate >= 1
    &&& h.block_align >= 1
    &&& h.channels * h.format.bytes() <= h.block_align
}

/// Tests how a file begins.
pub fn has_wave_magic(b: &[u8]) -> (r: bool)
    ensures
        r == is_riff_wave(b@),
{
    let first: [u8; 4] = [0x52, 0x49, 0x46, 0x46];
    let second: [u8; 4] = [0x57, 0x41, 0x56, 0x45];
    assert(first@ =~= riff());
    assert(second@ =~= wave());
    matches_at(b, 0, first.as_slice()) && matches_at(b, 8, second.as_slice())
}

fn is_fmt(b: &[u8], pos: usize) -> (r: bool)
    ensures
        r == has_at(b@, pos as int, fmt_id()),
{
    let id: [u8; 4] = [0x66, 0x6D, 0x74, 0x20];
    assert(id@ =~= fmt_id());
    matches_at(b, pos, id.as_slice())
}

fn is_data(b: &[u8], pos: usize) -> (r: bool)
    ensures
        r == has_at(b@, pos as int, data_id()),
{
    let id: [u8; 4] = [0x64, 0x61, 0x74, 0x61];
    assert(id@ =~= data_id());
    matches_at(b, pos, id.as_slice())
}

fn read_fmt(b: &[u8], at: usize, size: u32) -> (f: Fmt)
    requires
        size >= 16,
        at + size <= b.len(),
    ensures
        f == fmt_at(b@, at as int, size as int),
{
    let first: u16 = read_le16(b, at);
    let tag: u16 = if first == 0xFFFE && size >= 40 {
        read_le16(b, at + 24)
    } else {
        first
    };
    Fmt {
        tag,
        channels: read_le16(b, at + 2),
        sample_rate: read_le32(b, at + 4),
        block_align: read_le16(b, at + 12),
        bits: read_le16(b, at + 14),
    }
}

fn choose_format(tag: u16, bits: u16) -> (f: Option<SampleFormat>)
    ensures
        f == format_of(tag, bits),
{
    match (tag, bits) {
        (1, 8) => Some(SampleFormat::PcmU8),
        (1, 16) => Some(SampleFormat::Pcm16),
        (1, 24) => Some(SampleFormat::Pcm24),
        (1, 32) => Some(SampleFormat::Pcm32),
        (3, 32) => Some(SampleFormat::Float32),
        (3, 64) => Some(SampleFormat::Float64),
        _ => None,
    }
}

fn build_header(fmt: Option<Fmt>, data: Option<(u64, u64)>) -> (r: Result<WavHeader, DecodeError>)
    ensures
        match header_from(fmt, data) {
            Ok(h) => r matches Ok(w) && w == h && is_valid(h),
            Err(f) => r matches Err(e) && e@ == f,
        },
{
    let f: Fmt = match fmt {
        None => return Err(DecodeError::unsupported("缺 fmt chunk")),
        Some(f) => f,
    };
    let (data_start, data_len): (u64, u64) = match data {
        None => return Err(DecodeError::unsupported("缺 data chunk")),
        Some(d) => d,
    };
    let format: SampleFormat = match choose_format(f.tag, f.bits) {
        Some(format) => format,
        None => {
            let mut text: String = "不支持的 WAV 编码形态（格式标签 ".to_owned();
            text.append(decimal_text(f.tag as i64).as_str());
            text.append(" / 位深 ");
            text.append(decimal_text(f.bits as i64).as_str());
            text.append("）");
            return Err(DecodeError::Unsupported(text));
        },
    };
    if f.channels == 0 {
        return Err(DecodeError::decode("通道数为 0"));
    }
    if f.sample_rate == 0 {
        return Err(DecodeError::decode("采样率为 0"));
    }
    assert(f.channels * format.bytes() <= 0xFFFF * 8) by (nonlinear_arith)
        requires
            f.channels <= 0xFFFF,
            format.bytes() <= 8,
    ;
    if (f.block_align as u32) < f.channels as u32 * format.bytes() {
        return Err(DecodeError::decode("block_align 与通道数/位深不符（头部损坏）"));
    }
    assert(f.block_align >= 1) by (nonlinear_arith)
        requires
            f.channels >= 1,
            format.bytes() >= 1,
            f.channels * format.bytes() <= f.block_align,
    ;
    Ok(
        WavHeader {
            format,
            channels: f.channels,
            sample_rate: f.sample_rate,
            bits_per_sample: f.bits as u32,
            block_align: f.block_align,
            data_start,
            data_len,
        },
    )
}

/// Parses the header of a file. (No slice is longer than is asked here.)
pub fn parse_header(b: &[u8]) -> (r: Result<WavHeader, DecodeError>)
    requires
        b.len() <= i64::MAX,
    ensures
        match header_of(b@) {
            Ok(h) => r matches Ok(w) && w == h && is_valid(h),
            Err(f) => r matches Err(e) && e@ == f,
        },
{
    if b.len() < 12 {
        return Err(DecodeError::short());
    }
    if !has_wave_magic(b) {
        return Err(DecodeError::unsupported("不是 RIFF/WAVE 文件"));
    }
    let total: u64 = b.len() as u64;
    let mut pos: u64 = 12;
    let mut fmt: Option<Fmt> = None;
    let mut data: Option<(u64, u64)> = None;
    while !(fmt.is_some() && data.is_some()) && pos <= total && total - pos >= 8
        invariant
            b.len() >= 12,
            is_riff_wave(b@),
            total == b.len() <= i64::MAX,
            pos <= total + 0x1_0000_0010,
            chunks_from(b@, 12, None, None) == chunks_from(b@, pos as int, fmt, data),
        decreases total + 0x1_0000_0020 - pos,
    {
        let at: usize = pos as usize;
        let size: u32 = read_le32(b, at + 4);
        let body: usize = at + 8;
        if is_fmt(b, at) {
            if size < 16 {
                return Err(DecodeError::decode("fmt chunk 过短"));
            }
            if size > 64 {
                let mut text: String = "fmt chunk 异常大（".to_owned();
                text.append(decimal_text(size as i64).as_str());
                text.append(" 字节，合法上限 64）");
                return Err(DecodeError::Unsupported(text));
            }
            if b.len() - body < size as usize {
                return Err(DecodeError::short());
            }
            fmt = Some(read_fmt(b, body, size));
        } else if is_data(b, at) {
            data = Some((body as u64, size as u64));
        }
        pos = body as u64 + size as u64 + (size % 2) as u64;
    }
    build_header(fmt, data)
}

/// A number of `bits` bits read as two's complement.
pub open spec fn twos(v: nat, half: nat) -> int {
    if v >= half {
        v - 2 * half
    } else {
        v as int
    }
}

/// The sample at `at`: an integer around zero, or the bits of a floating-point
/// number.
pub open spec fn sample_value(format: SampleFormat, b: Seq<u8>, at: int) -> int {
    match format {
        SampleFormat::PcmU8 => b[at] - 128,
        SampleFormat::Pcm16 => twos(le16(b, at), 0x8000),
        SampleFormat::Pcm24 => twos(le24(b, at), 0x80_0000),
        SampleFormat::Pcm32 => twos(le32(b, at), 0x8000_0000),
        SampleFormat::Float32 => le32(b, at) as int,
        SampleFormat::Float64 => twos(le64(b, at), 0x8000_0000_0000_0000),
    }
}

/// Reads one sample.
pub fn convert_sample(format: SampleFormat, b: &[u8], at: usize) -> (v: i64)
    requires
        at + format.bytes() <= b.len(),
    ensures
        v == sample_value(format, b@, at as int),
{
    match format {
        SampleFormat::PcmU8 => b[at] as i64 - 128,
        SampleFormat::Pcm16 => {
            let x: i64 = read_le16(b, at) as i64;
            if x >= 0x8000 {
                x - 0x1_0000
            } else {
                x
            }
        },
        SampleFormat::Pcm24 => {
            let x: i64 = read_le24(b, at) as i64;
            if x >= 0x80_0000 {
                x - 0x100_0000
            } else {
                x
            }
        },
        SampleFormat::Pcm32 => {
            let x: i64 = read_le32(b, at) as i64;
            if x >= 0x8000_0000 {
                x - 0x1_0000_0000
            } else {
                x
            }
        },
        SampleFormat::Float32 => read_le32(b, at) as i64,
        SampleFormat::Float64 => {
            let x: u64 = read_le64(b, at);
            if x >= 0x8000_0000_0000_0000 {
                -((0xFFFF_FFFF_FFFF_FFFF - x) as i64) - 1
            } else {
                x as i64
            }
        },
    }
}

/// The samples of frames `from` up to `to`, channel by channel.
pub open spec fn frames_between(b: Seq<u8>, h: WavHeader, from: int, to: int) -> Seq<i64> {
    Seq::new(
        ((to - from) * h.channels) as nat,
        |k: int|
            sample_value(
                h.format,
                b,
                sample_offset(h, from + k / (h.channels as int), k % (h.channels as int)),
            ) as i64,
    )
}

/// Where sample `c` of frame `i` is.
pub open spec fn sample_offset(h: WavHeader, i: int, c: int) -> int {
    h.data_start + i * h.block_align + c * h.format.bytes()
}

/// The whole frames that the header promises.
pub open spec fn promised_frames(h: WavHeader) -> int {
    h.data_len as int / h.block_align as int
}

/// The whole frames that are there.
pub open spec fn frames_there(b: Seq<u8>, h: WavHeader) -> int {
    if h.data_start >= b.len() {
        0
    } else if b.len() - h.data_start < h.data_len {
        (b.len() - h.data_start) / h.block_align as int
    } else {
        promised_frames(h)
    }
}

/// Plays a WAV file.
pub struct WavBackend {
    data: Vec<u8>,
    header: WavHeader,
    cursor: u64,
}

impl WavBackend {
    /// The bytes of the file.
    pub closed spec fn bytes(&self) -> Seq<u8> {
        self.data@
    }

    /// What the header says.
    pub closed spec fn says(&self) -> WavHeader {
        self.header
    }

    /// The frame that comes next.
    pub closed spec fn position(&self) -> int {
        self.cursor as int
    }

    /// The header describes samples, and the position is one of them or the end.
    pub closed spec fn inv(&self) -> bool {
        &&& is_valid(self.header)
        &&& self.data.len() <= i64::MAX
        &&& self.cursor <= promised_frames(self.header)
        &&& self.header.data_start <= self.data.len() + 0x2_0000_0000
        &&& self.header.data_len <= 0xFFFF_FFFF
    }

    /// Opens a file. (No vector is longer than is asked here.)
    pub fn open(data: Vec<u8>) -> (r: Result<WavBackend, DecodeError>)
        requires
            data.len() <= i64::MAX,
        ensures
            match header_of(data@) {
                Ok(h) => {
                    &&& r matches Ok(b)
                    &&& b.inv()
                    &&& b.bytes() == data@
                    &&& b.says() == h
                    &&& b.position() == 0
                },
                Err(f) => r matches Err(e) && e@ == f,
            },
    {
        match parse_header(data.as_slice()) {
            Ok(header) => {
                proof {
                    lemma_data_place(data@, 12, None, None);
                    vstd::arithmetic::div_mod::lemma_div_pos_is_pos(
                        header.data_len as int,
                        header.block_align as int,
                    );
                }
                Ok(WavBackend { data, header, cursor: 0 })
            },
            Err(e) => Err(e),
        }
    }

    /// What the header says.
    pub fn header(&self) -> (h: WavHeader)
        requires
            self.inv(),
        ensures
            h == self.says(),
            is_valid(h),
    {
        self.header
    }

    /// The number of frames that the header promises.
    pub fn total_frames(&self) -> (n: u64)
        requires
            self.inv(),
        ensures
            n == promised_frames(self.says()),
    {
        self.header.data_len / self.header.block_align as u64
    }

    /// What is known of the file. `secs` is the length in seconds, by its bits: the
    /// frames promised by the sample rate.
    pub fn params(&self, secs: u64) -> (p: AudioParams)
        requires
            self.inv(),
        ensures
            p@ == (Params {
                sample_rate: Some(self.says().sample_rate),
                channels: Some(self.says().channels),
                bits_per_sample: Some(self.says().bits_per_sample),
                codec_name: "PCM"@,
                track_id: 0,
                duration: Some(secs),
            }),
    {
        let h: WavHeader = self.header;
        AudioParams::new(
            Some(h.sample_rate),
            Some(h.channels),
            Some(h.bits_per_sample),
            "PCM".to_owned(),
            0,
            Some(secs),
        )
    }

    fn available(&self) -> (n: u64)
        requires
            self.inv(),
        ensures
            n == frames_there(self.data@, self.header),
            n <= promised_frames(self.header),
    {
        let h: WavHeader = self.header;
        let total: u64 = self.data.len() as u64;
        let align: u64 = h.block_align as u64;
        if h.data_start >= total {
            proof {
                vstd::arithmetic::div_mod::lemma_div_pos_is_pos(
                    h.data_len as int,
                    h.block_align as int,
                );
            }
            return 0;
        }
        let there: u64 = total - h.data_start;
        if there < h.data_len {
            proof {
                vstd::arithmetic::div_mod::lemma_div_is_ordered(
                    there as int,
                    h.data_len as int,
                    align as int,
                );
            }
            there / align
        } else {
            h.data_len / align
        }
    }

    /// Gives out the next chunk of samples; nothing at the end. A file that ends
    /// too early ends at its last whole frame.
    pub fn decode_next(&mut self) -> (r: Option<Vec<i64>>)
        requires
            old(self).inv(),
        ensures
            final(self).inv(),
            final(self).bytes() == old(self).bytes(),
            final(self).says() == old(self).says(),
            ({
                let there = frames_there(old(self).bytes(), old(self).says());
                let from = old(self).position();
                let to = if there - from > CHUNK_FRAMES {
                    from + CHUNK_FRAMES
                } else {
                    there
                };
                if from >= there {
                    r is None && final(self).position() == from
                } else {
                    &&& r matches Some(chunk)
                    &&& chunk@ == frames_between(old(self).bytes(), old(self).says(), from, to)
                    &&& final(self).position() == to
                }
            }),
    {
        let there: u64 = self.available();
        if self.cursor >= there {
            return None;
        }
        let n: u64 = if there - self.cursor > CHUNK_FRAMES {
            CHUNK_FRAMES
        } else {
            there - self.cursor
        };
        let out: Vec<i64> = read_frames(
            self.data.as_slice(),
            &self.header,
            self.cursor,
            self.cursor + n,
        );
        self.cursor = self.cursor + n;
        Some(out)
    }

    /// Moves to a frame, or to the end where it lies behind.
    pub fn seek_frame(&mut self, target: u64)
        requires
            old(self).inv(),
        ensures
            final(self).inv(),
            final(self).bytes() == old(self).bytes(),
            final(self).says() == old(self).says(),
            final(self).position() == if target < promised_frames(old(self).says()) {
                target as int
            } else {
                promised_frames(old(self).says())
            },
    {
        let total: u64 = self.total_frames();
        self.cursor = if target < total {
            target
        } else {
            total
        };
    }
}

/// Chunks in the file, so that places in it can be counted.
proof fn lemma_data_place(b: Seq<u8>, pos: int, fmt: Option<Fmt>, data: Option<(u64, u64)>)
    requires
        0 <= pos,
        b.len() <= i64::MAX,
        data matches Some(d) ==> d.0 <= b.len() + 0x2_0000_0000 && d.1 <= 0xFFFF_FFFF,
    ensures
        chunks_from(b, pos, fmt, data) matches Ok((_, Some(d))) ==> d.0 <= b.len()
            + 0x2_0000_0000 && d.1 <= 0xFFFF_FFFF,
    decreases
        if pos < b.len() {
            b.len() - pos
        } else {
            0
        },
{
    if !(fmt is Some && data is Some || pos + 8 > b.len()) {
        let size = le32(b, pos + 4) as int;
        let body = pos + 8;
        let padded = size + size % 2;
        if has_at(b, pos, fmt_id()) {
            if 16 <= size <= 64 && body + size <= b.len() {
                lemma_data_place(b, body + padded, Some(fmt_at(b, body, size)), data);
            }
        } else if has_at(b, pos, data_id()) {
            lemma_data_place(b, body + padded, fmt, Some((body as u64, size as u64)));
        } else {
            lemma_data_place(b, body + padded, fmt, data);
        }
    }
}

fn read_frames(b: &[u8], h: &WavHeader, from: u64, to: u64) -> (out: Vec<i64>)
    requires
        is_valid(*h),
        from <= to <= frames_there(b@, *h),
        b.len() <= i64::MAX,
        h.data_start <= b.len() + 0x2_0000_0000,
        h.data_len <= 0xFFFF_FFFF,
    ensures
        out@ == frames_between(b@, *h, from as int, to as int),
{
    let ch: usize = h.channels as usize;
    let bps: usize = h.format.bytes() as usize;
    let align: usize = h.block_align as usize;
    let ghost all = frames_between(b@, *h, from as int, to as int);
    let mut out: Vec<i64> = Vec::new();
    let mut i: u64 = from;
    assert(0 * ch == 0);
    assert(out@ =~= all.take(0));
    while i < to
        invariant
            is_valid(*h),
            from <= i <= to <= frames_there(b@, *h),
            b.len() <= i64::MAX,
            ch == h.channels,
            bps == h.format.bytes(),
            align == h.block_align,
            all == frames_between(b@, *h, from as int, to as int),
            out@ == all.take((i - from) * ch),
        decreases to - i,
    {
        let ghost base = h.data_start + i * align;
        proof {
            lemma_frame_inside(b@, *h, i as int);
            assert((i - from) * ch + ch == (i - from + 1) * ch) by (nonlinear_arith);
            assert((i - from + 1) * ch <= (to - from) * ch) by (nonlinear_arith)
                requires
                    i < to,
                    ch >= 1,
            ;
            assert((i - from) * ch >= 0) by (nonlinear_arith)
                requires
                    i >= from,
                    ch >= 1,
            ;
            assert(i * align >= 0) by (nonlinear_arith)
                requires
                    i >= 0,
                    align >= 0,
            ;
        }
        let start: usize = (h.data_start + i * h.block_align as u64) as usize;
        let mut c: usize = 0;
        while c < ch
            invariant
                is_valid(*h),
                from <= i < to,
                ch == h.channels,
                bps == h.format.bytes(),
                align == h.block_align,
                c <= ch,
                start == h.data_start + i * align,
                start + align <= b.len(),
                0 <= (i - from) * ch,
                (i - from) * ch + ch <= all.len(),
                all == frames_between(b@, *h, from as int, to as int),
                out@ == all.take((i - from) * ch + c),
            decreases ch - c,
        {
            let ghost k = (i - from) * ch + c;
            proof {
                assert(c * bps + bps <= ch * bps) by (nonlinear_arith)
                    requires
                        c < ch,
                        bps >= 1,
                ;
                assert(c * bps >= 0) by (nonlinear_arith);
                lemma_fundamental_div_mod_converse(k, ch as int, i - from, c as int);
            }
            let v: i64 = convert_sample(h.format, b, start + c * bps);
            assert(all[k] == v);
            out.push(v);
            assert(out@ =~= all.take(k + 1));
            c = c + 1;
        }
        i = i + 1;
    }
    assert(out@ =~= all);
    out
}

/// A frame that is there lies inside the file.
proof fn lemma_frame_inside(b: Seq<u8>, h: WavHeader, i: int)
    requires
        is_valid(h),
        0 <= i < frames_there(b, h),
    ensures
        h.data_start + i * h.block_align + h.block_align <= b.len(),
{
    let there = b.len() - h.data_start;
    let n = frames_there(b, h);
    let align = h.block_align as int;
    lemma_fundamental_div_mod(there, align);
    lemma_mod_bound(there, align);
    lemma_fundamental_div_mod(h.data_len as int, align);
    lemma_mod_bound(h.data_len as int, align);
    assert(n * align <= there) by {
        assert(align * (there / align) == (there / align) * align) by (nonlinear_arith);
        assert(align * (h.data_len as int / align) == (h.data_len as int / align) * align)
            by (nonlinear_arith);
    }
    assert(i * align + align <= n * align) by (nonlinear_arith)
        requires
            i < n,
            align >= 1,
    ;
}

/// A file is the same in whatever chunks it is read: two chunks that follow each
/// other are one.
pub proof fn law_chunks_join(b: Seq<u8>, h: WavHeader, from: int, mid: int, to: int)
    requires
        h.channels >= 1,
        from <= mid <= to,
    ensures
        frames_between(b, h, from, mid) + frames_between(b, h, mid, to) == frames_between(
            b,
            h,
            from,
            to,
        ),
{
    let ch = h.channels as int;
    let x = frames_between(b, h, from, mid);
    let y = frames_between(b, h, mid, to);
    let all = frames_between(b, h, from, to);
    assert((mid - from) * ch + (to - mid) * ch == (to - from) * ch) by (nonlinear_arith);
    assert((mid - from) * ch >= 0 && (to - mid) * ch >= 0) by (nonlinear_arith)
        requires
            from <= mid <= to,
            ch >= 1,
    ;
    assert forall|k: int| 0 <= k < y.len() implies #[trigger] y[k] == all[k + x.len()] by {
        lemma_fundamental_div_mod(k, ch);
        lemma_mod_bound(k, ch);
        let q = k / ch;
        let c = k % ch;
        assert(k + (mid - from) * ch == (mid - from + q) * ch + c) by (nonlinear_arith)
            requires
                k == ch * q + c,
        ;
        lemma_fundamental_div_mod_converse(k + (mid - from) * ch, ch, mid - from + q, c);
    }
    assert(x + y =~= all);
}

/// The sample rate that the header gives.
pub fn probe_sample_rate(b: &[u8]) -> (rate: Option<u32>)
    requires
        b.len() <= i64::MAX,
    ensures
        rate == (match header_of(b@) {
            Ok(h) => Some(h.sample_rate),
            Err(_) => None,
        }),
{
    match parse_header(b) {
        Ok(h) => Some(h.sample_rate),
        Err(_) => None,
    }
}

} // verus!
