//! Whole WavPack streams: decoding, playing back in chunks, and probing.

use super::header::{
    block_magic, find_first_rate, find_last_rate, first_rate, has_block_magic, header_of,
    last_rate, parse_block_header, subs_from, BlockHeader, HEADER_LEN, MAX_BLOCK_SAMPLES,
    MAX_BLOCK_SIZE, SAMPLE_RATES,
};
use super::stream::{block_of, decode_block};
use crate::bytes::has_at;
use crate::decoder::{AudioParams, Params};
use crate::error::{DecodeError, Fault};
use vstd::prelude::*;

verus! {

/// The number of frames that one call of [`WavPackBackend::decode_next`] gives.
pub const CHUNK_FRAMES: usize = 4096;

/// The format of the samples.
#[derive(Clone, Copy, Debug, PartialEq, Eq, Structural)]
pub struct Format {
    /// The number of channels.
    pub channels: u16,
    /// The sample rate in Hz.
    pub rate: u32,
    /// Bits per sample.
    pub bits: u32,
    /// The samples are the bits of floating-point numbers.
    pub is_float: bool,
}

/// A stream decoded.
pub struct Decoded {
    /// The samples, channels interleaved.
    pub samples: Seq<i32>,
    /// Their format.
    pub format: Format,
}

/// The sample rate of a block: by index, or out of the last sub-block that
/// gives one.
pub open spec fn block_rate(header: BlockHeader, meta: Seq<u8>) -> Option<u32> {
    if header.srate_index() == 15 {
        last_rate(subs_from(meta, 0))
    } else {
        Some(SAMPLE_RATES[header.srate_index() as int])
    }
}

/// The end of a stream: it must hold a block with audio.
pub open spec fn ended(samples: Seq<i32>, format: Option<Format>) -> Result<Decoded, Fault> {
    match format {
        Some(format) => Ok(Decoded { samples, format }),
        None => Err(Fault::Decode("WavPack 空流（无音频块）"@)),
    }
}

/// What a block adds to the samples and the format so far. The first block
/// with audio decides the format, and all others must have it.
#[verifier::opaque]
pub open spec fn with_block(
    header: BlockHeader,
    meta: Seq<u8>,
    samples: Seq<i32>,
    format: Option<Format>,
) -> Result<(Seq<i32>, Option<Format>), Fault> {
    match block_of(header, meta) {
        Err(f) => Err(f),
        Ok(xs) => if header.block_samples == 0 {
            Ok((samples, format))
        } else {
            match block_rate(header, meta) {
                None => Err(Fault::Decode("WavPack 非标准采样率缺 SAMPLE_RATE 子块"@)),
                Some(rate) => {
                    let own = Format {
                        channels: header.channels(),
                        rate,
                        bits: (header.bytes_per_sample() * 8) as u32,
                        is_float: header.float_data(),
                    };
                    if format is Some && format != Some(own) {
                        Err(Fault::Decode("WavPack 多块格式中途变化"@))
                    } else {
                        Ok((samples + xs, Some(own)))
                    }
                },
            }
        },
    }
}

/// The block at `pos`: its header and the metadata behind it, or what is wrong with
/// it.
#[verifier::opaque]
pub open spec fn block_at(bytes: Seq<u8>, pos: int) -> Result<(BlockHeader, Seq<u8>), Fault> {
    match header_of(bytes.subrange(pos, pos + HEADER_LEN)) {
        Err(f) => Err(f),
        Ok(header) => {
            let end = pos + header.block_len;
            if end > bytes.len() {
                Err(Fault::Decode("WavPack 块体截断"@))
            } else if header.bytes_per_sample() == 1 {
                Err(Fault::Unsupported("WavPack 8 位整数流不支持"@))
            } else {
                Ok((header, bytes.subrange(pos + HEADER_LEN, end)))
            }
        },
    }
}

/// A block is at least its header, and lies in the bytes.
pub proof fn lemma_block_size(bytes: Seq<u8>, pos: int)
    ensures
        block_at(bytes, pos) matches Ok((header, _)) ==> {
            &&& header.block_len >= HEADER_LEN
            &&& pos + header.block_len <= bytes.len()
        },
{
    reveal(block_at);
}

/// The stream from `pos` on, behind the samples so far. After some samples,
/// bytes that cannot begin a block are a tag and end the stream.
pub open spec fn stream_from(
    bytes: Seq<u8>,
    pos: int,
    samples: Seq<i32>,
    format: Option<Format>,
) -> Result<Decoded, Fault>
    decreases bytes.len() - pos,
{
    let some = format is Some && samples.len() > 0;
    if pos >= bytes.len() {
        ended(samples, format)
    } else if pos + HEADER_LEN > bytes.len() {
        if some {
            ended(samples, format)
        } else {
            Err(Fault::Decode("WavPack 流尾部不足一块（截断）"@))
        }
    } else if !has_at(bytes, pos, block_magic()) {
        if some {
            ended(samples, format)
        } else {
            Err(Fault::Decode("WavPack 块魔数不匹配"@))
        }
    } else {
        match block_at(bytes, pos) {
            Err(f) => Err(f),
            Ok((header, meta)) => match with_block(header, meta, samples, format) {
                Err(f) => Err(f),
                Ok((xs, own)) => {
                    proof {
                        lemma_block_size(bytes, pos);
                    }
                    stream_from(bytes, pos + header.block_len, xs, own)
                },
            },
        }
    }
}

/// What a whole stream decodes to.
pub open spec fn stream_of(bytes: Seq<u8>) -> Result<Decoded, Fault> {
    stream_from(bytes, 0, Seq::empty(), None)
}

/// Whether bytes from `pos` on are whole blocks, with nothing behind the last.
pub open spec fn only_blocks(bytes: Seq<u8>, pos: int) -> bool
    decreases bytes.len() - pos,
{
    if pos >= bytes.len() {
        pos == bytes.len()
    } else {
        &&& pos + HEADER_LEN <= bytes.len()
        &&& has_at(bytes, pos, block_magic())
        &&& match block_at(bytes, pos) {
            Ok((header, _)) => {
                proof {
                    lemma_block_size(bytes, pos);
                }
                only_blocks(bytes, pos + header.block_len)
            },
            Err(_) => false,
        }
    }
}

/// What follows a block does not matter to it.
proof fn lemma_block_before(a: Seq<u8>, b: Seq<u8>, pos: int)
    requires
        0 <= pos,
        pos + HEADER_LEN <= a.len(),
        block_at(a, pos) is Ok,
    ensures
        block_at(a + b, pos) == block_at(a, pos),
        has_at(a + b, pos, block_magic()) == has_at(a, pos, block_magic()),
{
    reveal(block_at);
    let all = a + b;
    let magic = block_magic();
    let head = a.subrange(pos, pos + HEADER_LEN);
    assert(all.subrange(pos, pos + HEADER_LEN) =~= head);
    assert(all.subrange(pos, pos + magic.len()) =~= a.subrange(pos, pos + magic.len()));
    let header = header_of(head)->Ok_0;
    let end = pos + header.block_len;
    assert(all.subrange(pos + HEADER_LEN, end) =~= a.subrange(pos + HEADER_LEN, end));
}

/// What stands before a block does not matter to it.
proof fn lemma_block_behind(a: Seq<u8>, b: Seq<u8>, pos: int)
    requires
        0 <= pos,
        pos + HEADER_LEN <= b.len(),
    ensures
        has_at(a + b, a.len() + pos, block_magic()) == has_at(b, pos, block_magic()),
        block_at(b, pos) is Ok ==> block_at(a + b, a.len() + pos) == block_at(b, pos),
{
    reveal(block_at);
    let all = a + b;
    let at = a.len() + pos;
    let magic = block_magic();
    let head = b.subrange(pos, pos + HEADER_LEN);
    assert(all.subrange(at, at + HEADER_LEN) =~= head);
    assert(all.subrange(at, at + magic.len()) =~= b.subrange(pos, pos + magic.len()));
    if block_at(b, pos) is Ok {
        let header = header_of(head)->Ok_0;
        assert(all.subrange(at + HEADER_LEN, at + header.block_len) =~= b.subrange(
            pos + HEADER_LEN,
            pos + header.block_len,
        ));
    }
}

/// What a block adds behind other samples. Once it is decided, the format stays.
proof fn lemma_block_adds(
    header: BlockHeader,
    meta: Seq<u8>,
    before: Seq<i32>,
    decided: Format,
    samples: Seq<i32>,
    format: Option<Format>,
)
    requires
        with_block(header, meta, samples, format) is Ok,
    ensures
        ({
            let (xs, own) = with_block(header, meta, samples, format)->Ok_0;
            &&& format is Some ==> own == format
            &&& own is None || own == Some(decided) ==> with_block(
                header,
                meta,
                before + samples,
                Some(decided),
            ) == Ok::<(Seq<i32>, Option<Format>), Fault>((before + xs, Some(decided)))
            &&& format is None && own is Some && own != Some(decided) ==> with_block(
                header,
                meta,
                before + samples,
                Some(decided),
            ) == Err::<(Seq<i32>, Option<Format>), Fault>(
                Fault::Decode("WavPack 多块格式中途变化"@),
            )
        }),
{
    reveal(with_block);
    let added = block_of(header, meta)->Ok_0;
    assert(before + (samples + added) =~= (before + samples) + added);
}

/// Behind whole blocks, decoding goes on with their samples and their format.
proof fn lemma_goes_on(
    a: Seq<u8>,
    b: Seq<u8>,
    pos: int,
    samples: Seq<i32>,
    format: Option<Format>,
)
    requires
        0 <= pos,
        only_blocks(a, pos),
        stream_from(a, pos, samples, format) is Ok,
    ensures
        ({
            let x = stream_from(a, pos, samples, format)->Ok_0;
            stream_from(a + b, pos, samples, format) == stream_from(
                a + b,
                a.len() as int,
                x.samples,
                Some(x.format),
            )
        }),
    decreases a.len() - pos,
{
    if pos < a.len() {
        lemma_block_before(a, b, pos);
        lemma_block_size(a, pos);
        let (header, meta) = block_at(a, pos)->Ok_0;
        let (xs, own) = with_block(header, meta, samples, format)->Ok_0;
        lemma_goes_on(a, b, pos + header.block_len, xs, own);
    }
}

/// A stream that decodes has the format that is decided.
proof fn lemma_format_stays(bytes: Seq<u8>, pos: int, samples: Seq<i32>, format: Format)
    requires
        stream_from(bytes, pos, samples, Some(format)) is Ok,
    ensures
        stream_from(bytes, pos, samples, Some(format))->Ok_0.format == format,
    decreases bytes.len() - pos,
{
    if pos < bytes.len() && pos + HEADER_LEN <= bytes.len() && has_at(bytes, pos, block_magic()) {
        lemma_block_size(bytes, pos);
        let (header, meta) = block_at(bytes, pos)->Ok_0;
        lemma_block_adds(header, meta, samples, format, samples, Some(format));
        let (xs, own) = with_block(header, meta, samples, Some(format))->Ok_0;
        lemma_format_stays(bytes, pos + header.block_len, xs, format);
    }
}

/// A stream decodes behind others as it does alone, if it has their format.
proof fn lemma_behind(
    a: Seq<u8>,
    b: Seq<u8>,
    pos: int,
    before: Seq<i32>,
    decided: Format,
    samples: Seq<i32>,
    format: Option<Format>,
)
    requires
        0 <= pos,
        format is None || format == Some(decided),
        stream_from(b, pos, samples, format) is Ok,
    ensures
        stream_from(a + b, a.len() + pos, before + samples, Some(decided)) == joined_to(
            before,
            decided,
            stream_from(b, pos, samples, format)->Ok_0,
        ),
    decreases b.len() - pos,
{
    if pos < b.len() && pos + HEADER_LEN <= b.len() {
        lemma_block_behind(a, b, pos);
        if has_at(b, pos, block_magic()) {
            lemma_block_size(b, pos);
            let (header, meta) = block_at(b, pos)->Ok_0;
            let end = pos + header.block_len;
            lemma_block_adds(header, meta, before, decided, samples, format);
            let (xs, own) = with_block(header, meta, samples, format)->Ok_0;
            if own is None || own == Some(decided) {
                lemma_behind(a, b, end, before, decided, xs, own);
            } else {
                lemma_format_stays(b, end, xs, own->Some_0);
            }
        }
    }
}

/// What comes of a stream behind samples of a decided format.
pub open spec fn joined_to(before: Seq<i32>, decided: Format, y: Decoded) -> Result<
    Decoded,
    Fault,
> {
    if y.format == decided {
        Ok(Decoded { samples: before + y.samples, format: decided })
    } else {
        Err(Fault::Decode("WavPack 多块格式中途变化"@))
    }
}

/// Streams can be joined: where both decode, whole blocks and a stream behind them
/// decode to the samples of the one and then those of the other, if both have one
/// format, and are refused if not.
pub proof fn law_streams_join(a: Seq<u8>, b: Seq<u8>)
    requires
        only_blocks(a, 0),
        stream_of(a) is Ok,
        stream_of(b) is Ok,
    ensures
        ({
            let x = stream_of(a)->Ok_0;
            let y = stream_of(b)->Ok_0;
            stream_of(a + b) == if x.format == y.format {
                Ok::<Decoded, Fault>(
                    Decoded { samples: x.samples + y.samples, format: x.format },
                )
            } else {
                Err(Fault::Decode("WavPack 多块格式中途变化"@))
            }
        }),
{
    let x = stream_of(a)->Ok_0;
    lemma_goes_on(a, b, 0, Seq::empty(), None);
    lemma_behind(a, b, 0, x.samples, x.format, Seq::empty(), None);
    assert(x.samples + Seq::<i32>::empty() =~= x.samples);
}

/// A tag behind the blocks changes nothing, where there are samples: bytes that cannot
/// begin a block end the stream.
pub proof fn law_tag_ignored(a: Seq<u8>, tag: Seq<u8>)
    requires
        only_blocks(a, 0),
        stream_of(a) matches Ok(x) && x.samples.len() > 0,
        tag.len() < HEADER_LEN || !has_at(tag, 0, block_magic()),
    ensures
        stream_of(a + tag) == stream_of(a),
{
    lemma_goes_on(a, tag, 0, Seq::empty(), None);
    if tag.len() >= HEADER_LEN {
        lemma_block_behind(a, tag, 0);
    }
}

/// A decoded stream.
pub struct DecodedStream {
    /// The samples, channels interleaved: integers in their own width, or the
    /// bits of floating-point numbers.
    pub samples: Vec<i32>,
    /// The number of channels.
    pub channels: u32,
    /// The sample rate in Hz.
    pub sample_rate: u32,
    /// Bits per sample.
    pub bits_per_sample: u32,
    /// The samples are the bits of floating-point numbers.
    pub is_float: bool,
}

impl View for DecodedStream {
    type V = Decoded;

    open spec fn view(&self) -> Decoded {
        Decoded {
            samples: self.samples@,
            format: Format {
                channels: self.channels as u16,
                rate: self.sample_rate,
                bits: self.bits_per_sample,
                is_float: self.is_float,
            },
        }
    }
}

/// Reads the sample rate of a block.
fn rate_of_block(header: &BlockHeader, meta: &[u8]) -> (r: Option<u32>)
    ensures
        r == block_rate(*header, meta@),
{
    let index: u32 = header.srate_index();
    if index == 15 {
        find_last_rate(meta)
    } else {
        Some(SAMPLE_RATES[index as usize])
    }
}

/// Decodes a block and adds it to the samples and the format so far.
fn add_block(
    header: &BlockHeader,
    meta: &[u8],
    samples: &mut Vec<i32>,
    format: &mut Option<Format>,
) -> (r: Result<(), DecodeError>)
    requires
        header.block_samples <= MAX_BLOCK_SAMPLES,
    ensures
        match with_block(*header, meta@, old(samples)@, *old(format)) {
            Ok((xs, own)) => {
                &&& r is Ok
                &&& final(samples)@ == xs
                &&& *final(format) == own
                &&& own != *old(format) ==> (own matches Some(f) && 1 <= f.channels <= 2)
            },
            Err(f) => r matches Err(e) && e@ == f,
        },
{
    proof {
        reveal(with_block);
    }
    let mut block = match decode_block(header, meta) {
        Ok(block) => block,
        Err(e) => {
            return Err(e);
        },
    };
    if header.block_samples > 0 {
        let rate: u32 = match rate_of_block(header, meta) {
            Some(rate) => rate,
            None => {
                return Err(
                    DecodeError::decode("WavPack 非标准采样率缺 SAMPLE_RATE 子块"),
                );
            },
        };
        let own = Format {
            channels: header.channels(),
            rate,
            bits: header.bytes_per_sample() * 8,
            is_float: header.float_data(),
        };
        match format {
            Some(first) => if *first != own {
                return Err(DecodeError::decode("WavPack 多块格式中途变化"));
            },
            None => {},
        }
        *format = Some(own);
        samples.append(&mut block);
    }
    Ok(())
}

/// Decodes a whole stream.
pub fn decode_stream(bytes: &[u8]) -> (r: Result<DecodedStream, DecodeError>)
    ensures
        match stream_of(bytes@) {
            Ok(d) => r matches Ok(s) && s@ == d && 1 <= s.channels <= 2,
            Err(f) => r matches Err(e) && e@ == f,
        },
{
    let mut pos: usize = 0;
    let mut samples: Vec<i32> = Vec::new();
    let mut format: Option<Format> = None;
    while pos < bytes.len()
        invariant_except_break
            stream_of(bytes@) == stream_from(bytes@, pos as int, samples@, format),
        invariant
            pos <= bytes.len(),
            format matches Some(own) ==> 1 <= own.channels <= 2,
        ensures
            stream_of(bytes@) == ended(samples@, format),
        decreases bytes.len() - pos,
    {
        let some: bool = format.is_some() && samples.len() > 0;
        if bytes.len() - pos < HEADER_LEN {
            if some {
                break ;
            }
            return Err(DecodeError::decode("WavPack 流尾部不足一块（截断）"));
        }
        if !has_block_magic(bytes, pos) {
            if some {
                break ;
            }
            return Err(DecodeError::decode("WavPack 块魔数不匹配"));
        }
        proof {
            reveal(block_at);
        }
        let header = match parse_block_header(&bytes[pos..pos + HEADER_LEN]) {
            Ok(header) => header,
            Err(e) => {
                return Err(e);
            },
        };
        if header.block_len > bytes.len() - pos {
            return Err(DecodeError::decode("WavPack 块体截断"));
        }
        if header.bytes_per_sample() == 1 {
            return Err(DecodeError::unsupported("WavPack 8 位整数流不支持"));
        }
        let end: usize = pos + header.block_len;
        match add_block(&header, &bytes[pos + HEADER_LEN..end], &mut samples, &mut format) {
            Ok(()) => {},
            Err(e) => {
                return Err(e);
            },
        }
        pos = end;
    }
    match format {
        Some(own) => Ok(
            DecodedStream {
                samples,
                channels: own.channels as u32,
                sample_rate: own.rate,
                bits_per_sample: own.bits,
                is_float: own.is_float,
            },
        ),
        None => Err(DecodeError::decode("WavPack 空流（无音频块）")),
    }
}

/// A decoded file that is played back in chunks.
pub struct WavPackBackend {
    samples: Vec<i32>,
    channels: usize,
    sample_rate: u32,
    bits_per_sample: u32,
    is_float: bool,
    cursor_frames: usize,
}

impl WavPackBackend {
    /// The samples, channels interleaved.
    pub closed spec fn samples(&self) -> Seq<i32> {
        self.samples@
    }

    /// The format of the samples.
    pub closed spec fn format(&self) -> Format {
        Format {
            channels: self.channels as u16,
            rate: self.sample_rate,
            bits: self.bits_per_sample,
            is_float: self.is_float,
        }
    }

    /// The frame that comes next.
    pub closed spec fn position(&self) -> nat {
        self.cursor_frames as nat
    }

    /// The number of whole frames.
    pub open spec fn frames(&self) -> nat {
        (self.samples().len() / self.format().channels as nat)
    }

    /// The samples that have not been given out.
    pub open spec fn rest(&self) -> Seq<i32> {
        let ch = self.format().channels as int;
        self.samples().subrange(self.position() * ch, self.frames() * ch)
    }

    /// One or two channels, and a position inside the samples.
    pub closed spec fn inv(&self) -> bool {
        &&& 1 <= self.channels <= 2
        &&& self.cursor_frames <= self.samples@.len() / (self.channels as nat)
    }

    /// Decodes a whole file.
    pub fn open(bytes: &[u8]) -> (r: Result<WavPackBackend, DecodeError>)
        ensures
            match stream_of(bytes@) {
                Ok(d) => {
                    &&& r matches Ok(b)
                    &&& b.inv()
                    &&& b.samples() == d.samples
                    &&& b.format() == d.format
                    &&& b.position() == 0
                },
                Err(f) => r matches Err(e) && e@ == f,
            },
    {
        match decode_stream(bytes) {
            Ok(s) => Ok(
                WavPackBackend {
                    samples: s.samples,
                    channels: s.channels as usize,
                    sample_rate: s.sample_rate,
                    bits_per_sample: s.bits_per_sample,
                    is_float: s.is_float,
                    cursor_frames: 0,
                },
            ),
            Err(e) => Err(e),
        }
    }

    /// The number of channels.
    pub fn channels(&self) -> (n: u16)
        requires
            self.inv(),
        ensures
            n == self.format().channels,
    {
        self.channels as u16
    }

    /// The sample rate in Hz.
    pub fn sample_rate(&self) -> (rate: u32)
        ensures
            rate == self.format().rate,
    {
        self.sample_rate
    }

    /// Bits per sample.
    pub fn bits_per_sample(&self) -> (bits: u32)
        ensures
            bits == self.format().bits,
    {
        self.bits_per_sample
    }

    /// Whether the samples are the bits of floating-point numbers.
    pub fn is_float(&self) -> (b: bool)
        ensures
            b == self.format().is_float,
    {
        self.is_float
    }

    /// The number of frames.
    pub fn total_frames(&self) -> (n: usize)
        requires
            self.inv(),
        ensures
            n == self.frames(),
    {
        self.samples.len() / self.channels
    }

    /// What is known of the file. `secs` is the length in seconds, by its bits, where
    /// there is a sample rate: the frames by that rate.
    pub fn params(&self, secs: u64) -> (p: AudioParams)
        requires
            self.inv(),
        ensures
            p@ == (Params {
                sample_rate: Some(self.format().rate),
                channels: Some(self.format().channels),
                bits_per_sample: Some(self.format().bits),
                codec_name: "WavPack"@,
                track_id: 0,
                duration: if self.format().rate > 0 {
                    Some(secs)
                } else {
                    None
                },
            }),
    {
        let duration: Option<u64> = if self.sample_rate > 0 {
            Some(secs)
        } else {
            None
        };
        AudioParams::new(
            Some(self.sample_rate),
            Some(self.channels as u16),
            Some(self.bits_per_sample),
            "WavPack".to_owned(),
            0,
            duration,
        )
    }

    /// Gives out the next chunk of samples; nothing at the end.
    pub fn decode_next(&mut self) -> (r: Option<Vec<i32>>)
        requires
            old(self).inv(),
        ensures
            final(self).inv(),
            final(self).samples() == old(self).samples(),
            final(self).format() == old(self).format(),
            match r {
                None => old(self).position() == old(self).frames() && final(self).position()
                    == old(self).position(),
                Some(chunk) => {
                    &&& old(self).position() < old(self).frames()
                    &&& final(self).position() == (if old(self).position() + CHUNK_FRAMES < old(
                        self,
                    ).frames() {
                        old(self).position() + CHUNK_FRAMES
                    } else {
                        old(self).frames() as int
                    })
                    &&& chunk@ + final(self).rest() == old(self).rest()
                    &&& chunk@.len() == (final(self).position() - old(self).position()) * old(
                        self,
                    ).format().channels
                },
            },
    {
        let total: usize = self.samples.len() / self.channels;
        if self.cursor_frames >= total {
            return None;
        }
        let left: usize = total - self.cursor_frames;
        let frames: usize = if CHUNK_FRAMES < left {
            CHUNK_FRAMES
        } else {
            left
        };
        let ghost ch = self.channels as int;
        assert((self.cursor_frames + frames) * ch <= total * ch <= self.samples@.len())
            by (nonlinear_arith)
            requires
                self.cursor_frames + frames <= total,
                total == self.samples@.len() / (self.channels as nat),
                1 <= self.channels <= 2,
                ch == self.channels,
        ;
        assert(self.cursor_frames * ch <= (self.cursor_frames + frames) * ch && (
        self.cursor_frames + frames) * ch == self.cursor_frames * ch + frames * ch)
            by (nonlinear_arith)
            requires
                ch >= 1,
                0 <= frames,
        ;
        let start: usize = self.cursor_frames * self.channels;
        let end: usize = start + frames * self.channels;
        let mut out: Vec<i32> = Vec::new();
        let mut i: usize = start;
        while i < end
            invariant
                start <= i <= end <= self.samples@.len(),
                out@ == self.samples@.subrange(start as int, i as int),
            decreases end - i,
        {
            out.push(self.samples[i]);
            i = i + 1;
            assert(self.samples@.subrange(start as int, i as int) =~= self.samples@.subrange(
                start as int,
                i - 1,
            ).push(self.samples@[i - 1]));
        }
        let ghost before = self.rest();
        self.cursor_frames = self.cursor_frames + frames;
        assert(out@ + self.rest() =~= before);
        Some(out)
    }

    /// Moves to a frame, or to the end if it lies behind.
    pub fn seek_frame(&mut self, target: u64)
        requires
            old(self).inv(),
        ensures
            final(self).inv(),
            final(self).samples() == old(self).samples(),
            final(self).format() == old(self).format(),
            final(self).position() == (if target < old(self).frames() {
                target as nat
            } else {
                old(self).frames()
            }),
    {
        let total: usize = self.samples.len() / self.channels;
        self.cursor_frames = if target < total as u64 {
            target as usize
        } else {
            total
        };
    }
}

/// The header of the first block and the metadata behind it, if the bytes hold
/// all of the block.
pub open spec fn first_block_of(bytes: Seq<u8>) -> Option<(BlockHeader, Seq<u8>)> {
    if bytes.len() < HEADER_LEN {
        None
    } else {
        match header_of(bytes.take(HEADER_LEN as int)) {
            Err(_) => None,
            Ok(header) => if header.block_len > bytes.len() {
                None
            } else {
                Some((header, bytes.subrange(HEADER_LEN as int, header.block_len as int)))
            },
        }
    }
}

/// The sample rate that a probe of the first block finds: by index, or out of
/// the first sub-block that gives one.
pub open spec fn probed_rate(bytes: Seq<u8>) -> Option<u32> {
    match first_block_of(bytes) {
        None => None,
        Some((header, meta)) => if header.srate_index() == 15 {
            first_rate(subs_from(meta, 0))
        } else {
            Some(SAMPLE_RATES[header.srate_index() as int])
        },
    }
}

/// Splits the first block off the start of a file.
pub fn first_block<'a>(bytes: &'a [u8]) -> (r: Option<(BlockHeader, &'a [u8])>)
    ensures
        match first_block_of(bytes@) {
            None => r is None,
            Some((header, meta)) => {
                &&& r matches Some(p)
                &&& p.0 == header
                &&& p.1@ == meta
                &&& HEADER_LEN <= header.block_len <= MAX_BLOCK_SIZE
                &&& header.block_samples <= MAX_BLOCK_SAMPLES
            },
        },
{
    if bytes.len() < HEADER_LEN {
        return None;
    }
    match parse_block_header(&bytes[0..HEADER_LEN]) {
        Err(_) => None,
        Ok(header) => if header.block_len > bytes.len() {
            None
        } else {
            Some((header, &bytes[HEADER_LEN..header.block_len]))
        },
    }
}

/// Probes the sample rate; the bytes are those of the file, at least up to the
/// end of its first block.
pub fn probe_sample_rate(bytes: &[u8]) -> (r: Option<u32>)
    ensures
        r == probed_rate(bytes@),
{
    match first_block(bytes) {
        None => None,
        Some((header, meta)) => {
            let index: u32 = header.srate_index();
            if index == 15 {
                find_first_rate(meta)
            } else {
                Some(SAMPLE_RATES[index as usize])
            }
        },
    }
}

/// The largest number of blocks that a probe walks.
pub const MAX_BLOCK_SCAN: u64 = 65536;

/// Counts the frames of a file by the headers of its blocks alone.
pub struct BlockScan {
    pos: u64,
    file_len: u64,
    total_frames: u64,
    scanned: u64,
    done: bool,
    truncated: bool,
}

/// How far a count of frames has come.
pub struct ScanState {
    /// Where the next header stands.
    pub pos: nat,
    /// The length of the file.
    pub file_len: nat,
    /// The frames counted.
    pub frames: nat,
    /// The headers asked for.
    pub scanned: nat,
    /// Nothing more is asked for.
    pub done: bool,
    /// The count stopped before the end because there are too many blocks.
    pub truncated: bool,
}

impl ScanState {
    /// The count behind the first block.
    pub open spec fn start(header: BlockHeader, file_len: nat) -> ScanState {
        ScanState {
            pos: header.block_len as nat,
            file_len,
            frames: header.block_samples as nat,
            scanned: 0,
            done: false,
            truncated: false,
        }
    }

    /// Asks for the next header: nothing at the end of the file or behind the
    /// largest number of blocks.
    pub open spec fn asked(self) -> (ScanState, Option<nat>) {
        if self.done {
            (self, None)
        } else if self.pos >= self.file_len {
            (ScanState { done: true, ..self }, None)
        } else if self.scanned >= MAX_BLOCK_SCAN {
            (ScanState { done: true, truncated: true, ..self }, None)
        } else {
            (ScanState { scanned: self.scanned + 1, ..self }, Some(self.pos))
        }
    }

    /// Takes the header asked for. One that cannot be read or is not valid
    /// ends the count.
    pub open spec fn told(self, bytes: Option<Seq<u8>>) -> ScanState {
        match bytes {
            None => ScanState { done: true, ..self },
            Some(b) => match header_of(b) {
                Err(_) => ScanState { done: true, ..self },
                Ok(h) => ScanState {
                    pos: self.pos + h.block_len as nat,
                    frames: self.frames + h.block_samples as nat,
                    ..self
                },
            },
        }
    }
}

impl BlockScan {
    /// How far the count has come.
    pub closed spec fn state(&self) -> ScanState {
        ScanState {
            pos: self.pos as nat,
            file_len: self.file_len as nat,
            frames: self.total_frames as nat,
            scanned: self.scanned as nat,
            done: self.done,
            truncated: self.truncated,
        }
    }

    /// No header has been told twice.
    pub closed spec fn inv(&self, pending: bool) -> bool {
        &&& self.scanned <= MAX_BLOCK_SCAN
        &&& pending ==> self.scanned >= 1
        &&& self.pos <= (self.scanned + (if pending {
            0int
        } else {
            1
        })) * MAX_BLOCK_SIZE
        &&& self.total_frames <= (self.scanned + (if pending {
            0int
        } else {
            1
        })) * MAX_BLOCK_SAMPLES
    }

    /// Starts behind the first block.
    pub fn new(header: &BlockHeader, file_len: u64) -> (s: Self)
        requires
            header.block_len <= MAX_BLOCK_SIZE,
            header.block_samples <= MAX_BLOCK_SAMPLES,
        ensures
            s.inv(false),
            s.state() == ScanState::start(*header, file_len as nat),
    {
        BlockScan {
            pos: header.block_len as u64,
            file_len,
            total_frames: header.block_samples as u64,
            scanned: 0,
            done: false,
            truncated: false,
        }
    }

    /// Where to read the next header; nothing where the count is over.
    pub fn ask(&mut self) -> (r: Option<u64>)
        requires
            old(self).inv(false),
        ensures
            final(self).inv(r is Some),
            old(self).state().asked() == (
                final(self).state(),
                match r {
                    Some(p) => Some(p as nat),
                    None => None,
                },
            ),
    {
        if self.done {
            return None;
        }
        if self.pos >= self.file_len {
            self.done = true;
            return None;
        }
        if self.scanned >= MAX_BLOCK_SCAN {
            self.done = true;
            self.truncated = true;
            return None;
        }
        self.scanned = self.scanned + 1;
        Some(self.pos)
    }

    /// Takes the header asked for, `None` if it could not be read.
    pub fn tell(&mut self, bytes: Option<&[u8]>)
        requires
            old(self).inv(true),
        ensures
            final(self).inv(false),
            final(self).state() == old(self).state().told(
                match bytes {
                    Some(b) => Some(b@),
                    None => None,
                },
            ),
    {
        match bytes {
            None => {
                self.done = true;
            },
            Some(b) => match parse_block_header(b) {
                Err(_) => {
                    self.done = true;
                },
                Ok(h) => {
                    self.pos = self.pos + h.block_len as u64;
                    self.total_frames = self.total_frames + h.block_samples as u64;
                },
            },
        }
    }

    /// The number of frames; unknown where the count stopped early.
    pub fn frames(&self) -> (r: Option<u64>)
        ensures
            r == (if self.state().truncated {
                None
            } else {
                Some(self.state().frames as u64)
            }),
    {
        if self.truncated {
            None
        } else {
            Some(self.total_frames)
        }
    }
}

/// What a probe finds of a file, by the header of its first block and the count of its
/// frames. `secs` is the length in seconds, by its bits, where there is a sample rate
/// and the frames are known: the frames by that rate.
pub fn probed_params(header: &BlockHeader, rate: u32, frames: Option<u64>, secs: u64) -> (p:
    AudioParams)
    ensures
        p@ == (Params {
            sample_rate: Some(rate),
            channels: Some(header.channels()),
            bits_per_sample: Some((header.bytes_per_sample() * 8) as u32),
            codec_name: "WavPack"@,
            track_id: 0,
            duration: if rate > 0 && frames is Some {
                Some(secs)
            } else {
                None
            },
        }),
{
    let duration: Option<u64> = if rate > 0 && frames.is_some() {
        Some(secs)
    } else {
        None
    };
    AudioParams::new(
        Some(rate),
        Some(header.channels()),
        Some(header.bytes_per_sample() * 8),
        "WavPack".to_owned(),
        0,
        duration,
    )
}

} // verus!
