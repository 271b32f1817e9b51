//! The header of a WavPack block and the metadata sub-blocks behind it.

use crate::bytes::{has_at, le16, le24, le32, matches_at, read_le16, read_le24, read_le32};
use crate::error::{same_outcome, DecodeError, Fault};
use crate::text::{hexadecimal, hexadecimal_text, join3};
use vstd::prelude::*;

verus! {

/// The length of a block header.
pub const HEADER_LEN: usize = 32;

/// The largest size of a block.
pub const MAX_BLOCK_SIZE: usize = 0x10_0000;

/// The largest number of frames in a block.
pub const MAX_BLOCK_SAMPLES: u32 = 131072;

/// Header flags that belong to the hybrid and lossy modes.
pub const ANY_HYBRID: u32 = 0x2000_0648;

/// The sample rates that the header names by index; index 15 stands for a rate
/// given in a sub-block.
pub const SAMPLE_RATES: [u32; 15] = [
    6000,
    8000,
    9600,
    11025,
    12000,
    16000,
    22050,
    24000,
    32000,
    44100,
    48000,
    64000,
    88200,
    96000,
    192000,
];

/// The id of the sub-block that holds a sample rate without an index.
pub const ID_SAMPLE_RATE: u8 = 0x27;

/// A block header.
#[derive(Debug, Clone, Copy)]
pub struct BlockHeader {
    /// The length of the whole block in the file.
    pub block_len: usize,
    /// The number of frames in the block.
    pub block_samples: u32,
    /// The format flags.
    pub flags: u32,
    /// The checksum of the decoded samples.
    pub crc: u32,
}

impl BlockHeader {
    /// Bytes per sample: 1 to 4.
    #[verifier::allow_in_spec]
    pub fn bytes_per_sample(&self) -> u32
        returns
            ((self.flags % 4) + 1) as u32,
    {
        self.flags % 4 + 1
    }

    /// One channel is stored.
    #[verifier::allow_in_spec]
    pub fn mono_stored(&self) -> bool
        returns
            self.flags & 0x4 != 0,
    {
        self.flags & 0x4 != 0
    }

    /// The channels are stored as their middle and their difference.
    #[verifier::allow_in_spec]
    pub fn joint_stereo(&self) -> bool
        returns
            self.flags & 0x10 != 0,
    {
        self.flags & 0x10 != 0
    }

    /// The samples are floating-point numbers.
    #[verifier::allow_in_spec]
    pub fn float_data(&self) -> bool
        returns
            self.flags & 0x80 != 0,
    {
        self.flags & 0x80 != 0
    }

    /// The samples are integers of more than 24 bits.
    #[verifier::allow_in_spec]
    pub fn int32_data(&self) -> bool
        returns
            self.flags & 0x100 != 0,
    {
        self.flags & 0x100 != 0
    }

    /// How far the samples are shifted up in the end.
    #[verifier::allow_in_spec]
    pub fn output_shift(&self) -> u32
        returns
            (self.flags / 0x2000) % 0x20,
    {
        (self.flags / 0x2000) % 0x20
    }

    /// The number of bits that the samples are declared to need.
    #[verifier::allow_in_spec]
    pub fn magnitude(&self) -> u32
        returns
            (self.flags / 0x4_0000) % 0x20,
    {
        (self.flags / 0x4_0000) % 0x20
    }

    /// The index of the sample rate.
    #[verifier::allow_in_spec]
    pub fn srate_index(&self) -> u32
        returns
            (self.flags / 0x80_0000) % 0x10,
    {
        (self.flags / 0x80_0000) % 0x10
    }

    /// Two equal channels are stored as one.
    #[verifier::allow_in_spec]
    pub fn false_stereo(&self) -> bool
        returns
            self.flags & 0x4000_0000 != 0,
    {
        self.flags & 0x4000_0000 != 0
    }

    /// The stored data is that of one channel.
    #[verifier::allow_in_spec]
    pub fn mono_data(&self) -> bool
        returns
            self.mono_stored() || self.false_stereo(),
    {
        self.mono_stored() || self.false_stereo()
    }

    /// The number of channels that come out.
    #[verifier::allow_in_spec]
    pub fn channels(&self) -> u16
        returns
            if self.mono_stored() && !self.false_stereo() {
                1u16
            } else {
                2u16
            },
    {
        if self.mono_stored() && !self.false_stereo() {
            1
        } else {
            2
        }
    }
}

/// The four bytes that every block begins with.
pub open spec fn block_magic() -> Seq<u8> {
    seq![0x77u8, 0x76u8, 0x70u8, 0x6Bu8]
}

/// What the bytes of a header say: the first of these problems that they have,
/// or the header.
pub open spec fn header_of(buf: Seq<u8>) -> Result<BlockHeader, Fault> {
    if buf.len() < HEADER_LEN {
        Err(Fault::Decode("WavPack 块头不足 32 字节（截断）"@))
    } else if !has_at(buf, 0, block_magic()) {
        Err(Fault::Decode("不是 WavPack 流（坏魔数或带 ID3 前缀）"@))
    } else if le32(buf, 4) + 8 > MAX_BLOCK_SIZE || le32(buf, 4) < 24 {
        Err(Fault::Decode("WavPack 块尺寸非法"@))
    } else if !(0x402 <= le16(buf, 8) <= 0x410) {
        Err(
            Fault::Unsupported(
                "WavPack 版本 "@ + hexadecimal(le16(buf, 8))
                    + " 超出支持范围（0x402..=0x410）"@,
            ),
        )
    } else if le32(buf, 20) > MAX_BLOCK_SAMPLES {
        Err(Fault::Decode("WavPack 单块帧数超限"@))
    } else if le32(buf, 24) >= 0x8000_0000 {
        Err(Fault::Unsupported("WavPack DSD 流不支持"@))
    } else if (le32(buf, 24) as u32) & ANY_HYBRID != 0 {
        Err(Fault::Unsupported("WavPack hybrid/lossy 模式不支持"@))
    } else {
        Ok(
            BlockHeader {
                block_len: (le32(buf, 4) + 8) as usize,
                block_samples: le32(buf, 20) as u32,
                flags: le32(buf, 24) as u32,
                crc: le32(buf, 28) as u32,
            },
        )
    }
}

/// Tests for the four bytes that every block begins with.
pub fn has_block_magic(buf: &[u8], i: usize) -> (r: bool)
    ensures
        r == has_at(buf@, i as int, block_magic()),
{
    let magic: [u8; 4] = [0x77, 0x76, 0x70, 0x6B];
    assert(magic@ =~= block_magic());
    matches_at(buf, i, magic.as_slice())
}

/// Parses a block header.
pub fn parse_block_header(buf: &[u8]) -> (r: Result<BlockHeader, DecodeError>)
    ensures
        same_outcome(r, header_of(buf@)),
        r matches Ok(h) ==> HEADER_LEN <= h.block_len <= MAX_BLOCK_SIZE && h.block_samples
            <= MAX_BLOCK_SAMPLES,
{
    if buf.len() < HEADER_LEN {
        return Err(DecodeError::decode("WavPack 块头不足 32 字节（截断）"));
    }
    if !has_block_magic(buf, 0) {
        return Err(DecodeError::decode("不是 WavPack 流（坏魔数或带 ID3 前缀）"));
    }
    let ck_size: u32 = read_le32(buf, 4);
    if ck_size > 0xF_FFF8 || ck_size < 24 {
        return Err(DecodeError::decode("WavPack 块尺寸非法"));
    }
    let version: u16 = read_le16(buf, 8);
    if version < 0x402 || version > 0x410 {
        let text: String = join3(
            "WavPack 版本 ",
            hexadecimal_text(version as u64).as_str(),
            " 超出支持范围（0x402..=0x410）",
        );
        return Err(DecodeError::Unsupported(text));
    }
    let block_samples: u32 = read_le32(buf, 20);
    if block_samples > MAX_BLOCK_SAMPLES {
        return Err(DecodeError::decode("WavPack 单块帧数超限"));
    }
    let flags: u32 = read_le32(buf, 24);
    if flags >= 0x8000_0000 {
        return Err(DecodeError::unsupported("WavPack DSD 流不支持"));
    }
    if flags & ANY_HYBRID != 0 {
        return Err(DecodeError::unsupported("WavPack hybrid/lossy 模式不支持"));
    }
    Ok(
        BlockHeader {
            block_len: ck_size as usize + 8,
            block_samples,
            flags,
            crc: read_le32(buf, 28),
        },
    )
}

/// A metadata sub-block: its id, with the optional bit and without the size
/// bits, and its data, without padding.
pub struct Sub {
    /// The id.
    pub id: u8,
    /// The data.
    pub data: Seq<u8>,
}

/// What stands at one place of the metadata.
pub enum SubAt {
    /// No room for another sub-block.
    End,
    /// A sub-block that is not well formed.
    Bad(Fault),
    /// A sub-block, and the place behind it.
    Block(Sub, int),
}

/// What stands at `pos`. The size is counted in words of two bytes, in one
/// byte or, for a large sub-block, in three; an odd size drops the last byte.
pub open spec fn sub_at(meta: Seq<u8>, pos: int) -> SubAt {
    if pos + 2 > meta.len() {
        SubAt::End
    } else {
        let id_byte = meta[pos];
        let large = id_byte >= 0x80;
        let odd = id_byte & 0x40 != 0;
        if large && pos + 4 > meta.len() {
            SubAt::Bad(Fault::Decode("WavPack 子块头越界"@))
        } else {
            let payload = 2 * (if large {
                le24(meta, pos + 1)
            } else {
                meta[pos + 1] as nat
            });
            let start = pos + (if large {
                4int
            } else {
                2int
            });
            if odd && payload == 0 {
                SubAt::Bad(Fault::Decode("WavPack 奇尺寸子块零长度"@))
            } else if start + payload > meta.len() {
                SubAt::Bad(Fault::Decode("WavPack 子块载荷越界"@))
            } else {
                let end = if odd {
                    start + payload - 1
                } else {
                    start + payload
                };
                SubAt::Block(
                    Sub { id: id_byte % 0x40, data: meta.subrange(start, end) },
                    start + payload,
                )
            }
        }
    }
}

/// The sub-blocks from `pos` on, up to the end or the first that is not well
/// formed.
pub open spec fn subs_from(meta: Seq<u8>, pos: int) -> Seq<Sub>
    decreases meta.len() - pos,
{
    match sub_at(meta, pos) {
        SubAt::Block(sub, next) => seq![sub] + subs_from(meta, next),
        _ => Seq::empty(),
    }
}

/// What is wrong with the sub-blocks from `pos` on, if anything is.
pub open spec fn subs_fault(meta: Seq<u8>, pos: int) -> Option<Fault>
    decreases meta.len() - pos,
{
    match sub_at(meta, pos) {
        SubAt::End => None,
        SubAt::Bad(f) => Some(f),
        SubAt::Block(_, next) => subs_fault(meta, next),
    }
}

/// A metadata sub-block.
pub struct SubBlock<'a> {
    /// The id, with the optional bit and without the size bits.
    pub id: u8,
    /// The data, without padding.
    pub data: &'a [u8],
}

impl<'a> SubBlock<'a> {
    /// What the sub-block holds.
    pub open spec fn sub(&self) -> Sub {
        Sub { id: self.id, data: self.data@ }
    }
}

/// Walks the sub-blocks of a block.
pub struct SubBlocks<'a> {
    /// The metadata.
    pub meta: &'a [u8],
    /// Where the next sub-block stands.
    pub pos: usize,
}

impl<'a> SubBlocks<'a> {
    /// Starts at the first sub-block.
    pub fn new(meta: &'a [u8]) -> (s: Self)
        ensures
            s.meta == meta,
            s.pos == 0,
    {
        SubBlocks { meta, pos: 0 }
    }

    /// Takes the next sub-block. At one that is not well formed the walk stays
    /// where it is.
    pub fn next(&mut self) -> (r: Option<Result<SubBlock<'a>, DecodeError>>)
        requires
            old(self).pos <= old(self).meta.len(),
        ensures
            final(self).meta == old(self).meta,
            final(self).pos <= final(self).meta.len(),
            match sub_at(old(self).meta@, old(self).pos as int) {
                SubAt::End => r is None && final(self).pos == old(self).pos,
                SubAt::Bad(f) => {
                    &&& r matches Some(Err(e))
                    &&& e@ == f
                    &&& final(self).pos == old(self).pos
                },
                SubAt::Block(sub, next) => {
                    &&& r matches Some(Ok(b))
                    &&& b.sub() == sub
                    &&& final(self).pos == next
                    &&& final(self).pos > old(self).pos
                },
            },
    {
        let meta = self.meta;
        let room: usize = meta.len() - self.pos;
        if room < 2 {
            return None;
        }
        let id_byte: u8 = meta[self.pos];
        let large: bool = id_byte >= 0x80;
        let odd: bool = id_byte & 0x40 != 0;
        if large && room < 4 {
            return Some(Err(DecodeError::decode("WavPack 子块头越界")));
        }
        let words: u32 = if large {
            read_le24(meta, self.pos + 1)
        } else {
            meta[self.pos + 1] as u32
        };
        let head: usize = if large {
            4
        } else {
            2
        };
        let payload: usize = words as usize * 2;
        if odd && payload == 0 {
            return Some(Err(DecodeError::decode("WavPack 奇尺寸子块零长度")));
        }
        if payload > room - head {
            return Some(Err(DecodeError::decode("WavPack 子块载荷越界")));
        }
        let start: usize = self.pos + head;
        let kept: usize = if odd {
            payload - 1
        } else {
            payload
        };
        self.pos = start + payload;
        Some(Ok(SubBlock { id: id_byte % 0x40, data: &meta[start..start + kept] }))
    }
}

/// The sample rate that a sub-block gives, if it gives one.
pub open spec fn rate_in(sub: Sub) -> Option<u32> {
    if sub.id == ID_SAMPLE_RATE && sub.data.len() >= 3 {
        Some(le24(sub.data, 0) as u32)
    } else {
        None
    }
}

/// The last sample rate that the sub-blocks give.
pub open spec fn last_rate(subs: Seq<Sub>) -> Option<u32>
    decreases subs.len(),
{
    if subs.len() == 0 {
        None
    } else {
        match last_rate(subs.drop_first()) {
            Some(rate) => Some(rate),
            None => rate_in(subs[0]),
        }
    }
}

/// The first sample rate that the sub-blocks give.
pub open spec fn first_rate(subs: Seq<Sub>) -> Option<u32>
    decreases subs.len(),
{
    if subs.len() == 0 {
        None
    } else {
        match rate_in(subs[0]) {
            Some(rate) => Some(rate),
            None => first_rate(subs.drop_first()),
        }
    }
}

/// Reads the sample rate out of a sub-block.
fn sub_rate(sub: &SubBlock) -> (r: Option<u32>)
    ensures
        r == rate_in(sub.sub()),
{
    if sub.id == ID_SAMPLE_RATE && sub.data.len() >= 3 {
        Some(read_le24(sub.data, 0))
    } else {
        None
    }
}

/// Finds the last sample rate in the metadata.
pub fn find_last_rate(meta: &[u8]) -> (r: Option<u32>)
    ensures
        r == last_rate(subs_from(meta@, 0)),
{
    let mut walk = SubBlocks::new(meta);
    let mut found: Option<u32> = None;
    loop
        invariant
            walk.meta == meta,
            walk.pos <= meta.len(),
            last_rate(subs_from(meta@, 0)) == (match last_rate(subs_from(meta@, walk.pos as int)) {
                Some(rate) => Some(rate),
                None => found,
            }),
        decreases meta.len() - walk.pos,
    {
        let ghost at = walk.pos as int;
        match walk.next() {
            Some(Ok(sub)) => {
                proof {
                    let subs = subs_from(meta@, at);
                    assert(subs.drop_first() =~= subs_from(meta@, walk.pos as int));
                    assert(subs[0] == sub.sub());
                }
                match sub_rate(&sub) {
                    Some(rate) => {
                        found = Some(rate);
                    },
                    None => {},
                }
            },
            _ => {
                return found;
            },
        }
    }
}

/// Finds the first sample rate in the metadata.
pub fn find_first_rate(meta: &[u8]) -> (r: Option<u32>)
    ensures
        r == first_rate(subs_from(meta@, 0)),
{
    let mut walk = SubBlocks::new(meta);
    loop
        invariant
            walk.meta == meta,
            walk.pos <= meta.len(),
            first_rate(subs_from(meta@, 0)) == first_rate(subs_from(meta@, walk.pos as int)),
        decreases meta.len() - walk.pos,
    {
        let ghost at = walk.pos as int;
        match walk.next() {
            Some(Ok(sub)) => {
                proof {
                    let subs = subs_from(meta@, at);
                    assert(subs.drop_first() =~= subs_from(meta@, walk.pos as int));
                    assert(subs[0] == sub.sub());
                }
                match sub_rate(&sub) {
                    Some(rate) => {
                        return Some(rate);
                    },
                    None => {},
                }
            },
            _ => {
                return None;
            },
        }
    }
}

} // verus!
