//! The header of a FLAC frame.

use super::bits::{BitReader, Bits};
use super::crc::crc8_of;
use super::metadata::StreamInfo;
use crate::error::{DecodeError, Fault};
use crate::text::{hexadecimal_padded, hexadecimal_padded_text};
use vstd::arithmetic::power2::{lemma2_to64, pow2};
use vstd::prelude::*;

verus! {

/// How the channels of a frame are stored.
#[derive(Debug, Clone, Copy, PartialEq, Eq, Structural)]
pub enum ChannelAssignment {
    /// Each for itself.
    Independent(u8),
    /// The left one, and how far it lies above the right one.
    LeftSide,
    /// How far the left one lies above the right one, and the right one.
    RightSide,
    /// Their mean, and how far the left one lies above the right one.
    MidSide,
}

/// What the header of a frame says.
#[derive(Debug, Clone, Copy)]
pub struct FrameHeader {
    /// Samples per channel.
    pub block_size: u32,
    /// How the channels are stored.
    pub assignment: ChannelAssignment,
    /// Bits per sample.
    pub bits_per_sample: u8,
}

/// The codes in the first four bytes of a header.
#[derive(Clone, Copy)]
pub struct Codes {
    /// The block size.
    pub size: u32,
    /// The sample rate.
    pub rate: u32,
    /// The channels.
    pub channels: u32,
    /// The bits per sample.
    pub depth: u32,
}

/// The codes, after the two bits that follow the synchronisation.
pub open spec fn codes_behind_sync(b: Bits) -> (Result<Codes, Fault>, Bits) {
    match b.read(4) {
        (Err(f), b) => (Err(f), b),
        (Ok(size), b) => match b.read(4) {
            (Err(f), b) => (Err(f), b),
            (Ok(rate), b) => match b.read(4) {
                (Err(f), b) => (Err(f), b),
                (Ok(channels), b) => match b.read(3) {
                    (Err(f), b) => (Err(f), b),
                    (Ok(depth), b) => match b.read(1) {
                        (Err(f), b) => (Err(f), b),
                        (Ok(_), b) => (
                            Ok(
                                Codes {
                                    size: size as u32,
                                    rate: rate as u32,
                                    channels: channels as u32,
                                    depth: depth as u32,
                                },
                            ),
                            b,
                        ),
                    },
                },
            },
        },
    }
}

/// The synchronisation and the codes behind it.
pub open spec fn codes(b: Bits) -> (Result<Codes, Fault>, Bits) {
    match b.read(14) {
        (Err(f), b) => (Err(f), b),
        (Ok(sync), b) => if sync != 0x3FFE {
            (Err(Fault::Decode("帧同步码丢失（流损坏或偏移错位）"@)), b)
        } else {
            match b.read(1) {
                (Err(f), b) => (Err(f), b),
                (Ok(_), b) => match b.read(1) {
                    (Err(f), b) => (Err(f), b),
                    (Ok(_), b) => codes_behind_sync(b),
                },
            }
        },
    }
}

/// The number of bytes behind the first one of a frame number.
pub open spec fn more_bytes(first: nat) -> Option<nat> {
    if first < 0x80 {
        Some(0)
    } else if 0xC0 <= first < 0xE0 {
        Some(1)
    } else if 0xE0 <= first < 0xF0 {
        Some(2)
    } else if 0xF0 <= first < 0xF8 {
        Some(3)
    } else if 0xF8 <= first < 0xFC {
        Some(4)
    } else if 0xFC <= first < 0xFE {
        Some(5)
    } else if first == 0xFE {
        Some(6)
    } else {
        None
    }
}

/// Some bytes passed over.
pub open spec fn bytes_skipped(b: Bits, n: nat) -> (Result<(), Fault>, Bits)
    decreases n,
{
    if n == 0 {
        (Ok(()), b)
    } else {
        match b.read(8) {
            (Err(f), b) => (Err(f), b),
            (Ok(_), b) => bytes_skipped(b, (n - 1) as nat),
        }
    }
}

/// The frame number passed over.
pub open spec fn number_skipped(b: Bits) -> (Result<(), Fault>, Bits) {
    match b.read(8) {
        (Err(f), b) => (Err(f), b),
        (Ok(first), b) => match more_bytes(first) {
            None => (Err(Fault::Decode("帧号编码非法"@)), b),
            Some(n) => bytes_skipped(b, n),
        },
    }
}

/// The block size.
pub open spec fn size_of(b: Bits, code: u32) -> (Result<nat, Fault>, Bits) {
    if code == 1 {
        (Ok(192), b)
    } else if 2 <= code <= 5 {
        (Ok(576 * pow2((code - 2) as nat)), b)
    } else if code == 6 || code == 7 {
        match b.read(
            if code == 6 {
                8
            } else {
                16
            },
        ) {
            (Err(f), b) => (Err(f), b),
            (Ok(v), b) => (Ok(v + 1), b),
        }
    } else if 8 <= code <= 15 {
        (Ok(256 * pow2((code - 8) as nat)), b)
    } else {
        (Err(Fault::Decode("块尺寸编码非法"@)), b)
    }
}

/// The sample rate passed over.
pub open spec fn rate_skipped(b: Bits, code: u32) -> (Result<(), Fault>, Bits) {
    if code == 12 {
        bytes_skipped(b, 1)
    } else if code == 13 || code == 14 {
        match b.read(16) {
            (Err(f), b) => (Err(f), b),
            (Ok(_), b) => (Ok(()), b),
        }
    } else if code == 15 {
        (Err(Fault::Decode("采样率编码非法"@)), b)
    } else {
        (Ok(()), b)
    }
}

/// The bits per sample.
pub open spec fn depth_of(code: u32, info: StreamInfo) -> Result<u8, Fault> {
    if code == 0 {
        Ok(info.bits_per_sample)
    } else if code == 1 {
        Ok(8u8)
    } else if code == 2 {
        Ok(12u8)
    } else if code == 4 {
        Ok(16u8)
    } else if code == 5 {
        Ok(20u8)
    } else if code == 6 {
        Ok(24u8)
    } else if code == 7 {
        Ok(32u8)
    } else {
        Err(Fault::Decode("位深编码非法"@))
    }
}

/// How the channels are stored.
pub open spec fn assignment_of(code: u32, info: StreamInfo) -> Result<ChannelAssignment, Fault> {
    if code <= 7 {
        if code + 1 != info.channels {
            Err(Fault::Decode("帧声道数与 STREAMINFO 不符"@))
        } else {
            Ok(ChannelAssignment::Independent(info.channels))
        }
    } else if code == 8 {
        Ok(ChannelAssignment::LeftSide)
    } else if code == 9 {
        Ok(ChannelAssignment::RightSide)
    } else if code == 10 {
        Ok(ChannelAssignment::MidSide)
    } else {
        Err(Fault::Decode("声道分配编码非法"@))
    }
}

/// What is said where a checksum does not fit.
pub open spec fn mismatch(
    opening: Seq<char>,
    computed: nat,
    stored: nat,
    digits: nat,
) -> Fault {
    Fault::Decode(
        opening + hexadecimal_padded(computed, digits) + "，流记 "@ + hexadecimal_padded(
            stored,
            digits,
        ) + "）"@,
    )
}

/// The checksum at the end of a header that started at byte `start`.
pub open spec fn header_closed(b: Bits, start: int) -> (Result<(), Fault>, Bits) {
    let computed = crc8_of(b.data.subrange(start, b.whole_bytes())) as nat;
    match b.read(8) {
        (Err(f), b) => (Err(f), b),
        (Ok(stored), b) => if computed == stored {
            (Ok(()), b)
        } else {
            (Err(mismatch("帧头 CRC-8 校验失败（算得 "@, computed, stored, 2)), b)
        },
    }
}

/// What stands behind the codes of a header.
pub open spec fn header_behind_codes(
    b: Bits,
    start: int,
    info: StreamInfo,
    c: Codes,
) -> (Result<FrameHeader, Fault>, Bits) {
    match number_skipped(b) {
        (Err(f), b) => (Err(f), b),
        (Ok(_), b) => match size_of(b, c.size) {
            (Err(f), b) => (Err(f), b),
            (Ok(size), b) => match rate_skipped(b, c.rate) {
                (Err(f), b) => (Err(f), b),
                (Ok(_), b) => match (depth_of(c.depth, info), assignment_of(c.channels, info)) {
                    (Err(f), _) => (Err(f), b),
                    (Ok(_), Err(f)) => (Err(f), b),
                    (Ok(depth), Ok(assignment)) => match header_closed(b, start) {
                        (Err(f), b) => (Err(f), b),
                        (Ok(_), b) => (
                            Ok(
                                FrameHeader {
                                    block_size: size as u32,
                                    assignment,
                                    bits_per_sample: depth,
                                },
                            ),
                            b,
                        ),
                    },
                },
            },
        },
    }
}

/// The header of the frame that started at byte `start`.
pub open spec fn header_of(b: Bits, start: int, info: StreamInfo) -> (
    Result<FrameHeader, Fault>,
    Bits,
) {
    match codes(b) {
        (Err(f), b) => (Err(f), b),
        (Ok(c), b) => header_behind_codes(b, start, info, c),
    }
}

fn read_codes(r: &mut BitReader) -> (res: Result<Codes, DecodeError>)
    requires
        old(r).inv(),
    ensures
        final(r).inv(),
        final(r).frame_start() == old(r).frame_start(),
        match codes(old(r).bits()) {
            (Ok(c), rest) => res matches Ok(w) && w == c && final(r).bits() == rest,
            (Err(f), rest) => res matches Err(e) && e@ == f && final(r).bits() == rest,
        },
{
    proof {
        lemma2_to64();
    }
    let sync: u32 = match r.read_bits(14) {
        Ok(v) => v,
        Err(e) => return Err(e),
    };
    if sync != 0x3FFE {
        return Err(DecodeError::decode("帧同步码丢失（流损坏或偏移错位）"));
    }
    match r.read_bits(1) {
        Ok(_) => {},
        Err(e) => return Err(e),
    }
    match r.read_bits(1) {
        Ok(_) => {},
        Err(e) => return Err(e),
    }
    let size: u32 = match r.read_bits(4) {
        Ok(v) => v,
        Err(e) => return Err(e),
    };
    let rate: u32 = match r.read_bits(4) {
        Ok(v) => v,
        Err(e) => return Err(e),
    };
    let channels: u32 = match r.read_bits(4) {
        Ok(v) => v,
        Err(e) => return Err(e),
    };
    let depth: u32 = match r.read_bits(3) {
        Ok(v) => v,
        Err(e) => return Err(e),
    };
    match r.read_bits(1) {
        Ok(_) => {},
        Err(e) => return Err(e),
    }
    Ok(Codes { size, rate, channels, depth })
}

fn skip_bytes(r: &mut BitReader, n: u32) -> (res: Result<(), DecodeError>)
    requires
        old(r).inv(),
    ensures
        final(r).inv(),
        final(r).frame_start() == old(r).frame_start(),
        match bytes_skipped(old(r).bits(), n as nat) {
            (Ok(_), rest) => res is Ok && final(r).bits() == rest,
            (Err(f), rest) => res matches Err(e) && e@ == f && final(r).bits() == rest,
        },
{
    let mut left: u32 = n;
    while left > 0
        invariant
            r.inv(),
            r.frame_start() == old(r).frame_start(),
            bytes_skipped(old(r).bits(), n as nat) == bytes_skipped(r.bits(), left as nat),
        decreases left,
    {
        match r.read_bits(8) {
            Ok(_) => {},
            Err(e) => return Err(e),
        }
        left = left - 1;
    }
    Ok(())
}

fn skip_number(r: &mut BitReader) -> (res: Result<(), DecodeError>)
    requires
        old(r).inv(),
    ensures
        final(r).inv(),
        final(r).frame_start() == old(r).frame_start(),
        match number_skipped(old(r).bits()) {
            (Ok(_), rest) => res is Ok && final(r).bits() == rest,
            (Err(f), rest) => res matches Err(e) && e@ == f && final(r).bits() == rest,
        },
{
    let first: u32 = match r.read_bits(8) {
        Ok(v) => v,
        Err(e) => return Err(e),
    };
    let more: u32 = if first < 0x80 {
        0
    } else if 0xC0 <= first && first < 0xE0 {
        1
    } else if 0xE0 <= first && first < 0xF0 {
        2
    } else if 0xF0 <= first && first < 0xF8 {
        3
    } else if 0xF8 <= first && first < 0xFC {
        4
    } else if 0xFC <= first && first < 0xFE {
        5
    } else if first == 0xFE {
        6
    } else {
        return Err(DecodeError::decode("帧号编码非法"));
    };
    skip_bytes(r, more)
}

fn read_size(r: &mut BitReader, code: u32) -> (res: Result<u32, DecodeError>)
    requires
        old(r).inv(),
    ensures
        final(r).inv(),
        final(r).frame_start() == old(r).frame_start(),
        match size_of(old(r).bits(), code) {
            (Ok(n), rest) => res matches Ok(w) && w == n && 1 <= n <= 0x10000 && final(r).bits()
                == rest,
            (Err(f), rest) => res matches Err(e) && e@ == f && final(r).bits() == rest,
        },
{
    proof {
        lemma2_to64();
    }
    if code == 6 || code == 7 {
        let width: u32 = if code == 6 {
            8
        } else {
            16
        };
        return match r.read_bits(width) {
            Ok(v) => Ok(v + 1),
            Err(e) => Err(e),
        };
    }
    match code {
        1 => Ok(192),
        2 => Ok(576),
        3 => Ok(1152),
        4 => Ok(2304),
        5 => Ok(4608),
        8 => Ok(256),
        9 => Ok(512),
        10 => Ok(1024),
        11 => Ok(2048),
        12 => Ok(4096),
        13 => Ok(8192),
        14 => Ok(16384),
        15 => Ok(32768),
        _ => Err(DecodeError::decode("块尺寸编码非法")),
    }
}

fn skip_rate(r: &mut BitReader, code: u32) -> (res: Result<(), DecodeError>)
    requires
        old(r).inv(),
    ensures
        final(r).inv(),
        final(r).frame_start() == old(r).frame_start(),
        match rate_skipped(old(r).bits(), code) {
            (Ok(_), rest) => res is Ok && final(r).bits() == rest,
            (Err(f), rest) => res matches Err(e) && e@ == f && final(r).bits() == rest,
        },
{
    match code {
        12 => skip_bytes(r, 1),
        13 | 14 => match r.read_bits(16) {
            Ok(_) => Ok(()),
            Err(e) => Err(e),
        },
        15 => Err(DecodeError::decode("采样率编码非法")),
        _ => Ok(()),
    }
}

fn choose_depth(code: u32, info: &StreamInfo) -> (res: Result<u8, DecodeError>)
    ensures
        match depth_of(code, *info) {
            Ok(d) => res matches Ok(w) && w == d,
            Err(f) => res matches Err(e) && e@ == f,
        },
{
    match code {
        0 => Ok(info.bits_per_sample),
        1 => Ok(8),
        2 => Ok(12),
        4 => Ok(16),
        5 => Ok(20),
        6 => Ok(24),
        7 => Ok(32),
        _ => Err(DecodeError::decode("位深编码非法")),
    }
}

fn choose_assignment(code: u32, info: &StreamInfo) -> (res: Result<ChannelAssignment, DecodeError>)
    ensures
        match assignment_of(code, *info) {
            Ok(a) => res matches Ok(w) && w == a,
            Err(f) => res matches Err(e) && e@ == f,
        },
{
    if code <= 7 {
        if code + 1 != info.channels as u32 {
            return Err(DecodeError::decode("帧声道数与 STREAMINFO 不符"));
        }
        return Ok(ChannelAssignment::Independent(info.channels));
    }
    match code {
        8 => Ok(ChannelAssignment::LeftSide),
        9 => Ok(ChannelAssignment::RightSide),
        10 => Ok(ChannelAssignment::MidSide),
        _ => Err(DecodeError::decode("声道分配编码非法")),
    }
}

/// The error for a checksum that does not fit.
pub fn mismatch_error(opening: &str, computed: u64, stored: u64, digits: usize) -> (e: DecodeError)
    ensures
        e@ == mismatch(opening@, computed as nat, stored as nat, digits as nat),
{
    let mut text: String = opening.to_owned();
    text.append(hexadecimal_padded_text(computed, digits).as_str());
    text.append("，流记 ");
    text.append(hexadecimal_padded_text(stored, digits).as_str());
    text.append("）");
    DecodeError::Decode(text)
}

fn close_header(r: &mut BitReader) -> (res: Result<(), DecodeError>)
    requires
        old(r).inv(),
    ensures
        final(r).inv(),
        final(r).frame_start() == old(r).frame_start(),
        match header_closed(old(r).bits(), old(r).frame_start()) {
            (Ok(_), rest) => res is Ok && final(r).bits() == rest,
            (Err(f), rest) => res matches Err(e) && e@ == f && final(r).bits() == rest,
        },
{
    let computed: u8 = r.crc8();
    match r.read_bits(8) {
        Ok(stored) => if computed as u32 == stored {
            Ok(())
        } else {
            Err(mismatch_error("帧头 CRC-8 校验失败（算得 ", computed as u64, stored as u64, 2))
        },
        Err(e) => Err(e),
    }
}

/// Reads the header of a frame, whose checksum is tested.
pub fn parse_frame_header(r: &mut BitReader, info: &StreamInfo) -> (res: Result<
    FrameHeader,
    DecodeError,
>)
    requires
        old(r).inv(),
    ensures
        final(r).inv(),
        final(r).frame_start() == old(r).frame_start(),
        match header_of(old(r).bits(), old(r).frame_start(), *info) {
            (Ok(h), rest) => {
                &&& res matches Ok(w)
                &&& w == h
                &&& 1 <= h.block_size <= 0x10000
                &&& h.bits_per_sample == info.bits_per_sample || 8 <= h.bits_per_sample <= 32
                &&& h.assignment matches ChannelAssignment::Independent(n) ==> n == info.channels
                &&& final(r).bits() == rest
            },
            (Err(f), rest) => res matches Err(e) && e@ == f && final(r).bits() == rest,
        },
{
    let c: Codes = match read_codes(r) {
        Ok(c) => c,
        Err(e) => return Err(e),
    };
    match skip_number(r) {
        Ok(_) => {},
        Err(e) => return Err(e),
    }
    let block_size: u32 = match read_size(r, c.size) {
        Ok(n) => n,
        Err(e) => return Err(e),
    };
    match skip_rate(r, c.rate) {
        Ok(_) => {},
        Err(e) => return Err(e),
    }
    let bits_per_sample: u8 = match choose_depth(c.depth, info) {
        Ok(d) => d,
        Err(e) => return Err(e),
    };
    let assignment: ChannelAssignment = match choose_assignment(c.channels, info) {
        Ok(a) => a,
        Err(e) => return Err(e),
    };
    match close_header(r) {
        Ok(_) => {},
        Err(e) => return Err(e),
    }
    Ok(FrameHeader { block_size, assignment, bits_per_sample })
}

} // verus!
