//! A FLAC frame: a header, the channels, a checksum.

use super::bits::{BitReader, Bits};
use super::crc::crc16_of;
use super::header::{
    header_of, mismatch, mismatch_error, parse_frame_header, ChannelAssignment, FrameHeader,
};
use super::metadata::StreamInfo;
use super::subframe::{decode_subframe, subframe};
use crate::error::{DecodeError, Fault};
use vstd::prelude::*;

verus! {

/// The samples of a frame: one sequence per stored channel.
pub struct Frame {
    /// Samples per channel.
    pub size: nat,
    /// The channels.
    pub channels: Seq<Seq<i64>>,
}

/// The number of channels that a frame stores.
pub open spec fn stored_channels(a: ChannelAssignment) -> nat {
    match a {
        ChannelAssignment::Independent(n) => n as nat,
        _ => 2,
    }
}

/// The bits per sample of a channel: one more where it holds a difference.
pub open spec fn channel_depth(h: FrameHeader, ch: nat) -> nat {
    if h.assignment == ChannelAssignment::LeftSide && ch == 1 || h.assignment
        == ChannelAssignment::RightSide && ch == 0 || h.assignment == ChannelAssignment::MidSide
        && ch == 1 {
        (h.bits_per_sample + 1) as nat
    } else {
        h.bits_per_sample as nat
    }
}

/// The channels behind those already read.
pub open spec fn channels_from(b: Bits, h: FrameHeader, acc: Seq<Seq<i64>>) -> (
    Result<Seq<Seq<i64>>, Fault>,
    Bits,
)
    decreases stored_channels(h.assignment) - acc.len(),
{
    if acc.len() >= stored_channels(h.assignment) {
        (Ok(acc), b)
    } else {
        match subframe(b, h.block_size as nat, channel_depth(h, acc.len())) {
            (Err(f), b) => (Err(f), b),
            (Ok(s), b) => channels_from(b, h, acc.push(s)),
        }
    }
}

/// The checksum at the end of a frame that started at byte `start`.
pub open spec fn frame_closed(b: Bits, start: int) -> (Result<(), Fault>, Bits) {
    let b = b.align();
    let computed = crc16_of(b.data.subrange(start, b.whole_bytes())) as nat;
    match b.read(16) {
        (Err(f), b) => (Err(f), b),
        (Ok(stored), b) => if computed == stored {
            (Ok(()), b)
        } else {
            (Err(mismatch("帧 CRC-16 校验失败（算得 "@, computed, stored, 4)), b)
        },
    }
}

/// Left and right from the mean and the difference.
pub open spec fn from_mid(mid: i64, side: i64) -> (i64, i64) {
    let m = (mid << 1) | (side & 1);
    (m.wrapping_add(side) >> 1, m.wrapping_sub(side) >> 1)
}

/// The channels as they were before the encoder mixed them.
pub open spec fn unmixed(a: ChannelAssignment, c: Seq<Seq<i64>>) -> Seq<Seq<i64>> {
    let n = c[0].len();
    match a {
        ChannelAssignment::Independent(_) => c,
        ChannelAssignment::LeftSide => seq![
            c[0],
            Seq::new(n, |i: int| c[0][i].wrapping_sub(c[1][i])),
        ],
        ChannelAssignment::RightSide => seq![
            Seq::new(n, |i: int| c[1][i].wrapping_add(c[0][i])),
            c[1],
        ],
        ChannelAssignment::MidSide => seq![
            Seq::new(n, |i: int| from_mid(c[0][i], c[1][i]).0),
            Seq::new(n, |i: int| from_mid(c[0][i], c[1][i]).1),
        ],
    }
}

/// The frame that starts here.
#[verifier::opaque]
pub open spec fn frame(b: Bits, info: StreamInfo) -> (Result<Frame, Fault>, Bits) {
    let start = b.whole_bytes();
    match header_of(b, start, info) {
        (Err(f), b) => (Err(f), b),
        (Ok(h), b) => match channels_from(b, h, Seq::empty()) {
            (Err(f), b) => (Err(f), b),
            (Ok(c), b) => match frame_closed(b, start) {
                (Err(f), b) => (Err(f), b),
                (Ok(_), b) => (
                    Ok(
                        Frame {
                            size: h.block_size as nat,
                            channels: unmixed(h.assignment, c),
                        },
                    ),
                    b,
                ),
            },
        },
    }
}

/// How an encoder mixes a left and a right sample.
pub open spec fn mixed(a: ChannelAssignment, left: i64, right: i64) -> (i64, i64) {
    match a {
        ChannelAssignment::Independent(_) => (left, right),
        ChannelAssignment::LeftSide => (left, left.wrapping_sub(right)),
        ChannelAssignment::RightSide => (left.wrapping_sub(right), right),
        ChannelAssignment::MidSide => (
            left.wrapping_add(right) >> 1,
            left.wrapping_sub(right),
        ),
    }
}

/// The mean and the difference lose nothing, although the mean is rounded: the
/// bit that the rounding drops is also the lowest bit of the difference.
pub proof fn law_mid_side_lossless(left: i64, right: i64)
    requires
        -0x4000_0000_0000_0000 <= left < 0x4000_0000_0000_0000,
        -0x4000_0000_0000_0000 <= right < 0x4000_0000_0000_0000,
    ensures
        from_mid(
            mixed(ChannelAssignment::MidSide, left, right).0,
            mixed(ChannelAssignment::MidSide, left, right).1,
        ) == (left, right),
{
    let sum = (left + right) as i64;
    let side = (left - right) as i64;
    assert(left.wrapping_add(right) == sum);
    assert(left.wrapping_sub(right) == side);
    let m = ((sum >> 1) << 1) | (side & 1);
    assert(m == sum) by (bit_vector)
        requires
            m == ((sum >> 1) << 1) | (side & 1),
            -0x4000_0000_0000_0000 <= left,
            left < 0x4000_0000_0000_0000,
            -0x4000_0000_0000_0000 <= right,
            right < 0x4000_0000_0000_0000,
            sum == left + right,
            side == left - right,
    ;
    let l2 = m.wrapping_add(side);
    let r2 = m.wrapping_sub(side);
    assert(l2 >> 1 == left && r2 >> 1 == right) by (bit_vector)
        requires
            l2 == left + left,
            r2 == right + right,
            -0x4000_0000_0000_0000 <= left,
            left < 0x4000_0000_0000_0000,
            -0x4000_0000_0000_0000 <= right,
            right < 0x4000_0000_0000_0000,
    ;
}

/// Whatever way an encoder mixes two channels, decoding them gives both back.
pub proof fn law_stereo_lossless(a: ChannelAssignment, left: Seq<i64>, right: Seq<i64>)
    requires
        left.len() == right.len(),
        forall|i: int|
            0 <= i < left.len() ==> -0x4000_0000_0000_0000 <= #[trigger] left[i]
                < 0x4000_0000_0000_0000,
        forall|i: int|
            0 <= i < right.len() ==> -0x4000_0000_0000_0000 <= #[trigger] right[i]
                < 0x4000_0000_0000_0000,
    ensures
        unmixed(
            a,
            seq![
                Seq::new(left.len(), |i: int| mixed(a, left[i], right[i]).0),
                Seq::new(left.len(), |i: int| mixed(a, left[i], right[i]).1),
            ],
        ) == seq![left, right],
{
    let c = seq![
        Seq::new(left.len(), |i: int| mixed(a, left[i], right[i]).0),
        Seq::new(left.len(), |i: int| mixed(a, left[i], right[i]).1),
    ];
    let u = unmixed(a, c);
    assert forall|i: int| 0 <= i < left.len() implies #[trigger] u[0][i] == left[i] && u[1][i]
        == right[i] by {
        if a == ChannelAssignment::MidSide {
            law_mid_side_lossless(left[i], right[i]);
        }
    }
    assert(u[0] =~= left);
    assert(u[1] =~= right);
    assert(u =~= seq![left, right]);
}

/// The contents of vectors.
pub open spec fn contents(v: Seq<Vec<i64>>) -> Seq<Seq<i64>> {
    v.map_values(|c: Vec<i64>| c@)
}

fn depth_of_channel(h: &FrameHeader, ch: usize) -> (d: u8)
    requires
        h.bits_per_sample < 255,
    ensures
        d == channel_depth(*h, ch as nat),
{
    let side: bool = match h.assignment {
        ChannelAssignment::LeftSide => ch == 1,
        ChannelAssignment::RightSide => ch == 0,
        ChannelAssignment::MidSide => ch == 1,
        ChannelAssignment::Independent(_) => false,
    };
    if side {
        h.bits_per_sample + 1
    } else {
        h.bits_per_sample
    }
}

fn read_channels(r: &mut BitReader, h: &FrameHeader) -> (res: Result<Vec<Vec<i64>>, DecodeError>)
    requires
        old(r).inv(),
        h.bits_per_sample <= 62,
    ensures
        final(r).inv(),
        final(r).frame_start() == old(r).frame_start(),
        match channels_from(old(r).bits(), *h, Seq::empty()) {
            (Ok(c), rest) => {
                &&& res matches Ok(w)
                &&& contents(w@) == c
                &&& c.len() == stored_channels(h.assignment)
                &&& forall|k: int| 0 <= k < c.len() ==> (#[trigger] c[k]).len() == h.block_size
                &&& final(r).bits() == rest
            },
            (Err(f), rest) => res matches Err(e) && e@ == f && final(r).bits() == rest,
        },
{
    let count: usize = match h.assignment {
        ChannelAssignment::Independent(n) => n as usize,
        _ => 2,
    };
    let mut out: Vec<Vec<i64>> = Vec::new();
    assert(contents(out@) =~= Seq::empty());
    while out.len() < count
        invariant
            r.inv(),
            h.bits_per_sample <= 62,
            r.frame_start() == old(r).frame_start(),
            count == stored_channels(h.assignment),
            out.len() <= count,
            forall|k: int| 0 <= k < out@.len() ==> (#[trigger] out@[k])@.len() == h.block_size,
            channels_from(old(r).bits(), *h, Seq::empty()) == channels_from(
                r.bits(),
                *h,
                contents(out@),
            ),
        decreases count - out.len(),
    {
        let mut sub: Vec<i64> = Vec::new();
        let depth: u8 = depth_of_channel(h, out.len());
        match decode_subframe(r, h.block_size, depth, &mut sub) {
            Ok(_) => {},
            Err(e) => return Err(e),
        }
        let ghost before = out@;
        out.push(sub);
        assert(contents(out@) =~= contents(before).push(sub@));
    }
    Ok(out)
}

fn close_frame(r: &mut BitReader) -> (res: Result<(), DecodeError>)
    requires
        old(r).inv(),
    ensures
        final(r).inv(),
        final(r).frame_start() == old(r).frame_start(),
        match frame_closed(old(r).bits(), old(r).frame_start()) {
            (Ok(_), rest) => res is Ok && final(r).bits() == rest,
            (Err(f), rest) => res matches Err(e) && e@ == f && final(r).bits() == rest,
        },
{
    r.align_byte();
    let computed: u16 = r.crc16();
    match r.read_bits(16) {
        Ok(stored) => if computed as u32 == stored {
            Ok(())
        } else {
            Err(mismatch_error("帧 CRC-16 校验失败（算得 ", computed as u64, stored as u64, 4))
        },
        Err(e) => Err(e),
    }
}

fn unmix(a: ChannelAssignment, channels: Vec<Vec<i64>>) -> (out: Vec<Vec<i64>>)
    requires
        channels@.len() == stored_channels(a),
        forall|k: int|
            0 <= k < channels@.len() ==> (#[trigger] channels@[k])@.len()
                == channels@[0]@.len(),
    ensures
        contents(out@) == unmixed(a, contents(channels@)),
{
    let ghost c = contents(channels@);
    match a {
        ChannelAssignment::Independent(_) => channels,
        _ => {
            let n: usize = channels[0].len();
            let mut first: Vec<i64> = Vec::new();
            let mut second: Vec<i64> = Vec::new();
            let mut i: usize = 0;
            assert(channels@[1]@.len() == n);
            while i < n
                invariant
                    a !is Independent,
                    channels@.len() == 2,
                    c == contents(channels@),
                    n == channels@[0]@.len(),
                    n == channels@[1]@.len(),
                    i <= n,
                    first@ == unmixed(a, c)[0].take(i as int),
                    second@ == unmixed(a, c)[1].take(i as int),
                decreases n - i,
            {
                let x: i64 = channels[0][i];
                let y: i64 = channels[1][i];
                let (l, r): (i64, i64) = match a {
                    ChannelAssignment::LeftSide => (x, x.wrapping_sub(y)),
                    ChannelAssignment::RightSide => (y.wrapping_add(x), y),
                    _ => {
                        let m: i64 = (x << 1) | (y & 1);
                        (m.wrapping_add(y) >> 1, m.wrapping_sub(y) >> 1)
                    },
                };
                let ghost u = unmixed(a, c);
                assert(c[0] == channels@[0]@ && c[1] == channels@[1]@);
                assert(u[0][i as int] == l && u[1][i as int] == r);
                first.push(l);
                second.push(r);
                assert(first@ =~= u[0].take(i + 1));
                assert(second@ =~= u[1].take(i + 1));
                i = i + 1;
            }
            let ghost u = unmixed(a, c);
            assert(u[0].take(n as int) =~= u[0]);
            assert(u[1].take(n as int) =~= u[1]);
            let mut out: Vec<Vec<i64>> = Vec::new();
            out.push(first);
            out.push(second);
            assert(contents(out@) =~= u);
            out
        },
    }
}

/// The samples of a frame: one vector per stored channel.
pub struct FrameSamples {
    /// Samples per channel.
    pub size: u32,
    /// The channels.
    pub channels: Vec<Vec<i64>>,
}

impl View for FrameSamples {
    type V = Frame;

    open spec fn view(&self) -> Frame {
        Frame { size: self.size as nat, channels: contents(self.channels@) }
    }
}

/// Decodes the frame that starts here. Both of its checksums are tested.
pub fn decode_frame(r: &mut BitReader, info: &StreamInfo) -> (res: Result<
    FrameSamples,
    DecodeError,
>)
    requires
        old(r).inv(),
        info.bits_per_sample <= 32,
    ensures
        final(r).inv(),
        match frame(old(r).bits(), *info) {
            (Ok(f), rest) => {
                &&& res matches Ok(w)
                &&& w@ == f
                &&& 1 <= f.size <= 0x10000
                &&& f.channels.len() == info.channels || f.channels.len() == 2
                &&& forall|k: int|
                    0 <= k < f.channels.len() ==> (#[trigger] f.channels[k]).len() == f.size
                &&& final(r).bits() == rest
            },
            (Err(f), rest) => res matches Err(e) && e@ == f && final(r).bits() == rest,
        },
{
    proof {
        reveal(frame);
        r.lemma_inv_place();
    }
    r.start_frame();
    let header: FrameHeader = match parse_frame_header(r, info) {
        Ok(h) => h,
        Err(e) => return Err(e),
    };
    let stored: Vec<Vec<i64>> = match read_channels(r, &header) {
        Ok(c) => c,
        Err(e) => return Err(e),
    };
    match close_frame(r) {
        Ok(_) => {},
        Err(e) => return Err(e),
    }
    proof {
        let c = contents(stored@);
        assert forall|k: int| 0 <= k < stored@.len() implies (#[trigger] stored@[k])@.len()
            == header.block_size by {
            assert(c[k] == stored@[k]@);
        }
    }
    Ok(FrameSamples { size: header.block_size, channels: unmix(header.assignment, stored) })
}

} // verus!
