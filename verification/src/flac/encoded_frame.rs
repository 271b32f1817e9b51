//! Frames as an encoder writes them. What it writes is decoded to the channels that
//! went into it.

use super::bits::Bits;
use super::crc::{crc16_of, crc8_of};
use super::encoded::{law_subframe_read, subframe_row, writable, Kind};
use super::frame::{
    channel_depth, channels_from, frame, law_stereo_lossless, mixed, stored_channels, unmixed,
    Frame,
};
use super::header::{
    bytes_skipped, codes, header_of, more_bytes, number_skipped, rate_skipped, size_of,
    ChannelAssignment, Codes, FrameHeader,
};
use super::laws::lemma_shift_down;
use super::metadata::StreamInfo;
use super::subframe::subframe;
use super::written::{binary, law_number_read, lemma_parts, on, stands_at};
use crate::error::Fault;
use vstd::arithmetic::power2::{lemma2_to64, lemma2_to64_rest, pow2};
use vstd::prelude::*;

verus! {

/// Bytes as a row of digits.
pub open spec fn bytes_row(bytes: Seq<u8>) -> Seq<bool>
    decreases bytes.len(),
{
    if bytes.len() == 0 {
        Seq::empty()
    } else {
        binary(bytes[0] as nat, 8) + bytes_row(bytes.drop_first())
    }
}

/// Whether bytes are a number of a frame: the first one has as many ones in front as
/// there are bytes, or none where it is alone.
pub open spec fn is_number(bytes: Seq<u8>) -> bool {
    let n = bytes.len();
    &&& 1 <= n <= 7
    &&& if n == 1 {
        bytes[0] < 128
    } else {
        256 - pow2((8 - n) as nat) <= bytes[0] < 256 - pow2((7 - n) as nat)
    }
}

/// What the header of a frame is written with.
pub struct Heading {
    /// Blocks have different sizes.
    pub varied: bool,
    /// The code of the block size.
    pub size: nat,
    /// The code of the sample rate.
    pub rate: nat,
    /// The code of the channels.
    pub channels: nat,
    /// The code of the bits per sample.
    pub depth: nat,
    /// The number of the frame.
    pub number: Seq<u8>,
    /// One less than the block size, where its code says so.
    pub size_given: nat,
    /// The sample rate, where its code says so.
    pub rate_given: nat,
    /// The checksum.
    pub check: u8,
}

/// The digits in which the block size is given.
pub open spec fn size_digits(h: Heading) -> nat {
    if h.size == 6 {
        8
    } else if h.size == 7 {
        16
    } else {
        0
    }
}

/// The digits in which the sample rate is given.
pub open spec fn rate_digits(h: Heading) -> nat {
    if h.rate == 12 {
        8
    } else if h.rate == 13 || h.rate == 14 {
        16
    } else {
        0
    }
}

/// The block size that a heading means.
pub open spec fn meant_size(h: Heading) -> nat {
    if h.size == 1 {
        192
    } else if h.size == 2 {
        576
    } else if h.size == 3 {
        1152
    } else if h.size == 4 {
        2304
    } else if h.size == 5 {
        4608
    } else if h.size == 6 || h.size == 7 {
        h.size_given + 1
    } else if h.size == 8 {
        256
    } else if h.size == 9 {
        512
    } else if h.size == 10 {
        1024
    } else if h.size == 11 {
        2048
    } else if h.size == 12 {
        4096
    } else if h.size == 13 {
        8192
    } else if h.size == 14 {
        16384
    } else {
        32768
    }
}

/// The bits per sample that a heading means.
pub open spec fn meant_depth(h: Heading, info: StreamInfo) -> nat {
    if h.depth == 0 {
        info.bits_per_sample as nat
    } else if h.depth == 1 {
        8
    } else if h.depth == 2 {
        12
    } else if h.depth == 4 {
        16
    } else if h.depth == 5 {
        20
    } else if h.depth == 6 {
        24
    } else {
        32
    }
}

/// How the channels are stored that a heading means.
pub open spec fn meant_channels(h: Heading) -> ChannelAssignment {
    if h.channels == 8 {
        ChannelAssignment::LeftSide
    } else if h.channels == 9 {
        ChannelAssignment::RightSide
    } else if h.channels == 10 {
        ChannelAssignment::MidSide
    } else {
        ChannelAssignment::Independent((h.channels + 1) as u8)
    }
}

/// Whether a heading has a meaning in a stream.
pub open spec fn has_meaning(h: Heading, info: StreamInfo) -> bool {
    &&& 1 <= h.size <= 15
    &&& h.rate <= 14
    &&& h.channels <= 10
    &&& h.channels <= 7 ==> h.channels + 1 == info.channels
    &&& h.depth <= 7
    &&& h.depth != 3
    &&& is_number(h.number)
    &&& h.size_given < pow2(size_digits(h))
    &&& h.rate_given < pow2(rate_digits(h))
}

/// The codes of a heading as they are written.
pub open spec fn codes_row(h: Heading) -> Seq<bool> {
    binary(0x3FFE, 14) + (binary(0, 1) + (binary(
        if h.varied {
            1
        } else {
            0
        },
        1,
    ) + (binary(h.size, 4) + (binary(h.rate, 4) + (binary(h.channels, 4) + (binary(h.depth, 3)
        + binary(0, 1)))))))
}

/// A heading as it is written, without its checksum.
pub open spec fn heading_row(h: Heading) -> Seq<bool> {
    codes_row(h) + (bytes_row(h.number) + (binary(h.size_given, size_digits(h)) + binary(
        h.rate_given,
        rate_digits(h),
    )))
}

proof fn lemma_bytes(b: Bits, bytes: Seq<u8>)
    requires
        stands_at(b, bytes_row(bytes)),
    ensures
        bytes_row(bytes).len() == 8 * bytes.len(),
        bytes_skipped(b, bytes.len()) == (Ok::<(), Fault>(()), on(b, 8 * bytes.len())),
    decreases bytes.len(),
{
    if bytes.len() > 0 {
        lemma2_to64();
        let rest = bytes_row(bytes.drop_first());
        lemma_parts(b, binary(bytes[0] as nat, 8), rest);
        law_number_read(b, bytes[0] as nat, 8);
        lemma_bytes(on(b, 8), bytes.drop_first());
        assert(on(on(b, 8), 8 * bytes.drop_first().len()) == on(b, 8 * bytes.len()));
    }
}

proof fn lemma_number(b: Bits, bytes: Seq<u8>)
    requires
        is_number(bytes),
        stands_at(b, bytes_row(bytes)),
    ensures
        bytes_row(bytes).len() == 8 * bytes.len(),
        number_skipped(b) == (Ok::<(), Fault>(()), on(b, 8 * bytes.len())),
{
    lemma2_to64();
    let rest = bytes_row(bytes.drop_first());
    lemma_parts(b, binary(bytes[0] as nat, 8), rest);
    law_number_read(b, bytes[0] as nat, 8);
    lemma_bytes(on(b, 8), bytes.drop_first());
    assert(on(on(b, 8), 8 * bytes.drop_first().len()) == on(b, 8 * bytes.len()));
    let n = bytes.len();
    assert(more_bytes(bytes[0] as nat) == Some((n - 1) as nat)) by {
        assert(n == 1 || n == 2 || n == 3 || n == 4 || n == 5 || n == 6 || n == 7);
    }
}

proof fn lemma_codes(b: Bits, h: Heading, info: StreamInfo)
    requires
        has_meaning(h, info),
        stands_at(b, codes_row(h)),
    ensures
        codes_row(h).len() == 32,
        codes(b) == (
            Ok::<Codes, Fault>(
                Codes {
                    size: h.size as u32,
                    rate: h.rate as u32,
                    channels: h.channels as u32,
                    depth: h.depth as u32,
                },
            ),
            on(b, 32),
        ),
{
    lemma2_to64();
    lemma2_to64_rest();
    let v: nat = if h.varied {
        1
    } else {
        0
    };
    let r7 = binary(0, 1);
    let r6 = binary(h.depth, 3) + r7;
    let r5 = binary(h.channels, 4) + r6;
    let r4 = binary(h.rate, 4) + r5;
    let r3 = binary(h.size, 4) + r4;
    let r2 = binary(v, 1) + r3;
    let r1 = binary(0, 1) + r2;
    lemma_parts(b, binary(0x3FFE, 14), r1);
    law_number_read(b, 0x3FFE, 14);
    lemma_parts(on(b, 14), binary(0, 1), r2);
    law_number_read(on(b, 14), 0, 1);
    assert(on(on(b, 14), 1) == on(b, 15));
    lemma_parts(on(b, 15), binary(v, 1), r3);
    law_number_read(on(b, 15), v, 1);
    assert(on(on(b, 15), 1) == on(b, 16));
    lemma_parts(on(b, 16), binary(h.size, 4), r4);
    law_number_read(on(b, 16), h.size, 4);
    assert(on(on(b, 16), 4) == on(b, 20));
    lemma_parts(on(b, 20), binary(h.rate, 4), r5);
    law_number_read(on(b, 20), h.rate, 4);
    assert(on(on(b, 20), 4) == on(b, 24));
    lemma_parts(on(b, 24), binary(h.channels, 4), r6);
    law_number_read(on(b, 24), h.channels, 4);
    assert(on(on(b, 24), 4) == on(b, 28));
    lemma_parts(on(b, 28), binary(h.depth, 3), r7);
    law_number_read(on(b, 28), h.depth, 3);
    assert(on(on(b, 28), 3) == on(b, 31));
    law_number_read(on(b, 31), 0, 1);
    assert(on(on(b, 31), 1) == on(b, 32));
}

/// A heading that is written and checked is read: block size, channels and bits per
/// sample are those that its codes mean.
pub proof fn law_heading_read(b: Bits, h: Heading, info: StreamInfo)
    requires
        b.pos % 8 == 0,
        has_meaning(h, info),
        stands_at(b, heading_row(h) + binary(h.check as nat, 8)),
        h.check == crc8_of(
            b.data.subrange(
                b.pos as int / 8,
                (b.pos + heading_row(h).len()) as int / 8,
            ),
        ),
    ensures
        header_of(b, b.whole_bytes(), info) == (
            Ok::<FrameHeader, Fault>(
                FrameHeader {
                    block_size: meant_size(h) as u32,
                    assignment: meant_channels(h),
                    bits_per_sample: meant_depth(h, info) as u8,
                },
            ),
            on(b, (heading_row(h) + binary(h.check as nat, 8)).len()),
        ),
{
    lemma2_to64();
    let row = heading_row(h);
    let sizes = binary(h.size_given, size_digits(h));
    let rates = binary(h.rate_given, rate_digits(h));
    lemma_parts(b, row, binary(h.check as nat, 8));
    lemma_parts(b, codes_row(h), bytes_row(h.number) + (sizes + rates));
    lemma_codes(b, h, info);
    let b1 = on(b, 32);
    lemma_parts(b1, bytes_row(h.number), sizes + rates);
    lemma_number(b1, h.number);
    let b2 = on(b1, 8 * h.number.len());
    lemma_parts(b2, sizes, rates);
    law_number_read(b2, h.size_given, size_digits(h));
    let b3 = on(b2, size_digits(h));
    law_number_read(b3, h.rate_given, rate_digits(h));
    let b4 = on(b3, rate_digits(h));
    assert(b4 == on(b, row.len()));
    lemma_sizes(b2, h);
    assert(size_of(b2, h.size as u32) == (Ok::<nat, Fault>(meant_size(h)), b3));
    lemma_rates(b3, h);
    assert(rate_skipped(b3, h.rate as u32) == (Ok::<(), Fault>(()), b4));
    law_number_read(b4, h.check as nat, 8);
    assert(b4.whole_bytes() == (b.pos + row.len()) as int / 8);
    assert(on(b4, 8) == on(b, (row + binary(h.check as nat, 8)).len()));
}

proof fn lemma_sizes(b: Bits, h: Heading)
    requires
        1 <= h.size <= 15,
        b.read(size_digits(h)) == (Ok::<nat, Fault>(h.size_given), on(b, size_digits(h))),
    ensures
        size_of(b, h.size as u32) == (Ok::<nat, Fault>(meant_size(h)), on(b, size_digits(h))),
{
    lemma2_to64();
    assert(on(b, 0) == b);
}

proof fn lemma_rates(b: Bits, h: Heading)
    requires
        h.rate <= 14,
        b.read(rate_digits(h)) == (Ok::<nat, Fault>(h.rate_given), on(b, rate_digits(h))),
    ensures
        rate_skipped(b, h.rate as u32) == (Ok::<(), Fault>(()), on(b, rate_digits(h))),
{
    reveal_with_fuel(bytes_skipped, 2);
    assert(on(b, 0) == b);
}

/// A channel as an encoder writes it: in what way, the samples without their low
/// digits, and how many of these are left out.
pub struct Channel {
    /// In what way.
    pub kind: Kind,
    /// The samples without their low digits.
    pub stored: Seq<i64>,
    /// How many low digits are left out.
    pub wasted: nat,
}

/// Sample `i` of a channel.
pub open spec fn value(c: Channel, i: int) -> int {
    c.stored[i] * pow2(c.wasted)
}

/// The channel that holds by how much left lies above right, where there is one.
pub open spec fn side_of(a: ChannelAssignment) -> int {
    match a {
        ChannelAssignment::Independent(_) => -1,
        ChannelAssignment::LeftSide => 1,
        ChannelAssignment::RightSide => 0,
        ChannelAssignment::MidSide => 1,
    }
}

/// The bits per sample of channel `c`: a difference needs one more.
pub open spec fn depth_at(a: ChannelAssignment, bps: nat, c: int) -> nat {
    if c == side_of(a) {
        bps + 1
    } else {
        bps
    }
}

/// The channels from `c` on as they are written.
pub open spec fn channels_row(chs: Seq<Channel>, a: ChannelAssignment, bps: nat, c: int) -> Seq<bool>
    decreases chs.len() - c,
{
    if c >= chs.len() {
        Seq::empty()
    } else {
        subframe_row(chs[c].kind, chs[c].stored, depth_at(a, bps, c), chs[c].wasted)
            + channels_row(chs, a, bps, c + 1)
    }
}

/// Whether channels of `size` samples can be written so.
pub open spec fn channels_writable(
    chs: Seq<Channel>,
    a: ChannelAssignment,
    bps: nat,
    size: nat,
) -> bool {
    forall|c: int|
        #![trigger chs[c]]
        0 <= c < chs.len() ==> {
            &&& chs[c].wasted < depth_at(a, bps, c) <= 33
            &&& chs[c].stored.len() == size
            &&& writable(
                chs[c].kind,
                chs[c].stored,
                (depth_at(a, bps, c) - chs[c].wasted) as nat,
            )
        }
}

/// Whether samples are those of a channel.
pub open spec fn holds(s: Seq<i64>, c: Channel) -> bool {
    &&& s.len() == c.stored.len()
    &&& forall|i: int| 0 <= i < s.len() ==> #[trigger] s[i] == value(c, i)
}

proof fn lemma_channels(b: Bits, chs: Seq<Channel>, h: FrameHeader, acc: Seq<Seq<i64>>)
    requires
        acc.len() <= chs.len(),
        chs.len() == stored_channels(h.assignment),
        channels_writable(chs, h.assignment, h.bits_per_sample as nat, h.block_size as nat),
        stands_at(
            b,
            channels_row(chs, h.assignment, h.bits_per_sample as nat, acc.len() as int),
        ),
        forall|c: int| 0 <= c < acc.len() ==> holds(#[trigger] acc[c], chs[c]),
    ensures
        ({
            let (r, rest) = channels_from(b, h, acc);
            &&& r matches Ok(out)
            &&& out.len() == chs.len()
            &&& forall|c: int| 0 <= c < out.len() ==> holds(#[trigger] out[c], chs[c])
            &&& rest == on(
                b,
                channels_row(
                    chs,
                    h.assignment,
                    h.bits_per_sample as nat,
                    acc.len() as int,
                ).len(),
            )
        }),
    decreases chs.len() - acc.len(),
{
    let c = acc.len() as int;
    let bps = h.bits_per_sample as nat;
    if c < chs.len() {
        let ch = chs[c];
        let d = depth_at(h.assignment, bps, c);
        assert(channel_depth(h, acc.len()) == d);
        let first = subframe_row(ch.kind, ch.stored, d, ch.wasted);
        let rest = channels_row(chs, h.assignment, bps, c + 1);
        lemma_parts(b, first, rest);
        law_subframe_read(b, ch.kind, ch.stored, d, ch.wasted);
        let s = subframe(b, h.block_size as nat, d).0->Ok_0;
        assert(holds(s, ch));
        let more = acc.push(s);
        assert forall|k: int| 0 <= k < more.len() implies holds(#[trigger] more[k], chs[k]) by {
            if k < acc.len() {
                assert(more[k] == acc[k]);
            }
        }
        lemma_channels(on(b, first.len()), chs, h, more);
        assert(on(on(b, first.len()), rest.len()) == on(b, (first + rest).len()));
    }
}

/// A frame as it is written, up to the end of its last channel.
pub open spec fn frame_row(h: Heading, info: StreamInfo, chs: Seq<Channel>) -> Seq<bool> {
    (heading_row(h) + binary(h.check as nat, 8)) + channels_row(
        chs,
        meant_channels(h),
        meant_depth(h, info),
        0,
    )
}

/// The byte behind the last channel of a frame, which is filled up.
pub open spec fn frame_end(b: Bits, h: Heading, info: StreamInfo, chs: Seq<Channel>) -> int {
    (b.pos + frame_row(h, info, chs).len() + 7) as int / 8
}

/// Whether a frame stands at a place, with the checksums of its bytes.
pub open spec fn frame_stands(b: Bits, h: Heading, info: StreamInfo, chs: Seq<Channel>) -> bool {
    let start = b.pos as int / 8;
    let end = frame_end(b, h, info, chs);
    &&& b.pos % 8 == 0
    &&& has_meaning(h, info)
    &&& 1 <= info.bits_per_sample <= 32
    &&& chs.len() == (if h.channels <= 7 {
        h.channels + 1
    } else {
        2
    })
    &&& channels_writable(chs, meant_channels(h), meant_depth(h, info), meant_size(h))
    &&& stands_at(b, frame_row(h, info, chs))
    &&& h.check == crc8_of(
        b.data.subrange(start, (b.pos + heading_row(h).len()) as int / 8),
    )
    &&& stands_at(
        Bits { data: b.data, pos: (8 * end) as nat },
        binary(crc16_of(b.data.subrange(start, end)) as nat, 16),
    )
}

proof fn lemma_frame(b: Bits, h: Heading, info: StreamInfo, chs: Seq<Channel>) -> (c: Seq<
    Seq<i64>,
>)
    requires
        frame_stands(b, h, info, chs),
    ensures
        c.len() == chs.len(),
        forall|k: int| 0 <= k < c.len() ==> holds(#[trigger] c[k], chs[k]),
        frame(b, info) == (
            Ok::<Frame, Fault>(
                Frame { size: meant_size(h), channels: unmixed(meant_channels(h), c) },
            ),
            Bits { data: b.data, pos: (8 * frame_end(b, h, info, chs) + 16) as nat },
        ),
{
    reveal(frame);
    lemma2_to64();
    let bps = meant_depth(h, info);
    let a = meant_channels(h);
    let head = heading_row(h) + binary(h.check as nat, 8);
    let body = channels_row(chs, a, bps, 0);
    lemma_parts(b, head, body);
    law_heading_read(b, h, info);
    let fh = FrameHeader {
        block_size: meant_size(h) as u32,
        assignment: a,
        bits_per_sample: bps as u8,
    };
    assert(meant_size(h) <= 65536);
    let b1 = on(b, head.len());
    lemma_channels(b1, chs, fh, Seq::empty());
    let c = channels_from(b1, fh, Seq::empty()).0->Ok_0;
    let b2 = on(b1, body.len());
    assert(b2 == on(b, frame_row(h, info, chs).len()));
    let end = frame_end(b, h, info, chs);
    let b3 = b2.align();
    assert(b3 == (Bits { data: b.data, pos: (8 * end) as nat }));
    let check = crc16_of(b.data.subrange(b.pos as int / 8, end)) as nat;
    law_number_read(b3, check, 16);
    assert(b3.whole_bytes() == end);
    c
}

/// A frame whose channels are written each for itself is decoded to them.
pub proof fn law_frame_read(b: Bits, h: Heading, info: StreamInfo, chs: Seq<Channel>)
    requires
        frame_stands(b, h, info, chs),
        h.channels <= 7,
    ensures
        ({
            let (r, rest) = frame(b, info);
            &&& r matches Ok(f)
            &&& f.size == meant_size(h)
            &&& f.channels.len() == info.channels
            &&& forall|c: int| 0 <= c < f.channels.len() ==> holds(#[trigger] f.channels[c], chs[c])
            &&& rest == (Bits {
                data: b.data,
                pos: (8 * frame_end(b, h, info, chs) + 16) as nat,
            })
        }),
{
    lemma_frame(b, h, info, chs);
}

/// What an encoder writes for a left and a right sample: one of them, or their mean,
/// rounded down, and by how much left lies above right.
pub open spec fn stereo_written(
    a: ChannelAssignment,
    chs: Seq<Channel>,
    i: int,
    left: int,
    right: int,
) -> bool {
    match a {
        ChannelAssignment::LeftSide => value(chs[0], i) == left && value(chs[1], i) == left
            - right,
        ChannelAssignment::RightSide => value(chs[0], i) == left - right && value(chs[1], i)
            == right,
        ChannelAssignment::MidSide => value(chs[0], i) == (left + right) / 2 && value(chs[1], i)
            == left - right,
        ChannelAssignment::Independent(_) => value(chs[0], i) == left && value(chs[1], i)
            == right,
    }
}

/// A frame of two channels is decoded to left and right, in whichever of the ways that
/// there are an encoder writes them.
pub proof fn law_stereo_frame_read(
    b: Bits,
    h: Heading,
    info: StreamInfo,
    chs: Seq<Channel>,
    left: Seq<i64>,
    right: Seq<i64>,
)
    requires
        frame_stands(b, h, info, chs),
        chs.len() == 2,
        left.len() == meant_size(h),
        right.len() == meant_size(h),
        forall|i: int|
            #![trigger left[i]]
            #![trigger right[i]]
            0 <= i < left.len() ==> {
                &&& -0x1_0000_0000 <= left[i] <= 0x1_0000_0000
                &&& -0x1_0000_0000 <= right[i] <= 0x1_0000_0000
                &&& stereo_written(meant_channels(h), chs, i, left[i] as int, right[i] as int)
            },
    ensures
        frame(b, info) == (
            Ok::<Frame, Fault>(Frame { size: meant_size(h), channels: seq![left, right] }),
            Bits { data: b.data, pos: (8 * frame_end(b, h, info, chs) + 16) as nat },
        ),
{
    let a = meant_channels(h);
    let c = lemma_frame(b, h, info, chs);
    lemma2_to64();
    law_stereo_lossless(a, left, right);
    let m0 = Seq::new(left.len(), |i: int| mixed(a, left[i], right[i]).0);
    let m1 = Seq::new(left.len(), |i: int| mixed(a, left[i], right[i]).1);
    assert(holds(c[0], chs[0]) && holds(c[1], chs[1]));
    assert(chs[0].stored.len() == meant_size(h) && chs[1].stored.len() == meant_size(h));
    assert forall|i: int| 0 <= i < left.len() implies #[trigger] c[0][i] == m0[i] && c[1][i]
        == m1[i] by {
        let l = left[i];
        let r = right[i];
        assert(stereo_written(a, chs, i, l as int, r as int));
        assert(c[0][i] == value(chs[0], i));
        assert(c[1][i] == value(chs[1], i));
        assert(l.wrapping_sub(r) == l - r);
        assert(l.wrapping_add(r) == l + r);
        lemma_shift_down(l.wrapping_add(r), 1);
    }
    assert(c[0] =~= m0);
    assert forall|i: int| 0 <= i < left.len() implies #[trigger] c[1][i] == m1[i] by {
        assert(c[0][i] == m0[i] && c[1][i] == m1[i]);
    }
    assert(c[1] =~= m1);
    assert(c =~= seq![m0, m1]);
}

} // verus!
