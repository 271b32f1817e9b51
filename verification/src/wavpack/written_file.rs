//! Whole WavPack files as they are written.

use super::backend::{
    block_at, block_rate, only_blocks, stream_from, stream_of, with_block, Decoded, Format,
    ScanState,
};
use super::header::{block_magic, first_rate, last_rate, BlockHeader, Sub};
use super::stream::block_of;
use super::written_block::{header_row, law_header_read, lossless};
use crate::bytes::{has_at, law_low_first_read, low_first, stands};
use crate::error::Fault;
use vstd::prelude::*;

verus! {

/// The sample rates that a header names.
pub open spec fn named_rate(i: int) -> u32 {
    if i == 0 {
        6000
    } else if i == 1 {
        8000
    } else if i == 2 {
        9600
    } else if i == 3 {
        11025
    } else if i == 4 {
        12000
    } else if i == 5 {
        16000
    } else if i == 6 {
        22050
    } else if i == 7 {
        24000
    } else if i == 8 {
        32000
    } else if i == 9 {
        44100
    } else if i == 10 {
        48000
    } else if i == 11 {
        64000
    } else if i == 12 {
        88200
    } else if i == 13 {
        96000
    } else {
        192000
    }
}

/// A sample rate with a number is the one of that number.
pub proof fn law_named_rate(h: BlockHeader, meta: Seq<u8>)
    requires
        (h.flags / 0x80_0000) % 16 < 15,
    ensures
        block_rate(h, meta) == Some(named_rate(((h.flags / 0x80_0000) % 16) as int)),
{
}

/// A sample rate without a number as it is written, in a sub-block of its own.
pub open spec fn rate_sub(rate: u32) -> Sub {
    Sub { id: 0x27, data: low_first(rate as nat, 3) }
}

proof fn lemma_rate_sub(rate: u32)
    requires
        rate < 0x100_0000,
    ensures
        super::header::rate_in(rate_sub(rate)) == Some(rate),
{
    let data = low_first(rate as nat, 3);
    assert(stands(data, 0, data));
    law_low_first_read(data, 0, rate as nat);
}

/// Of several sample rates the last counts for playing.
pub proof fn law_last_rate(subs: Seq<Sub>, rate: u32)
    requires
        rate < 0x100_0000,
    ensures
        last_rate(subs.push(rate_sub(rate))) == Some(rate),
    decreases subs.len(),
{
    let all = subs.push(rate_sub(rate));
    lemma_rate_sub(rate);
    if subs.len() == 0 {
        assert(all.drop_first() =~= Seq::empty());
        assert(last_rate(all.drop_first()) is None);
    } else {
        assert(all.drop_first() =~= subs.drop_first().push(rate_sub(rate)));
        law_last_rate(subs.drop_first(), rate);
    }
}

/// Of several sample rates the first counts for a probe.
pub proof fn law_first_rate(subs: Seq<Sub>, rate: u32)
    requires
        rate < 0x100_0000,
    ensures
        first_rate(seq![rate_sub(rate)] + subs) == Some(rate),
{
    lemma_rate_sub(rate);
    assert((seq![rate_sub(rate)] + subs)[0] == rate_sub(rate));
}

/// A file of one block that is written is read: what the block decodes to, with the
/// channels, the sample rate and the sample width that its flags say.
pub proof fn law_file_read(h: BlockHeader, version: nat, index: Seq<u8>, meta: Seq<u8>)
    requires
        index.len() == 10,
        h.block_len == 32 + meta.len(),
        h.block_len <= 0x10_0000,
        0x402 <= version <= 0x410,
        0 < h.block_samples <= 131072,
        lossless(h.flags),
        (h.flags / 0x80_0000) % 16 < 15,
        h.flags % 4 > 0,
        block_of(h, meta) is Ok,
    ensures
        stream_of(header_row(h, version, index) + meta) == Ok::<Decoded, Fault>(
            Decoded {
                samples: block_of(h, meta)->Ok_0,
                format: Format {
                    channels: if (h.flags / 4) % 2 == 1 && (h.flags / 0x4000_0000) % 2 == 0 {
                        1
                    } else {
                        2
                    },
                    rate: named_rate(((h.flags / 0x80_0000) % 16) as int),
                    bits: (8 * (h.flags % 4) + 8) as u32,
                    is_float: (h.flags / 0x80) % 2 == 1,
                },
            },
        ),
        only_blocks(header_row(h, version, index) + meta, 0),
{
    let row = header_row(h, version, index);
    let bytes = row + meta;
    assert(stands(row, 0, row));
    lemma_row_len(h, version, index);
    let head = bytes.subrange(0, 32);
    assert(head =~= row);
    law_header_read(head, h, version, index);
    super::written_block::law_flags(h);
    law_named_rate(h, meta);
    assert(bytes.subrange(32, 32int + meta.len()) =~= meta);
    let magic = seq![0x77u8, 0x76u8, 0x70u8, 0x6Bu8];
    assert(bytes.subrange(0, 4) =~= block_magic());
    assert(has_at(bytes, 0, block_magic()));
    reveal(block_at);
    reveal(with_block);
    let xs = block_of(h, meta)->Ok_0;
    assert(Seq::<i32>::empty() + xs =~= xs);
    reveal_with_fuel(stream_from, 2);
    reveal_with_fuel(only_blocks, 2);
}

proof fn lemma_row_len(h: BlockHeader, version: nat, index: Seq<u8>)
    requires
        index.len() == 10,
    ensures
        header_row(h, version, index).len() == 32,
        header_row(h, version, index).take(4) == seq![0x77u8, 0x76u8, 0x70u8, 0x6Bu8],
{
    let none = Seq::<u8>::empty();
    law_low_first_read(none, 0, (h.block_len - 8) as nat);
    law_low_first_read(none, 0, version);
    law_low_first_read(none, 0, h.block_samples as nat);
    law_low_first_read(none, 0, h.flags as nat);
    law_low_first_read(none, 0, h.crc as nat);
    assert(header_row(h, version, index).take(4) =~= seq![0x77u8, 0x76u8, 0x70u8, 0x6Bu8]);
}

/// The frames of the blocks from `pos` on.
pub open spec fn frames_from(bytes: Seq<u8>, pos: int) -> nat
    decreases bytes.len() - pos,
{
    if pos >= bytes.len() {
        0
    } else {
        match block_at(bytes, pos) {
            Ok((h, _)) => {
                proof {
                    super::backend::lemma_block_size(bytes, pos);
                }
                h.block_samples as nat + frames_from(bytes, pos + h.block_len)
            },
            Err(_) => 0,
        }
    }
}

/// How many blocks stand from `pos` on.
pub open spec fn blocks_from(bytes: Seq<u8>, pos: int) -> nat
    decreases bytes.len() - pos,
{
    if pos >= bytes.len() {
        0
    } else {
        match block_at(bytes, pos) {
            Ok((h, _)) => {
                proof {
                    super::backend::lemma_block_size(bytes, pos);
                }
                1 + blocks_from(bytes, pos + h.block_len)
            },
            Err(_) => 0,
        }
    }
}

/// A count of frames that is told every header that it asks for, `left` times.
pub open spec fn counted(bytes: Seq<u8>, s: ScanState, left: nat) -> ScanState
    decreases left,
{
    match s.asked() {
        (t, Some(p)) => if left == 0 {
            t
        } else {
            counted(
                bytes,
                t.told(Some(bytes.subrange(p as int, p as int + 32))),
                (left - 1) as nat,
            )
        },
        (t, None) => t,
    }
}

/// A count of frames over a file of whole blocks comes to all of them, if these are no
/// more than are looked at.
pub proof fn law_frames_counted(bytes: Seq<u8>, s: ScanState, left: nat)
    requires
        only_blocks(bytes, s.pos as int),
        s.file_len == bytes.len(),
        !s.done,
        blocks_from(bytes, s.pos as int) == left,
        s.scanned + left <= 65536,
        !s.truncated,
    ensures
        ({
            let end = counted(bytes, s, left);
            &&& end.done
            &&& !end.truncated
            &&& end.frames == s.frames + frames_from(bytes, s.pos as int)
        }),
    decreases left,
{
    if s.pos < bytes.len() {
        let (h, meta) = block_at(bytes, s.pos as int)->Ok_0;
        super::backend::lemma_block_size(bytes, s.pos as int);
        reveal(block_at);
        let p = s.pos as int;
        let t = s.asked().0;
        let u = t.told(Some(bytes.subrange(p, p + 32)));
        assert(u.pos == s.pos + h.block_len);
        law_frames_counted(bytes, u, (left - 1) as nat);
    }
}

} // verus!
