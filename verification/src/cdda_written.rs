//! Images of audio CDs as they are written.

use crate::bytes::{law_low_first_read, lemma_stands_parts, stands};
use crate::cdda::{cd_sync, frame_offset, frames_between, frames_there, sector_size};
use crate::wav_written::signed_row;
use vstd::prelude::*;

verus! {

/// A frame as it is written: left and right, in two bytes each.
pub open spec fn frame_row(left: int, right: int) -> Seq<u8> {
    signed_row(left, 2, 0x1_0000) + signed_row(right, 2, 0x1_0000)
}

/// Whether the sound of an image stands in it: 588 frames of four bytes at the start of
/// each sector, whatever stands behind them.
pub open spec fn sound_stands(b: Seq<u8>, step: int, frames: Seq<(int, int)>) -> bool {
    forall|s: int, j: int|
        #![trigger frames[588 * s + j]]
        0 <= s && 0 <= j < 588 && 588 * s + j < frames.len() ==> {
            let (left, right) = frames[588 * s + j];
            &&& -0x8000 <= left < 0x8000
            &&& -0x8000 <= right < 0x8000
            &&& stands(b, s * step + 4 * j, frame_row(left, right))
        }
}

/// Frames that are written are read, left and right in turn, in both kinds of images.
pub proof fn law_frames_read(
    b: Seq<u8>,
    step: int,
    frames: Seq<(int, int)>,
    from: int,
    to: int,
    i: int,
)
    requires
        sound_stands(b, step, frames),
        0 <= from <= i < to <= frames.len(),
    ensures
        frames_between(b, step, from, to).len() == 2 * (to - from),
        frames_between(b, step, from, to)[2 * (i - from)] == frames[i].0,
        frames_between(b, step, from, to)[2 * (i - from) + 1] == frames[i].1,
{
    let s = i / 588;
    let j = i % 588;
    assert(588 * s + j == i);
    let (left, right) = frames[588 * s + j];
    let at = s * step + 4 * j;
    let a = signed_row(left, 2, 0x1_0000);
    let c = signed_row(right, 2, 0x1_0000);
    let l = (if left < 0 {
        left + 0x1_0000
    } else {
        left
    }) as nat;
    let r = (if right < 0 {
        right + 0x1_0000
    } else {
        right
    }) as nat;
    law_low_first_read(b, at, l);
    law_low_first_read(b, at + 2, r);
    lemma_stands_parts(b, at, a, c);
    let k = 2 * (i - from);
    assert(k / 2 == i - from && k % 2 == 0 && (k + 1) / 2 == i - from && (k + 1) % 2 == 1);
    assert(frame_offset(step, i) == at);
}

/// The size of the sectors of an image is told by its length: 2352 bytes, or 2448 with a
/// subchannel. A length that is a multiple of both is told by the sync pattern behind the
/// first 2352 bytes.
pub proof fn law_sector_told(b: Seq<u8>, n: nat)
    requires
        n > 0,
    ensures
        b.len() == 2352 * n && n % 51 != 0 ==> sector_size(b) == Some(2352usize),
        b.len() == 2448 * n && n % 49 != 0 ==> sector_size(b) == Some(2448usize),
        b.len() == 119_952 * n ==> sector_size(b) == Some(
            if b.subrange(2352, 2364) == cd_sync() {
                2352usize
            } else {
                2448usize
            },
        ),
        b.len() % 48 != 0 ==> sector_size(b) is None,
{
    assert(cd_sync().len() == 12);
    if b.len() == 119_952 * n {
        assert(b.len() == 2352 * (51 * n) && b.len() == 2448 * (49 * n));
        assert(b.len() % 2352 == 0 && b.len() % 2448 == 0);
        assert(b.len() >= 119952);
        assert(crate::bytes::has_at(b, 2352, cd_sync()) <==> b.subrange(2352, 2364) == cd_sync());
    }
}

/// How much of an image is there: without a subchannel every whole frame, with one the
/// frames of every sector whose sound is there.
pub proof fn law_frames_there(b: Seq<u8>, sectors: int, n: int)
    requires
        sectors >= 0,
        n == frames_there(b, 2352, sectors) || n == frames_there(b, 2448, sectors),
    ensures
        0 <= n <= 588 * sectors,
        n == frames_there(b, 2352, sectors) ==> 4 * n <= b.len() && (n == 588 * sectors || b.len()
            < 4 * n + 4),
        n == frames_there(b, 2448, sectors) ==> n % 588 == 0 && (n > 0 ==> 2448 * (n / 588) - 96
            <= b.len()) && (n == 588 * sectors || b.len() < 2448 * (n / 588) + 2352),
{
}

} // verus!
