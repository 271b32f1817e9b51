//! Samples in blocks, in channels and out of a pipe: where each of them comes to stand.

use crate::blocks::{left_over, lemma_left_over, whole_blocks};
use crate::bytes::{law_low_first_read, lemma_stands_parts, stands};
use crate::ffmpeg::samples_in;
use crate::probe::{chosen, first_visual, Tag, Tags, Usage, Visual};
use crate::resample::{interleaved, split};
use crate::wav_written::signed_row;
use vstd::arithmetic::div_mod::lemma_fundamental_div_mod_converse;
use vstd::prelude::*;

verus! {

/// Blocks, one after the other.
pub open spec fn flat(blocks: Seq<Seq<u32>>) -> Seq<u32>
    decreases blocks.len(),
{
    if blocks.len() == 0 {
        Seq::empty()
    } else {
        flat(blocks.drop_last()) + blocks.last()
    }
}

/// Nothing is lost between blocks: they all have the size, and with what is left, which is
/// less than a block, they are the samples again.
pub proof fn law_blocks_hold_all(s: Seq<u32>, size: int)
    requires
        size >= 1,
    ensures
        flat(whole_blocks(s, size)) + left_over(s, size) == s,
        left_over(s, size).len() < size,
        forall|i: int|
            0 <= i < whole_blocks(s, size).len() ==> (#[trigger] whole_blocks(s, size)[i]).len()
                == size,
{
    let blocks = whole_blocks(s, size);
    let n = blocks.len();
    lemma_left_over(s, size);
    lemma_flat(s, size, n);
    assert(blocks.take(n as int) =~= blocks);
    assert(s.take(n * size) + s.skip(n * size) =~= s);
    assert forall|i: int| 0 <= i < n implies (#[trigger] blocks[i]).len() == size by {
        assert(0 <= i * size && i * size + size <= n * size) by (nonlinear_arith)
            requires
                0 <= i < n,
                size >= 1,
        ;
    }
}

proof fn lemma_flat(s: Seq<u32>, size: int, n: nat)
    requires
        size >= 1,
        n <= whole_blocks(s, size).len(),
    ensures
        flat(whole_blocks(s, size).take(n as int)) == s.take(n * size),
        0 <= n * size <= s.len(),
    decreases n,
{
    let blocks = whole_blocks(s, size);
    let all = blocks.len();
    lemma_left_over(s, size);
    assert(0 <= n * size <= all * size) by (nonlinear_arith)
        requires
            0 <= n <= all,
            size >= 1,
    ;
    if n == 0 {
        assert(blocks.take(0) =~= Seq::empty());
        assert(0 * size == 0);
        assert(s.take(0) =~= Seq::empty());
    } else {
        let m = n - 1;
        lemma_flat(s, size, m as nat);
        assert(n * size == m * size + size) by (nonlinear_arith)
            requires
                n == m + 1,
        ;
        assert(blocks.take(n as int).drop_last() =~= blocks.take(m));
        assert(s.take(m * size) + s.subrange(m * size, m * size + size) =~= s.take(n * size));
    }
}

/// Each channel holds its samples in order, and channels in turn make frames.
pub proof fn law_channels_apart(s: Seq<u32>, channels: int, frames: int, f: int, c: int)
    requires
        0 <= f < frames,
        0 <= c < channels,
        s.len() == frames * channels,
    ensures
        split(s, channels, frames).len() == channels,
        split(s, channels, frames)[c].len() == frames,
        split(s, channels, frames)[c][f] == s[f * channels + c],
{
}

/// Channels in turn make frames.
pub proof fn law_channels_joined(
    columns: Seq<Seq<u32>>,
    channels: int,
    frames: int,
    f: int,
    c: int,
)
    requires
        0 <= f < frames,
        0 <= c < channels,
    ensures
        interleaved(columns, channels, frames).len() == frames * channels,
        interleaved(columns, channels, frames)[f * channels + c] == columns[c][f],
{
    assert(0 <= f * channels + c < frames * channels) by (nonlinear_arith)
        requires
            0 <= f < frames,
            0 <= c < channels,
    ;
    lemma_fundamental_div_mod_converse(f * channels + c, channels, f, c);
}

/// Samples as they come out of a pipe: in two bytes each, the low one first.
pub open spec fn pipe_row(vs: Seq<i16>) -> Seq<u8>
    decreases vs.len(),
{
    if vs.len() == 0 {
        Seq::empty()
    } else {
        pipe_row(vs.drop_last()) + signed_row(vs.last() as int, 2, 0x1_0000)
    }
}

/// Samples out of a pipe are read; a single byte behind the last is dropped.
pub proof fn law_pipe_read(vs: Seq<i16>, tail: Seq<u8>)
    requires
        tail.len() < 2,
    ensures
        samples_in(pipe_row(vs) + tail) == vs,
{
    let b = pipe_row(vs) + tail;
    assert(stands(b, 0, pipe_row(vs)));
    lemma_pipe_len(vs);
    assert forall|i: int| 0 <= i < vs.len() implies #[trigger] samples_in(b)[i] == vs[i] by {
        lemma_pipe(b, vs, i);
    }
    assert(samples_in(b) =~= vs);
}

proof fn lemma_pipe_len(vs: Seq<i16>)
    ensures
        pipe_row(vs).len() == 2 * vs.len(),
    decreases vs.len(),
{
    if vs.len() > 0 {
        lemma_pipe_len(vs.drop_last());
        let v = vs.last() as int;
        law_low_first_read(
            Seq::empty(),
            0,
            (if v < 0 {
                v + 0x1_0000
            } else {
                v
            }) as nat,
        );
    }
}

proof fn lemma_pipe(b: Seq<u8>, vs: Seq<i16>, i: int)
    requires
        stands(b, 0, pipe_row(vs)),
        0 <= i < vs.len(),
        b.len() >= 2 * vs.len(),
    ensures
        samples_in(b)[i] == vs[i],
    decreases vs.len(),
{
    let before = vs.drop_last();
    lemma_pipe_len(before);
    lemma_stands_parts(b, 0, pipe_row(before), signed_row(vs.last() as int, 2, 0x1_0000));
    if i < before.len() {
        lemma_pipe(b, before, i);
    } else {
        let v = vs.last() as int;
        law_low_first_read(
            b,
            2 * i,
            (if v < 0 {
                v + 0x1_0000
            } else {
                v
            }) as nat,
        );
    }
}

/// Whether a picture can be shown for a use.
pub open spec fn usable(v: Visual, usage: Option<Usage>) -> bool {
    v.data@.len() > 0 && (usage is None || usage == Some(v.usage))
}

proof fn lemma_first(list: Seq<Visual>, usage: Option<Usage>, i: int)
    requires
        0 <= i <= list.len(),
    ensures
        match first_visual(list, usage, i) {
            Some(k) => {
                &&& i <= k < list.len()
                &&& usable(list[k], usage)
                &&& forall|j: int| i <= j < k ==> !usable(#[trigger] list[j], usage)
            },
            None => forall|j: int| i <= j < list.len() ==> !usable(#[trigger] list[j], usage),
        },
    decreases list.len() - i,
{
    if i < list.len() && !usable(list[i], usage) {
        lemma_first(list, usage, i + 1);
    }
}

/// The picture that is shown: the first front cover, where there is one; else the first
/// back cover; else the first picture at all. Empty pictures do not count.
pub proof fn law_cover_chosen(list: Seq<Visual>)
    ensures
        match chosen(list) {
            Some(k) => {
                &&& 0 <= k < list.len()
                &&& list[k].data@.len() > 0
                &&& forall|j: int|
                    #![trigger list[j]]
                    0 <= j < list.len() && list[j].data@.len() > 0 ==> {
                        &&& list[j].usage == Usage::FrontCover ==> list[k].usage
                            == Usage::FrontCover && k <= j
                        &&& list[j].usage == Usage::BackCover ==> list[k].usage
                            == Usage::FrontCover || list[k].usage == Usage::BackCover && k <= j
                        &&& list[k].usage == Usage::Other ==> k <= j
                    }
            },
            None => forall|j: int| 0 <= j < list.len() ==> (#[trigger] list[j]).data@.len() == 0,
        },
{
    lemma_first(list, Some(Usage::FrontCover), 0);
    lemma_first(list, Some(Usage::BackCover), 0);
    lemma_first(list, None, 0);
}

/// What the last title, the last album and the first lyrics say stays, however many tags
/// there are.
pub proof fn law_tags_kept(t: Tags, list: Seq<Tag>, n: nat, k: int)
    requires
        0 <= k < n <= list.len(),
    ensures
        (list[k] matches Tag::TrackTitle(s) && forall|j: int|
            k < j < n ==> !(#[trigger] list[j] is TrackTitle)) ==> t.with_all(list, n).title
            == Some(list[k]->TrackTitle_0@),
        (list[k] matches Tag::Album(s) && forall|j: int|
            k < j < n ==> !(#[trigger] list[j] is Album)) ==> t.with_all(list, n).album == Some(
            list[k]->Album_0@,
        ),
        (list[k] matches Tag::Artist(s) && forall|j: int|
            k < j < n ==> !(#[trigger] list[j] is Artist)) ==> t.with_all(list, n).artist == Some(
            list[k]->Artist_0@,
        ),
        t.with_all(list, k as nat).lyrics is Some ==> t.with_all(list, n).lyrics == t.with_all(
            list,
            k as nat,
        ).lyrics,
        (list[k] matches Tag::Lyrics(s) && s@.len() > 0 && t.with_all(list, k as nat).lyrics is None)
            ==> t.with_all(list, n).lyrics == Some(list[k]->Lyrics_0@),
        (list[k] matches Tag::TrackNumber(m) && forall|j: int|
            k < j < n ==> !(#[trigger] list[j] is TrackNumber) && !(list[j] is CdTrackIndex))
            ==> t.with_all(list, n).track_number == Some(list[k]->TrackNumber_0 as u32),
    decreases n,
{
    let m = (n - 1) as nat;
    if k < m {
        law_tags_kept(t, list, m, k);
    }
}

} // verus!
