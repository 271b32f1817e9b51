//! Samples on their way through a resampler, which takes chunks of one size and
//! each channel for itself.

use crate::blocks::{contents, left_over, whole_blocks, Blocks};
use vstd::arithmetic::div_mod::{
    lemma_fundamental_div_mod, lemma_fundamental_div_mod_converse, lemma_mod_bound,
};
use vstd::prelude::*;

verus! {

/// Channel `c` of interleaved samples.
pub open spec fn channel(s: Seq<u32>, channels: int, frames: int, c: int) -> Seq<u32> {
    Seq::new(frames as nat, |f: int| s[f * channels + c])
}

/// Interleaved samples, each channel for itself.
pub open spec fn split(s: Seq<u32>, channels: int, frames: int) -> Seq<Seq<u32>> {
    Seq::new(channels as nat, |c: int| channel(s, channels, frames, c))
}

/// Channels in turn.
pub open spec fn interleaved(columns: Seq<Seq<u32>>, channels: int, frames: int) -> Seq<u32> {
    Seq::new((frames * channels) as nat, |k: int| columns[k % channels][k / channels])
}

/// Splitting interleaved samples into channels and interleaving those again
/// changes nothing.
pub proof fn law_split_interleaves(s: Seq<u32>, channels: int, frames: int)
    requires
        channels >= 1,
        frames >= 0,
        s.len() == frames * channels,
    ensures
        interleaved(split(s, channels, frames), channels, frames) == s,
{
    let t = interleaved(split(s, channels, frames), channels, frames);
    assert forall|k: int| 0 <= k < s.len() implies #[trigger] t[k] == s[k] by {
        let f = k / channels;
        let c = k % channels;
        lemma_fundamental_div_mod(k, channels);
        lemma_mod_bound(k, channels);
        assert(f * channels == channels * f) by (nonlinear_arith);
        assert(0 <= f < frames) by (nonlinear_arith)
            requires
                k == channels * f + c,
                0 <= c < channels,
                0 <= k < frames * channels,
                channels >= 1,
        ;
    }
    assert(t =~= s);
}

fn split_channels(s: &Vec<u32>, channels: usize, frames: usize) -> (out: Vec<Vec<u32>>)
    requires
        channels >= 1,
        s.len() == frames * channels,
    ensures
        contents(out@) == split(s@, channels as int, frames as int),
{
    let mut out: Vec<Vec<u32>> = Vec::new();
    let mut c: usize = 0;
    assert(contents(out@) =~= split(s@, channels as int, frames as int).take(0));
    while c < channels
        invariant
            channels >= 1,
            s.len() == frames * channels,
            c <= channels,
            contents(out@) == split(s@, channels as int, frames as int).take(c as int),
        decreases channels - c,
    {
        let mut column: Vec<u32> = Vec::new();
        let mut f: usize = 0;
        let ghost whole = channel(s@, channels as int, frames as int, c as int);
        while f < frames
            invariant
                channels >= 1,
                s.len() == frames * channels,
                c < channels,
                f <= frames,
                whole == channel(s@, channels as int, frames as int, c as int),
                column@ == whole.take(f as int),
            decreases frames - f,
        {
            assert(f * channels + channels <= frames * channels) by (nonlinear_arith)
                requires
                    f < frames,
            ;
            assert(0 <= f * channels) by (nonlinear_arith);
            column.push(s[f * channels + c]);
            assert(column@ =~= whole.take(f + 1));
            f = f + 1;
        }
        assert(column@ =~= whole);
        let ghost before = out@;
        out.push(column);
        assert(contents(out@) =~= contents(before).push(whole));
        assert(contents(out@) =~= split(s@, channels as int, frames as int).take(c + 1));
        c = c + 1;
    }
    assert(contents(out@) =~= split(s@, channels as int, frames as int));
    out
}

/// Appends channels in turn. The first one says how many frames there are.
pub fn interleave_channels(outputs: &Vec<Vec<u32>>, channels: usize, output: &mut Vec<u32>)
    requires
        outputs.len() == channels,
        channels >= 1,
        outputs@[0].len() * channels <= usize::MAX,
        forall|i: int| 0 <= i < channels ==> (#[trigger] outputs@[i])@.len() == outputs@[0]@.len(),
    ensures
        final(output)@ == old(output)@ + interleaved(
            contents(outputs@),
            channels as int,
            outputs@[0]@.len() as int,
        ),
{
    let frames: usize = outputs[0].len();
    let ghost all = interleaved(contents(outputs@), channels as int, frames as int);
    let mut f: usize = 0;
    assert(0 * channels == 0);
    assert(output@ =~= old(output)@ + all.take(0));
    while f < frames
        invariant
            outputs.len() == channels,
            channels >= 1,
            forall|i: int| 0 <= i < channels ==> (#[trigger] outputs@[i])@.len() == frames,
            f <= frames,
            all == interleaved(contents(outputs@), channels as int, frames as int),
            output@ == old(output)@ + all.take(f * channels),
        decreases frames - f,
    {
        proof {
            assert(f * channels + channels == (f + 1) * channels) by (nonlinear_arith);
            assert((f + 1) * channels <= frames * channels) by (nonlinear_arith)
                requires
                    f < frames,
            ;
            assert(0 <= f * channels) by (nonlinear_arith);
        }
        let mut c: usize = 0;
        while c < channels
            invariant
                outputs.len() == channels,
                channels >= 1,
                forall|i: int| 0 <= i < channels ==> (#[trigger] outputs@[i])@.len() == frames,
                f < frames,
                c <= channels,
                0 <= f * channels,
                f * channels + channels <= all.len(),
                all == interleaved(contents(outputs@), channels as int, frames as int),
                output@ == old(output)@ + all.take(f * channels + c),
            decreases channels - c,
        {
            let ghost k = f * channels + c;
            assert(outputs@[c as int]@.len() == frames);
            let v: u32 = outputs[c][f];
            proof {
                lemma_fundamental_div_mod_converse(k, channels as int, f as int, c as int);
                assert(contents(outputs@)[c as int] == outputs@[c as int]@);
                assert(all[k] == v);
            }
            output.push(v);
            assert(output@ =~= old(output)@ + all.take(k + 1));
            c = c + 1;
        }
        f = f + 1;
    }
    assert(all.take(frames * channels) =~= all);
}

/// The contents of vectors of vectors.
pub open spec fn deep_contents(v: Seq<Vec<Vec<u32>>>) -> Seq<Seq<Seq<u32>>> {
    v.map_values(|b: Vec<Vec<u32>>| contents(b@))
}

/// Cuts samples into chunks for a resampler.
pub struct Chunker {
    blocks: Blocks,
    channels: usize,
    chunk_frames: usize,
}

impl Chunker {
    /// The number of channels.
    pub closed spec fn width(&self) -> int {
        self.channels as int
    }

    /// The frames in a chunk.
    pub closed spec fn frames(&self) -> int {
        self.chunk_frames as int
    }

    /// The samples that do not make a chunk yet.
    pub closed spec fn waiting(&self) -> Seq<u32> {
        self.blocks.waiting()
    }

    /// A chunk is a block of its frames.
    pub closed spec fn inv(&self) -> bool {
        &&& self.blocks.inv()
        &&& self.channels >= 1
        &&& self.chunk_frames >= 1
        &&& self.blocks.block_size() == self.chunk_frames * self.channels
    }

    /// Nothing is waiting.
    pub fn new(channels: usize, chunk_frames: usize) -> (c: Chunker)
        requires
            channels >= 1,
            chunk_frames >= 1,
            chunk_frames * channels <= usize::MAX,
        ensures
            c.inv(),
            c.width() == channels,
            c.frames() == chunk_frames,
            c.waiting() == Seq::<u32>::empty(),
    {
        assert(chunk_frames * channels >= 1) by (nonlinear_arith)
            requires
                chunk_frames >= 1,
                channels >= 1,
        ;
        Chunker { blocks: Blocks::new(chunk_frames * channels), channels, chunk_frames }
    }

    /// Takes interleaved samples in, however many, and gives out the chunks that are
    /// full, each channel for itself. The rest waits.
    pub fn process(&mut self, samples: &[u32]) -> (out: Vec<Vec<Vec<u32>>>)
        requires
            old(self).inv(),
        ensures
            final(self).inv(),
            final(self).width() == old(self).width(),
            final(self).frames() == old(self).frames(),
            ({
                let ch = old(self).width();
                let n = old(self).frames();
                let all = old(self).waiting() + samples@;
                &&& deep_contents(out@) == whole_blocks(all, n * ch).map_values(
                    |b: Seq<u32>| split(b, ch, n),
                )
                &&& final(self).waiting() == left_over(all, n * ch)
            }),
    {
        let mut out: Vec<Vec<Vec<u32>>> = Vec::new();
        let ghost all = self.waiting() + samples@;
        let ghost size = self.chunk_frames * self.channels;
        let blocks: Vec<Vec<u32>> = self.blocks.feed(samples);
        let ghost want = whole_blocks(all, size).map_values(
            |b: Seq<u32>| split(b, self.channels as int, self.chunk_frames as int),
        );
        let mut i: usize = 0;
        proof {
            assert(deep_contents(out@) =~= want.take(0));
            self.blocks.lemma_inv();
            crate::blocks::lemma_left_over(all, size);
        }
        while i < blocks.len()
            invariant
                self.channels >= 1,
                self.chunk_frames >= 1,
                size == self.chunk_frames * self.channels,
                size <= usize::MAX,
                size >= 1,
                0 <= all.len() as int / size * size <= all.len(),
                i <= blocks.len(),
                contents(blocks@) == whole_blocks(all, size),
                want == whole_blocks(all, size).map_values(
                    |b: Seq<u32>| split(b, self.channels as int, self.chunk_frames as int),
                ),
                deep_contents(out@) == want.take(i as int),
            decreases blocks.len() - i,
        {
            proof {
                assert(contents(blocks@).len() == blocks@.len());
                assert(contents(blocks@)[i as int] == blocks@[i as int]@);
                assert(0 <= i * size && i * size + size <= all.len() as int / size * size)
                    by (nonlinear_arith)
                    requires
                        0 <= i < all.len() as int / size,
                        size >= 1,
                ;
                assert(blocks@[i as int]@.len() == size);
            }
            let columns: Vec<Vec<u32>> = split_channels(
                &blocks[i],
                self.channels,
                self.chunk_frames,
            );
            let ghost before = out@;
            let ghost full = contents(columns@);
            out.push(columns);
            assert(deep_contents(out@) =~= deep_contents(before).push(full));
            assert(deep_contents(out@) =~= want.take(i + 1));
            i = i + 1;
        }
        assert(contents(blocks@).len() == blocks@.len());
        assert(deep_contents(out@) =~= want);
        out
    }

    /// Takes out what is waiting, filled up with silence to a chunk. There is
    /// none where nothing is waiting.
    pub fn flush(&mut self) -> (chunk: Option<Vec<Vec<u32>>>)
        requires
            old(self).inv(),
        ensures
            final(self).inv(),
            final(self).width() == old(self).width(),
            final(self).frames() == old(self).frames(),
            final(self).waiting() == Seq::<u32>::empty(),
            ({
                let ch = old(self).width();
                let n = old(self).frames();
                let rest = old(self).waiting();
                if rest.len() == 0 {
                    chunk is None
                } else {
                    &&& chunk matches Some(w)
                    &&& contents(w@) == split(
                        rest + Seq::new((n * ch - rest.len()) as nat, |i: int| 0u32),
                        ch,
                        n,
                    )
                }
            }),
    {
        proof {
            self.blocks.lemma_inv();
        }
        let mut rest: Vec<u32> = self.blocks.take_rest();
        if rest.len() == 0 {
            return None;
        }
        let size: usize = self.chunk_frames * self.channels;
        let ghost before = rest@;
        rest.resize(size, 0u32);
        assert(rest@ =~= before + Seq::new((size - before.len()) as nat, |i: int| 0u32));
        Some(split_channels(&rest, self.channels, self.chunk_frames))
    }
}

} // verus!
