//! Samples cut into blocks of one size, however they come.

use vstd::arithmetic::div_mod::{
    lemma_fundamental_div_mod, lemma_fundamental_div_mod_converse, lemma_mod_bound,
};
use vstd::prelude::*;

verus! {

/// Block `i` of a sequence.
pub open spec fn block_at(s: Seq<u32>, size: int, i: int) -> Seq<u32> {
    s.subrange(i * size, i * size + size)
}

/// The whole blocks of a sequence.
pub open spec fn whole_blocks(s: Seq<u32>, size: int) -> Seq<Seq<u32>> {
    Seq::new((s.len() as int / size) as nat, |i: int| block_at(s, size, i))
}

/// What is left behind the whole blocks.
pub open spec fn left_over(s: Seq<u32>, size: int) -> Seq<u32> {
    s.skip(s.len() as int / size * size)
}

/// What is left is less than a block.
pub proof fn lemma_left_over(s: Seq<u32>, size: int)
    requires
        size >= 1,
    ensures
        0 <= s.len() as int / size * size <= s.len(),
        left_over(s, size).len() < size,
        left_over(s, size).len() == s.len() - s.len() as int / size * size,
{
    let q = s.len() as int / size;
    lemma_fundamental_div_mod(s.len() as int, size);
    lemma_mod_bound(s.len() as int, size);
    assert(q * size == size * q) by (nonlinear_arith);
    assert(q * size >= 0) by (nonlinear_arith)
        requires
            q >= 0,
            size >= 1,
    ;
}

/// How samples come does not matter: two parts one after the other give the blocks
/// that both together give, and leave the same.
pub proof fn law_parts_join(a: Seq<u32>, b: Seq<u32>, size: int)
    requires
        size >= 1,
    ensures
        whole_blocks(a, size) + whole_blocks(left_over(a, size) + b, size) == whole_blocks(
            a + b,
            size,
        ),
        left_over(left_over(a, size) + b, size) == left_over(a + b, size),
{
    let rest = left_over(a, size);
    let second = rest + b;
    let all = a + b;
    let p = a.len() as int / size;
    let q = second.len() as int / size;
    lemma_left_over(a, size);
    lemma_left_over(second, size);
    let r = second.len() - q * size;
    assert(all.len() == (p + q) * size + r) by (nonlinear_arith)
        requires
            all.len() == p * size + second.len(),
            r == second.len() - q * size,
    ;
    lemma_fundamental_div_mod_converse(all.len() as int, size, p + q, r);
    let x = whole_blocks(a, size);
    let y = whole_blocks(second, size);
    let z = whole_blocks(all, size);
    assert((p + q) * size == p * size + q * size) by (nonlinear_arith);
    assert forall|i: int| 0 <= i < z.len() implies #[trigger] (x + y)[i] == z[i] by {
        if i < p {
            assert(0 <= i * size && i * size + size <= p * size) by (nonlinear_arith)
                requires
                    0 <= i < p,
                    size >= 1,
            ;
            assert(block_at(a, size, i) =~= block_at(all, size, i));
        } else {
            let j = i - p;
            assert(i * size == p * size + j * size) by (nonlinear_arith)
                requires
                    i == p + j,
            ;
            assert(0 <= j * size && j * size + size <= q * size) by (nonlinear_arith)
                requires
                    0 <= j < q,
                    size >= 1,
            ;
            assert(block_at(second, size, j) =~= block_at(all, size, i));
        }
    }
    assert(x + y =~= z);
    assert(left_over(second, size) =~= left_over(all, size));
}

/// The contents of vectors.
pub open spec fn contents(v: Seq<Vec<u32>>) -> Seq<Seq<u32>> {
    v.map_values(|b: Vec<u32>| b@)
}

/// Cuts samples into blocks.
pub struct Blocks {
    size: usize,
    buf: Vec<u32>,
}

impl Blocks {
    /// The size of a block.
    pub closed spec fn block_size(&self) -> int {
        self.size as int
    }

    /// The samples that do not make a block yet.
    pub closed spec fn waiting(&self) -> Seq<u32> {
        self.buf@
    }

    /// Less than a block is waiting.
    pub closed spec fn inv(&self) -> bool {
        &&& self.size >= 1
        &&& self.buf@.len() < self.size
    }

    /// What holds of all.
    pub proof fn lemma_inv(&self)
        requires
            self.inv(),
        ensures
            self.block_size() >= 1,
            self.block_size() <= usize::MAX,
            self.waiting().len() < self.block_size(),
    {
    }

    /// Nothing is waiting.
    pub fn new(size: usize) -> (b: Blocks)
        requires
            size >= 1,
        ensures
            b.inv(),
            b.block_size() == size,
            b.waiting() == Seq::<u32>::empty(),
    {
        Blocks { size, buf: Vec::new() }
    }

    /// Takes samples in and gives out the blocks that are full.
    pub fn feed(&mut self, samples: &[u32]) -> (out: Vec<Vec<u32>>)
        requires
            old(self).inv(),
        ensures
            final(self).inv(),
            final(self).block_size() == old(self).block_size(),
            contents(out@) == whole_blocks(
                old(self).waiting() + samples@,
                old(self).block_size(),
            ),
            final(self).waiting() == left_over(
                old(self).waiting() + samples@,
                old(self).block_size(),
            ),
    {
        let ghost all = self.buf@ + samples@;
        let ghost size = self.size as int;
        let mut out: Vec<Vec<u32>> = Vec::new();
        let mut i: usize = 0;
        proof {
            assert(0 * size == 0);
            assert(all.subrange(0, self.buf@.len() as int) =~= self.buf@);
            assert(contents(out@) =~= Seq::empty());
        }
        while i < samples.len()
            invariant
                self.size == old(self).size,
                size == self.size,
                self.size >= 1,
                self.buf@.len() < self.size,
                i <= samples.len(),
                all == old(self).buf@ + samples@,
                out@.len() * size + self.buf@.len() == old(self).buf@.len() + i,
                0 <= out@.len() * size,
                self.buf@ == all.subrange(
                    out@.len() * size,
                    old(self).buf@.len() + i,
                ),
                contents(out@) == Seq::new(out@.len(), |k: int| block_at(all, size, k)),
            decreases samples.len() - i,
        {
            self.buf.push(samples[i]);
            i = i + 1;
            assert(self.buf@ =~= all.subrange(out@.len() * size, old(self).buf@.len() + i));
            if self.buf.len() == self.size {
                let mut block: Vec<u32> = Vec::new();
                std::mem::swap(&mut block, &mut self.buf);
                let ghost before = out@;
                proof {
                    assert(block@ =~= block_at(all, size, before.len() as int));
                    assert((before.len() + 1) * size == before.len() * size + size)
                        by (nonlinear_arith);
                }
                let ghost full = block@;
                out.push(block);
                assert(contents(out@) =~= contents(before).push(full));
                assert(contents(out@) =~= Seq::new(out@.len(), |k: int| block_at(all, size, k)));
                assert(self.buf@ =~= all.subrange(
                    out@.len() * size,
                    old(self).buf@.len() + i,
                ));
            }
        }
        proof {
            let n = out@.len() as int;
            lemma_fundamental_div_mod_converse(all.len() as int, size, n, self.buf@.len() as int);
            assert(contents(out@) =~= whole_blocks(all, size));
            assert(self.buf@ =~= left_over(all, size));
        }
        out
    }

    /// Takes out what is waiting.
    pub fn take_rest(&mut self) -> (rest: Vec<u32>)
        requires
            old(self).inv(),
        ensures
            final(self).inv(),
            final(self).block_size() == old(self).block_size(),
            rest@ == old(self).waiting(),
            final(self).waiting() == Seq::<u32>::empty(),
    {
        let mut rest: Vec<u32> = Vec::new();
        std::mem::swap(&mut rest, &mut self.buf);
        rest
    }
}

/// The frames in four tenths of a second, at least one: the block over which
/// loudness is measured.
pub fn loudness_block(sample_rate: u32) -> (n: usize)
    ensures
        n == if sample_rate >= 3 {
            sample_rate * 2 / 5
        } else {
            1
        },
        n >= 1,
{
    let n: u64 = sample_rate as u64 * 2 / 5;
    if n < 1 {
        1
    } else {
        n as usize
    }
}

} // verus!
