//! The logarithms that kept samples and medians are stored in.

use super::decorr::{exp2s, EXP2_TABLE};
use vstd::arithmetic::power2::{
    lemma2_to64, lemma_pow2_adds, lemma_pow2_pos, lemma_pow2_strictly_increases, pow2,
};
use vstd::bits::{lemma_u32_shl_is_mul, lemma_u32_shr_is_div};
use vstd::prelude::*;

verus! {

/// What the table gives for `i` 256ths of an octave, in 256ths.
pub open spec fn step_of(i: int) -> int {
    256 + EXP2_TABLE[i]
}

/// Whether the table rises from `i` on to the next step, by no more than two.
pub open spec fn rises(i: int) -> bool {
    0 <= step_of(i + 1) - step_of(i) <= 2
}

/// Whether it does so everywhere below `n`.
pub open spec fn all_rise(n: nat) -> bool
    decreases n,
{
    n > 0 ==> rises(n - 1) && all_rise((n - 1) as nat)
}

proof fn lemma_all_rise(n: nat, i: int)
    requires
        all_rise(n),
        0 <= i < n,
    ensures
        rises(i),
    decreases n,
{
    if i < n - 1 {
        lemma_all_rise((n - 1) as nat, i);
    }
}

proof fn lemma_rises_below_32()
    ensures
        all_rise(32),
{
    reveal_with_fuel(all_rise, 33);
}

proof fn lemma_rises_below_64()
    ensures
        all_rise(64),
{
    lemma_rises_below_32();
    reveal_with_fuel(all_rise, 33);
}

proof fn lemma_rises_below_96()
    ensures
        all_rise(96),
{
    lemma_rises_below_64();
    reveal_with_fuel(all_rise, 33);
}

proof fn lemma_rises_below_128()
    ensures
        all_rise(128),
{
    lemma_rises_below_96();
    reveal_with_fuel(all_rise, 33);
}

proof fn lemma_rises_below_160()
    ensures
        all_rise(160),
{
    lemma_rises_below_128();
    reveal_with_fuel(all_rise, 33);
}

proof fn lemma_rises_below_192()
    ensures
        all_rise(192),
{
    lemma_rises_below_160();
    reveal_with_fuel(all_rise, 33);
}

proof fn lemma_rises_below_224()
    ensures
        all_rise(224),
{
    lemma_rises_below_192();
    reveal_with_fuel(all_rise, 33);
}

proof fn lemma_rises_below_255()
    ensures
        all_rise(255),
{
    lemma_rises_below_224();
    reveal_with_fuel(all_rise, 33);
}

/// The table rises over an octave, from one to almost two, by steps of no more than two
/// 256ths.
pub proof fn law_table_rises(i: int)
    requires
        0 <= i < 255,
    ensures
        rises(i),
        step_of(0) == 256,
        step_of(255) == 511,
{
    lemma_rises_below_255();
    lemma_all_rise(255, i);
}

/// What a logarithm stands for: its whole part counts octaves, and its fraction is looked
/// up; the result is rounded down. Below zero it is the opposite.
pub proof fn law_logarithm(log: i32)
    requires
        0 <= log < 0x1E00,
    ensures
        exp2s(log) == (step_of(log as int % 256) * pow2((log as int / 256) as nat)) / 512,
        log > 0 ==> exp2s((-log) as i32) == -exp2s(log),
        0 <= exp2s(log) < 0x4000_0000,
{
    let e = log as int / 256;
    let m = step_of(log as int % 256);
    let w = m as u32;
    lemma2_to64();
    if e <= 9 {
        let k = (9 - e) as u32;
        lemma_u32_shr_is_div(w, k);
        lemma_pow2_adds(e as nat, k as nat);
        let p = pow2(e as nat) as int;
        let q = pow2(k as nat) as int;
        lemma_pow2_pos(e as nat);
        lemma_pow2_pos(k as nat);
        assert(p * q == 512);
        assert((m * p) / (q * p) == m / q) by {
            assert(m * p == p * m && q * p == p * q) by (nonlinear_arith);
            vstd::arithmetic::div_mod::lemma_truncate_middle(m, q, p);
            vstd::arithmetic::div_mod::lemma_div_multiples_vanish_quotient(p, m, q);
        }
        assert(m / q <= m) by {
            vstd::arithmetic::div_mod::lemma_div_is_ordered_by_denominator(m, 1, q);
        }
    } else {
        let k = (e - 9) as u32;
        lemma_pow2_adds(9, k as nat);
        if k < 20 {
            lemma_pow2_strictly_increases(k as nat, 20);
        }
        let p = pow2(k as nat) as int;
        assert(m * p < 512 * 0x10_0000) by (nonlinear_arith)
            requires
                0 <= m < 512,
                0 <= p <= 0x10_0000,
        ;
        lemma_u32_shl_is_mul(w, k);
        assert(pow2(e as nat) == 512 * p);
        assert((m * (512 * p)) / 512 == m * p) by {
            assert(m * (512 * p) == 512 * (m * p)) by (nonlinear_arith);
        }
    }
}

} // verus!
