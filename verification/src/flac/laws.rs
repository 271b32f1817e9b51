//! What FLAC decoding is for: prediction in terms of integers, and an encoder whose
//! bits are decoded to the samples that went into them.

use super::subframe::{weighted, Predictor};
use vstd::arithmetic::div_mod::{lemma_fundamental_div_mod, lemma_fundamental_div_mod_converse};
use vstd::arithmetic::power2::{lemma2_to64, lemma_pow2_pos, lemma_pow2_unfold, pow2};
use vstd::prelude::*;

verus! {

/// The sum of the last samples, the newest first, each times its weight.
pub open spec fn dot(weights: Seq<i64>, samples: Seq<i64>, n: nat) -> int
    decreases n,
{
    if n == 0 {
        0
    } else {
        dot(weights, samples, (n - 1) as nat) + weights[n - 1] * samples[samples.len() - n]
    }
}

/// Whether a number fits in 64 bits.
pub open spec fn fits(v: int) -> bool {
    i64::MIN <= v <= i64::MAX
}

proof fn lemma_half(v: int, p: int)
    requires
        p > 0,
    ensures
        v / (2 * p) == (v / p) / 2,
{
    let q = v / p;
    let r = v % p;
    lemma_fundamental_div_mod(v, p);
    let a = q / 2;
    let b = q % 2;
    assert(v == a * (2 * p) + (p * b + r) && 0 <= p * b + r < 2 * p) by (nonlinear_arith)
        requires
            v == p * q + r,
            q == 2 * a + b,
            0 <= b <= 1,
            0 <= r < p,
    ;
    lemma_fundamental_div_mod_converse(v, 2 * p, a, p * b + r);
}

/// A shift down is a division by a power of two, rounded down.
pub proof fn lemma_shift_down(v: i64, s: u32)
    requires
        s < 64,
    ensures
        v >> s == v as int / pow2(s as nat) as int,
    decreases s,
{
    lemma2_to64();
    if s == 0 {
        assert(v >> 0 == v) by (bit_vector);
    } else {
        let t = (s - 1) as u32;
        lemma_shift_down(v, t);
        assert(v >> s == (v >> t) >> 1) by (bit_vector)
            requires
                0 < s < 64,
                s == t + 1,
        ;
        let w = v >> t;
        assert(w >> 1 == w / 2) by (bit_vector);
        lemma_pow2_unfold(s as nat);
        lemma_pow2_pos(t as nat);
        lemma_half(v as int, pow2(t as nat) as int);
    }
}

/// A shift up is a multiplication by a power of two.
pub proof fn lemma_shift_up(v: i64, s: u32)
    requires
        s < 64,
        fits(v * pow2(s as nat)),
    ensures
        v << s == v * pow2(s as nat),
    decreases s,
{
    lemma2_to64();
    if s == 0 {
        assert(v << 0 == v) by (bit_vector);
        assert(v * 1 == v);
    } else {
        let t = (s - 1) as u32;
        lemma_pow2_unfold(s as nat);
        lemma_pow2_pos(t as nat);
        let p = pow2(t as nat) as int;
        assert(v * (2 * p) == 2 * (v * p)) by (nonlinear_arith);
        assert(v * pow2(s as nat) == 2 * (v * p));
        lemma_shift_up(v, t);
        let w = v << t;
        assert(v << s == w << 1) by (bit_vector)
            requires
                0 < s < 64,
                s == t + 1,
                w == v << t,
        ;
        assert(w << 1 == 2 * w) by (bit_vector)
            requires
                -0x4000_0000_0000_0000 <= w < 0x4000_0000_0000_0000,
        ;
    }
}

proof fn lemma_dot(weights: Seq<i64>, samples: Seq<i64>, n: nat)
    requires
        n <= weights.len(),
        n <= samples.len(),
        forall|k: nat| k <= n ==> fits(#[trigger] dot(weights, samples, k)),
        forall|j: int| 0 <= j < n ==> fits(#[trigger] weights[j] * samples[samples.len() - 1 - j]),
    ensures
        weighted(weights, samples, n) == dot(weights, samples, n),
    decreases n,
{
    if n > 0 {
        let j = n - 1;
        lemma_dot(weights, samples, j as nat);
        assert(fits(dot(weights, samples, n)));
        assert(fits(weights[j] * samples[samples.len() - 1 - j]));
        assert(weights[j].wrapping_mul(samples[samples.len() - 1 - j]) == weights[j]
            * samples[samples.len() - 1 - j]);
    }
}

/// What a weighted sum predicts, in terms of integers: the sum of the samples before,
/// the newest first, each times its weight, over a power of two and rounded down; for
/// a negative shift, times that power.
pub proof fn law_linear_prediction(weights: Seq<i64>, shift: int, samples: Seq<i64>)
    requires
        weights.len() <= samples.len(),
        -64 < shift < 64,
        forall|k: nat| k <= weights.len() ==> fits(#[trigger] dot(weights, samples, k)),
        forall|j: int|
            0 <= j < weights.len() ==> fits(
                #[trigger] weights[j] * samples[samples.len() - 1 - j],
            ),
        shift < 0 ==> fits(dot(weights, samples, weights.len()) * pow2((-shift) as nat)),
    ensures
        Predictor::Linear(weights, shift).order() == weights.len(),
        shift >= 0 ==> Predictor::Linear(weights, shift).predict(samples) == dot(
            weights,
            samples,
            weights.len(),
        ) / (pow2(shift as nat) as int),
        shift < 0 ==> Predictor::Linear(weights, shift).predict(samples) == dot(
            weights,
            samples,
            weights.len(),
        ) * pow2((-shift) as nat),
{
    lemma_dot(weights, samples, weights.len());
    let sum = weighted(weights, samples, weights.len());
    assert(fits(dot(weights, samples, weights.len())));
    if shift >= 0 {
        lemma_shift_down(sum, shift as u32);
    } else {
        lemma_shift_up(sum, (-shift) as u32);
    }
}

/// How much a row of samples changes at sample `i`, taken `order` times: the sample
/// itself; by how much it differs from the one before; by how much this differs from
/// the difference before; and so on.
pub open spec fn difference(samples: Seq<i64>, order: nat, i: int) -> int
    decreases order,
{
    if order == 0 {
        samples[i] as int
    } else {
        difference(samples, (order - 1) as nat, i) - difference(
            samples,
            (order - 1) as nat,
            i - 1,
        )
    }
}

/// What a polynomial predicts: the sample at which the difference of its order
/// vanishes. So a sample lies above what was predicted by that difference.
pub proof fn law_fixed_prediction(order: nat, samples: Seq<i64>, next: i64)
    requires
        order <= 4,
        order <= samples.len(),
        forall|i: int| 0 <= i < samples.len() ==> modest(#[trigger] samples[i]),
    ensures
        Predictor::Fixed(order).order() == order,
        next - Predictor::Fixed(order).predict(samples) == difference(
            samples.push(next),
            order,
            samples.len() as int,
        ),
{
    let n = samples.len() as int;
    let all = samples.push(next);
    assert(all[n] == next);
    if order == 1 {
        assert(all[n - 1] == samples[n - 1]);
        lemma_first_difference(all, n);
    } else if order == 2 {
        assert(all[n - 1] == samples[n - 1] && all[n - 2] == samples[n - 2]);
        lemma_line(samples[n - 1], samples[n - 2]);
        lemma_second_difference(all, n);
    } else if order == 3 {
        assert(all[n - 1] == samples[n - 1] && all[n - 2] == samples[n - 2] && all[n - 3]
            == samples[n - 3]);
        lemma_parabola(samples[n - 1], samples[n - 2], samples[n - 3]);
        lemma_third_difference(all, n);
    } else if order == 4 {
        assert(all[n - 1] == samples[n - 1] && all[n - 2] == samples[n - 2] && all[n - 3]
            == samples[n - 3] && all[n - 4] == samples[n - 4]);
        lemma_cubic(samples[n - 1], samples[n - 2], samples[n - 3], samples[n - 4]);
        lemma_third_difference(all, n);
        lemma_third_difference(all, n - 1);
        assert(difference(all, 4, n) == difference(all, 3, n) - difference(all, 3, n - 1));
    }
}

/// Whether a sample is so small that a few of them can be added up.
pub open spec fn modest(v: i64) -> bool {
    -0x0400_0000_0000_0000 <= v <= 0x0400_0000_0000_0000
}

proof fn lemma_times(k: i64, v: i64)
    requires
        1 <= k <= 6,
        modest(v),
    ensures
        k.wrapping_mul(v) == k * v,
        -6 * 0x0400_0000_0000_0000 <= k * v <= 6 * 0x0400_0000_0000_0000,
{
    assert(-6 * 0x0400_0000_0000_0000 <= k * v <= 6 * 0x0400_0000_0000_0000)
        by (nonlinear_arith)
        requires
            1 <= k <= 6,
            -0x0400_0000_0000_0000 <= v <= 0x0400_0000_0000_0000,
    ;
}

proof fn lemma_line(a: i64, b: i64)
    requires
        modest(a),
        modest(b),
    ensures
        2i64.wrapping_mul(a).wrapping_sub(b) == 2 * a - b,
{
    lemma_times(2, a);
}

proof fn lemma_parabola(a: i64, b: i64, c: i64)
    requires
        modest(a),
        modest(b),
        modest(c),
    ensures
        3i64.wrapping_mul(a).wrapping_sub(3i64.wrapping_mul(b)).wrapping_add(c) == 3 * a - 3 * b
            + c,
{
    lemma_times(3, a);
    lemma_times(3, b);
}

proof fn lemma_cubic(a: i64, b: i64, c: i64, d: i64)
    requires
        modest(a),
        modest(b),
        modest(c),
        modest(d),
    ensures
        4i64.wrapping_mul(a).wrapping_sub(6i64.wrapping_mul(b)).wrapping_add(
            4i64.wrapping_mul(c),
        ).wrapping_sub(d) == 4 * a - 6 * b + 4 * c - d,
{
    lemma_times(4, a);
    lemma_times(6, b);
    lemma_times(4, c);
}

proof fn lemma_first_difference(s: Seq<i64>, i: int)
    ensures
        difference(s, 1, i) == s[i] - s[i - 1],
{
    reveal_with_fuel(difference, 2);
}

proof fn lemma_second_difference(s: Seq<i64>, i: int)
    ensures
        difference(s, 2, i) == s[i] - 2 * s[i - 1] + s[i - 2],
{
    lemma_first_difference(s, i);
    lemma_first_difference(s, i - 1);
    assert(difference(s, 2, i) == difference(s, 1, i) - difference(s, 1, i - 1));
}

proof fn lemma_third_difference(s: Seq<i64>, i: int)
    ensures
        difference(s, 3, i) == s[i] - 3 * s[i - 1] + 3 * s[i - 2] - s[i - 3],
{
    lemma_second_difference(s, i);
    lemma_second_difference(s, i - 1);
    assert(difference(s, 3, i) == difference(s, 2, i) - difference(s, 2, i - 1));
}

} // verus!
