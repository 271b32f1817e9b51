//! Subframes and frames as an encoder writes them. What it writes is decoded to the
//! samples that went into it.

use super::bits::Bits;
use super::laws::{
    difference, dot, fits, law_fixed_prediction, law_linear_prediction, lemma_shift_up, modest,
};
use super::subframe::{
    law_prediction_lossless, samples_of, subframe, wasted_bits, widened, Predictor,
};
use super::written::{
    binary, in_digits, law_number_read, law_plain_row_read, law_residuals_read, law_signed_read,
    law_unary_read, lemma_parts, on, plain_row, residual_row, residuals_codable, stands_at, twos,
    unary, ResidualCoding,
};
use crate::error::Fault;
use vstd::arithmetic::power2::{
    lemma2_to64, lemma_pow2_adds, lemma_pow2_pos, lemma_pow2_strictly_increases, pow2,
};
use vstd::prelude::*;

verus! {

/// How an encoder writes the samples of a channel.
pub enum Kind {
    /// All of them are one number.
    Constant,
    /// Each as it is.
    Verbatim,
    /// The first ones as they are, then the differences of an order.
    Fixed(nat, ResidualCoding),
    /// The first ones as they are, then by how much each differs from a weighted sum
    /// of those before. The weights have so many digits, and the sum is divided by two
    /// to a power.
    Linear(Seq<i64>, nat, int, ResidualCoding),
}

/// How many samples are written as they are.
pub open spec fn first_samples(k: Kind) -> nat {
    match k {
        Kind::Fixed(order, _) => order,
        Kind::Linear(weights, _, _, _) => weights.len(),
        _ => 0,
    }
}

/// What a weighted sum comes to: over a power of two, rounded down, or times one.
pub open spec fn scaled_sum(sum: int, shift: int) -> int {
    if shift >= 0 {
        sum / (pow2(shift as nat) as int)
    } else {
        sum * pow2((-shift) as nat)
    }
}

/// What is written for sample `i`, behind the first ones.
pub open spec fn missed(k: Kind, samples: Seq<i64>, i: int) -> int {
    match k {
        Kind::Fixed(order, _) => difference(samples, order, i),
        Kind::Linear(weights, _, shift, _) => samples[i] - scaled_sum(
            dot(weights, samples.take(i), weights.len()),
            shift,
        ),
        _ => 0,
    }
}

/// What is written for all samples behind the first ones.
pub open spec fn all_missed(k: Kind, samples: Seq<i64>) -> Seq<i64> {
    let n = first_samples(k);
    Seq::new((samples.len() - n) as nat, |i: int| missed(k, samples, n + i) as i64)
}

/// Whether all that goes into a weighted sum fits in 64 bits.
pub open spec fn sums_fit(weights: Seq<i64>, shift: int, samples: Seq<i64>) -> bool {
    &&& forall|k: nat| k <= weights.len() ==> fits(#[trigger] dot(weights, samples, k))
    &&& forall|j: int|
        0 <= j < weights.len() ==> fits(#[trigger] weights[j] * samples[samples.len() - 1 - j])
    &&& fits(scaled_sum(dot(weights, samples, weights.len()), shift))
}

/// Whether samples of `width` digits can be written so.
pub open spec fn writable(k: Kind, samples: Seq<i64>, width: nat) -> bool {
    &&& 1 <= width <= 33
    &&& forall|i: int| 0 <= i < samples.len() ==> in_digits(#[trigger] samples[i] as int, width)
    &&& first_samples(k) <= samples.len()
    &&& match k {
        Kind::Constant => samples.len() > 0 && forall|i: int|
            0 <= i < samples.len() ==> #[trigger] samples[i] == samples[0],
        Kind::Verbatim => true,
        Kind::Fixed(order, c) => {
            &&& order <= 4
            &&& residuals_codable(all_missed(k, samples), samples.len(), order, c)
        },
        Kind::Linear(weights, precision, shift, c) => {
            &&& 1 <= weights.len() <= 32
            &&& 1 <= precision <= 15
            &&& in_digits(shift, 5)
            &&& forall|j: int|
                0 <= j < weights.len() ==> in_digits(#[trigger] weights[j] as int, precision)
            &&& forall|i: int|
                weights.len() <= i < samples.len() ==> sums_fit(
                    weights,
                    shift,
                    #[trigger] samples.take(i),
                ) && fits(missed(k, samples, i))
            &&& residuals_codable(all_missed(k, samples), samples.len(), weights.len(), c)
        },
    }
}

/// The number that stands for the way in which samples are written.
pub open spec fn kind_code(k: Kind) -> nat {
    match k {
        Kind::Constant => 0,
        Kind::Verbatim => 1,
        Kind::Fixed(order, _) => 8 + order,
        Kind::Linear(weights, _, _, _) => (31 + weights.len()) as nat,
    }
}

/// Samples as they are written.
pub open spec fn samples_row(k: Kind, samples: Seq<i64>, width: nat) -> Seq<bool> {
    let n = first_samples(k);
    let first = plain_row(samples.take(n as int), width);
    match k {
        Kind::Constant => binary(twos(samples[0] as int, width), width),
        Kind::Verbatim => plain_row(samples, width),
        Kind::Fixed(order, c) => first + residual_row(
            all_missed(k, samples),
            samples.len(),
            order,
            c,
        ),
        Kind::Linear(weights, precision, shift, c) => first + (binary((precision - 1) as nat, 4) + (
        binary(twos(shift, 5), 5) + (plain_row(weights, precision) + residual_row(
            all_missed(k, samples),
            samples.len(),
            weights.len(),
            c,
        )))),
    }
}

proof fn lemma_width(v: i64, width: nat)
    requires
        in_digits(v as int, width),
        width <= 33,
    ensures
        modest(v),
        -0x1_0000_0000 <= v < 0x1_0000_0000,
{
    lemma2_to64();
    if width < 33 {
        lemma_pow2_strictly_increases((width - 1) as nat, 32);
    }
}

proof fn lemma_difference_prefix(s: Seq<i64>, t: Seq<i64>, order: nat, i: int)
    requires
        order <= i < s.len(),
        i < t.len(),
        forall|j: int| 0 <= j <= i ==> s[j] == t[j],
    ensures
        difference(s, order, i) == difference(t, order, i),
    decreases order,
{
    if order > 0 {
        lemma_difference_prefix(s, t, (order - 1) as nat, i);
        lemma_difference_prefix(s, t, (order - 1) as nat, i - 1);
    }
}

/// A difference of small numbers is small.
proof fn lemma_difference_bound(s: Seq<i64>, order: nat, i: int)
    requires
        order <= i < s.len(),
        order <= 4,
        forall|j: int| 0 <= j < s.len() ==> -0x1_0000_0000 <= #[trigger] s[j] < 0x1_0000_0000,
    ensures
        -0x1_0000_0000 * pow2(order) <= difference(s, order, i) <= 0x1_0000_0000 * pow2(order),
    decreases order,
{
    lemma2_to64();
    if order > 0 {
        lemma_difference_bound(s, (order - 1) as nat, i);
        lemma_difference_bound(s, (order - 1) as nat, i - 1);
        vstd::arithmetic::power2::lemma_pow2_unfold(order);
    }
}

proof fn lemma_fixed_residuals(order: nat, c: ResidualCoding, samples: Seq<i64>, width: nat)
    requires
        writable(Kind::Fixed(order, c), samples, width),
    ensures
        Predictor::Fixed(order).residuals(samples, order) == all_missed(
            Kind::Fixed(order, c),
            samples,
        ),
{
    let k = Kind::Fixed(order, c);
    let p = Predictor::Fixed(order);
    let r = p.residuals(samples, order);
    let m = all_missed(k, samples);
    lemma2_to64();
    assert forall|j: int| 0 <= j < samples.len() implies -0x1_0000_0000 <= #[trigger] samples[j]
        < 0x1_0000_0000 by {
        lemma_width(samples[j], width);
    }
    assert forall|i: int| 0 <= i < m.len() implies #[trigger] r[i] == m[i] by {
        let at = order + i;
        let before = samples.take(at);
        assert forall|j: int| 0 <= j < before.len() implies modest(#[trigger] before[j]) by {
            lemma_width(samples[j], width);
        }
        law_fixed_prediction(order, before, samples[at]);
        assert(before.push(samples[at]) =~= samples.take(at + 1));
        lemma_difference_prefix(samples.take(at + 1), samples, order, at);
        lemma_difference_bound(samples, order, at);
        lemma_pow2_bound(order);
        let d = difference(samples, order, at);
        assert(-0x10_0000_0000 <= d <= 0x10_0000_0000);
        assert(missed(k, samples, at) == d);
        assert(samples[at] - p.predict(before) == d);
        assert(samples[at].wrapping_sub(p.predict(before)) == d);
    }
    assert(r =~= m);
}

proof fn lemma_pow2_bound(order: nat)
    requires
        order <= 4,
    ensures
        1 <= pow2(order) <= 16,
{
    lemma2_to64();
    lemma_pow2_pos(order);
    if order < 4 {
        lemma_pow2_strictly_increases(order, 4);
    }
}

proof fn lemma_linear_residuals(
    weights: Seq<i64>,
    precision: nat,
    shift: int,
    c: ResidualCoding,
    samples: Seq<i64>,
    width: nat,
)
    requires
        writable(Kind::Linear(weights, precision, shift, c), samples, width),
    ensures
        Predictor::Linear(weights, shift).residuals(samples, weights.len()) == all_missed(
            Kind::Linear(weights, precision, shift, c),
            samples,
        ),
{
    let k = Kind::Linear(weights, precision, shift, c);
    let p = Predictor::Linear(weights, shift);
    let n = weights.len();
    let r = p.residuals(samples, n);
    let m = all_missed(k, samples);
    lemma2_to64();
    assert forall|i: int| 0 <= i < m.len() implies #[trigger] r[i] == m[i] by {
        let at = n + i;
        let before = samples.take(at);
        assert(sums_fit(weights, shift, before));
        law_linear_prediction(weights, shift, before);
        let d = missed(k, samples, at);
        assert(fits(d));
        assert(p.predict(before) == scaled_sum(dot(weights, before, n), shift));
        assert(samples[at] - p.predict(before) == d);
        assert(samples[at].wrapping_sub(p.predict(before)) == d);
    }
    assert(r =~= m);
}

/// Samples that are written are read, however they are written.
pub proof fn law_samples_read(b: Bits, k: Kind, samples: Seq<i64>, width: nat)
    requires
        writable(k, samples, width),
        stands_at(b, samples_row(k, samples, width)),
    ensures
        samples_of(b, kind_code(k), samples.len(), width) == (
            Ok::<Seq<i64>, Fault>(samples),
            on(b, samples_row(k, samples, width).len()),
        ),
{
    let row = samples_row(k, samples, width);
    let n = first_samples(k) as int;
    assert forall|i: int| 0 <= i < samples.take(n).len() implies in_digits(
        #[trigger] samples.take(n)[i] as int,
        width,
    ) by {
        assert(samples.take(n)[i] == samples[i]);
    }
    assert(Seq::<i64>::empty() + samples.take(n) =~= samples.take(n));
    match k {
        Kind::Constant => {
            assert(in_digits(samples[0] as int, width));
            law_signed_read(b, samples[0] as int, width);
            assert(Seq::new(samples.len(), |i: int| samples[0]) =~= samples);
        },
        Kind::Verbatim => {
            law_plain_row_read(b, samples, width, Seq::empty());
            assert(Seq::<i64>::empty() + samples =~= samples);
        },
        Kind::Fixed(order, c) => {
            let first = plain_row(samples.take(n), width);
            let rest = residual_row(all_missed(k, samples), samples.len(), order, c);
            lemma_parts(b, first, rest);
            law_plain_row_read(b, samples.take(n), width, Seq::empty());
            let b1 = on(b, first.len());
            law_residuals_read(b1, all_missed(k, samples), samples.len(), order, c);
            lemma_fixed_residuals(order, c, samples, width);
            law_prediction_lossless(Predictor::Fixed(order), samples, order);
            assert(on(b1, rest.len()) == on(b, row.len()));
        },
        Kind::Linear(weights, precision, shift, c) => {
            lemma2_to64();
            let first = plain_row(samples.take(n), width);
            let rest = residual_row(all_missed(k, samples), samples.len(), weights.len(), c);
            let w = plain_row(weights, precision);
            let s = binary(twos(shift, 5), 5);
            let p = binary((precision - 1) as nat, 4);
            lemma_parts(b, first, p + (s + (w + rest)));
            law_plain_row_read(b, samples.take(n), width, Seq::empty());
            let b1 = on(b, first.len());
            lemma_parts(b1, p, s + (w + rest));
            law_number_read(b1, (precision - 1) as nat, 4);
            let b2 = on(b1, 4);
            lemma_parts(b2, s, w + rest);
            law_signed_read(b2, shift, 5);
            let b3 = on(b2, 5);
            lemma_parts(b3, w, rest);
            law_plain_row_read(b3, weights, precision, Seq::empty());
            assert(Seq::<i64>::empty() + weights =~= weights);
            let b4 = on(b3, w.len());
            law_residuals_read(b4, all_missed(k, samples), samples.len(), weights.len(), c);
            lemma_linear_residuals(weights, precision, shift, c, samples, width);
            law_prediction_lossless(Predictor::Linear(weights, shift), samples, weights.len());
            assert(on(b4, rest.len()) == on(b, row.len()));
        },
    }
}

/// How many low digits of all samples are left out.
pub open spec fn wasted_row(wasted: nat) -> Seq<bool> {
    if wasted == 0 {
        seq![false]
    } else {
        seq![true] + unary((wasted - 1) as nat)
    }
}

/// A channel as it is written: the samples without their `wasted` low digits.
pub open spec fn subframe_row(k: Kind, samples: Seq<i64>, bps: nat, wasted: nat) -> Seq<bool> {
    seq![false] + (binary(kind_code(k), 6) + (wasted_row(wasted) + samples_row(
        k,
        samples,
        (bps - wasted) as nat,
    )))
}

proof fn lemma_one_digit(b: Bits, v: bool)
    requires
        stands_at(b, seq![v]),
    ensures
        b.read(1) == (
            Ok::<nat, Fault>(
                if v {
                    1
                } else {
                    0
                },
            ),
            on(b, 1),
        ),
{
    let n: nat = if v {
        1
    } else {
        0
    };
    lemma2_to64();
    reveal_with_fuel(binary, 2);
    assert(binary(n, 1) =~= seq![v]);
    law_number_read(b, n, 1);
}

proof fn lemma_wasted(b: Bits, wasted: nat)
    requires
        wasted <= 33,
        stands_at(b, wasted_row(wasted)),
    ensures
        wasted_bits(b) == (Ok::<nat, Fault>(wasted), on(b, wasted_row(wasted).len())),
{
    if wasted == 0 {
        lemma_one_digit(b, false);
    } else {
        let q = (wasted - 1) as nat;
        lemma_parts(b, seq![true], unary(q));
        lemma_one_digit(b, true);
        law_unary_read(on(b, 1), q);
        assert(on(on(b, 1), q + 1) == on(b, wasted_row(wasted).len()));
    }
}

/// A channel that is written is decoded to its samples, which are those stored times
/// two for each low digit left out.
pub proof fn law_subframe_read(b: Bits, k: Kind, samples: Seq<i64>, bps: nat, wasted: nat)
    requires
        wasted < bps <= 33,
        writable(k, samples, (bps - wasted) as nat),
        stands_at(b, subframe_row(k, samples, bps, wasted)),
    ensures
        ({
            let (r, rest) = subframe(b, samples.len(), bps);
            &&& r matches Ok(s)
            &&& s.len() == samples.len()
            &&& forall|i: int| 0 <= i < s.len() ==> #[trigger] s[i] == samples[i] * pow2(wasted)
            &&& rest == on(b, subframe_row(k, samples, bps, wasted).len())
        }),
{
    lemma2_to64();
    let width = (bps - wasted) as nat;
    let t = binary(kind_code(k), 6);
    let w = wasted_row(wasted);
    let s = samples_row(k, samples, width);
    lemma_parts(b, seq![false], t + (w + s));
    lemma_one_digit(b, false);
    let b1 = on(b, 1);
    lemma_parts(b1, t, w + s);
    law_number_read(b1, kind_code(k), 6);
    let b2 = on(b1, 6);
    lemma_parts(b2, w, s);
    lemma_wasted(b2, wasted);
    let b3 = on(b2, w.len());
    law_samples_read(b3, k, samples, width);
    assert(on(b3, s.len()) == on(b, subframe_row(k, samples, bps, wasted).len()));
    if wasted > 0 {
        let out = widened(samples, wasted);
        assert forall|i: int| 0 <= i < samples.len() implies #[trigger] out[i] == samples[i] * pow2(
            wasted,
        ) by {
            let v = samples[i];
            assert(in_digits(v as int, width));
            lemma_pow2_adds((width - 1) as nat, wasted);
            lemma_pow2_pos(wasted);
            let p = pow2(wasted) as int;
            let h = pow2((width - 1) as nat) as int;
            assert(-(h * p) <= v * p <= h * p) by (nonlinear_arith)
                requires
                    -h <= v < h,
                    p > 0,
            ;
            if bps < 33 {
                lemma_pow2_strictly_increases((bps - 1) as nat, 32);
            }
            lemma_shift_up(v, wasted as u32);
        }
    } else {
        assert forall|i: int| 0 <= i < samples.len() implies #[trigger] samples[i] == samples[i]
            * pow2(0) by {
            assert(samples[i] * 1 == samples[i]);
        }
    }
}

} // verus!
