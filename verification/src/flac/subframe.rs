//! The samples of one channel of a FLAC frame.

use super::bits::{lemma_bits_bound, BitReader, Bits, MAX_UNARY};
use crate::error::{DecodeError, Fault};
use vstd::arithmetic::power2::{lemma2_to64, lemma_pow2_pos, lemma_pow2_strictly_increases, pow2};
use vstd::bits::{lemma_u32_shl_is_mul, lemma_u64_shl_is_mul};
use vstd::prelude::*;

verus! {

/// `n` numbers of `width` bits in two's complement, behind those already read.
pub open spec fn signed_run(b: Bits, n: nat, width: nat, acc: Seq<i64>) -> (
    Result<Seq<i64>, Fault>,
    Bits,
)
    decreases n,
{
    if n == 0 {
        (Ok(acc), b)
    } else {
        match b.read_signed(width) {
            (Err(f), b) => (Err(f), b),
            (Ok(v), b) => signed_run(b, (n - 1) as nat, width, acc.push(v as i64)),
        }
    }
}

/// The number that a folded one stands for: the even ones are the numbers from
/// zero up, the odd ones those below zero.
pub open spec fn unfolded(v: nat) -> int {
    if v % 2 == 0 {
        (v / 2) as int
    } else {
        -((v / 2) as int) - 1
    }
}

/// The folded number of a number.
pub open spec fn folded(v: int) -> nat {
    if v >= 0 {
        (2 * v) as nat
    } else {
        (-2 * v - 1) as nat
    }
}

/// Every number is had back from its folded number, and every folded number
/// from the number it stands for.
pub proof fn law_folding_lossless(v: int, w: nat)
    ensures
        unfolded(folded(v)) == v,
        folded(unfolded(w)) == w,
{
}

/// One number in Rice code: how often `pow2(param)` goes into it in unary, and
/// the rest.
pub open spec fn rice(b: Bits, param: nat) -> (Result<nat, Fault>, Bits) {
    match b.unary(0) {
        (Err(f), b) => (Err(f), b),
        (Ok(q), b) => match b.read(param) {
            (Err(f), b) => (Err(f), b),
            (Ok(rest), b) => (Ok(q * pow2(param) + rest), b),
        },
    }
}

/// `n` numbers in Rice code, behind those already read.
pub open spec fn rice_run(b: Bits, n: nat, param: nat, acc: Seq<i64>) -> (
    Result<Seq<i64>, Fault>,
    Bits,
)
    decreases n,
{
    if n == 0 {
        (Ok(acc), b)
    } else {
        match rice(b, param) {
            (Err(f), b) => (Err(f), b),
            (Ok(v), b) => rice_run(b, (n - 1) as nat, param, acc.push(unfolded(v) as i64)),
        }
    }
}

/// One partition of `n` residuals. The highest parameter of `width` bits stands
/// for numbers stored as they are.
pub open spec fn partition(b: Bits, n: nat, width: nat, acc: Seq<i64>) -> (
    Result<Seq<i64>, Fault>,
    Bits,
) {
    match b.read(width) {
        (Err(f), b) => (Err(f), b),
        (Ok(param), b) => if param == pow2(width) - 1 {
            match b.read(5) {
                (Err(f), b) => (Err(f), b),
                (Ok(raw), b) => signed_run(b, n, raw, acc),
            }
        } else {
            rice_run(b, n, param, acc)
        },
    }
}

/// The partitions from `p` on, of `size` samples each; the first one is short of
/// the samples that nothing predicts.
pub open spec fn partitions_from(
    b: Bits,
    p: nat,
    count: nat,
    size: nat,
    order: nat,
    width: nat,
    acc: Seq<i64>,
) -> (Result<Seq<i64>, Fault>, Bits)
    decreases count - p,
{
    if p >= count {
        (Ok(acc), b)
    } else if p == 0 && size < order {
        (Err(Fault::Decode("首分区小于预测阶数"@)), b)
    } else {
        let n = if p == 0 {
            (size - order) as nat
        } else {
            size
        };
        match partition(b, n, width, acc) {
            (Err(f), b) => (Err(f), b),
            (Ok(acc), b) => partitions_from(b, p + 1, count, size, order, width, acc),
        }
    }
}

/// The residuals of a block of which `order` samples are not predicted.
pub open spec fn residual(b: Bits, block_size: nat, order: nat) -> (
    Result<Seq<i64>, Fault>,
    Bits,
) {
    match b.read(2) {
        (Err(f), b) => (Err(f), b),
        (Ok(method), b) => if method > 1 {
            (Err(Fault::Decode("残差编码方式非法"@)), b)
        } else {
            match b.read(4) {
                (Err(f), b) => (Err(f), b),
                (Ok(split), b) => {
                    let count = pow2(split);
                    if block_size % count != 0 {
                        (Err(Fault::Decode("分区阶与块尺寸不符"@)), b)
                    } else {
                        partitions_from(
                            b,
                            0,
                            count,
                            block_size / count,
                            order,
                            if method == 0 {
                                4
                            } else {
                                5
                            },
                            Seq::empty(),
                        )
                    }
                },
            }
        },
    }
}

fn read_signed_run(r: &mut BitReader, n: u32, width: u32, out: &mut Vec<i64>) -> (res: Result<
    (),
    DecodeError,
>)
    requires
        old(r).inv(),
        width <= 63,
    ensures
        final(r).inv(),
        final(r).frame_start() == old(r).frame_start(),
        match signed_run(old(r).bits(), n as nat, width as nat, old(out)@) {
            (Ok(s), rest) => {
                &&& res is Ok
                &&& final(out)@ == s
                &&& s.len() == old(out)@.len() + n
                &&& final(r).bits() == rest
            },
            (Err(f), rest) => res matches Err(e) && e@ == f && final(r).bits() == rest,
        },
{
    let mut left: u32 = n;
    while left > 0
        invariant
            r.inv(),
            width <= 63,
            left <= n,
            r.frame_start() == old(r).frame_start(),
            out@.len() == old(out)@.len() + (n - left),
            signed_run(old(r).bits(), n as nat, width as nat, old(out)@) == signed_run(
                r.bits(),
                left as nat,
                width as nat,
                out@,
            ),
        decreases left,
    {
        match r.read_signed(width) {
            Ok(v) => {
                out.push(v);
            },
            Err(e) => return Err(e),
        }
        left = left - 1;
    }
    Ok(())
}

fn read_rice(r: &mut BitReader, param: u32) -> (res: Result<i64, DecodeError>)
    requires
        old(r).inv(),
        param <= 31,
    ensures
        final(r).inv(),
        final(r).frame_start() == old(r).frame_start(),
        match rice(old(r).bits(), param as nat) {
            (Ok(v), rest) => res matches Ok(w) && w == unfolded(v) && final(r).bits() == rest,
            (Err(f), rest) => res matches Err(e) && e@ == f && final(r).bits() == rest,
        },
{
    let q: u32 = match r.read_unary() {
        Ok(q) => q,
        Err(e) => return Err(e),
    };
    let rest: u64 = match r.read_bits64(param) {
        Ok(v) => v,
        Err(e) => return Err(e),
    };
    proof {
        lemma2_to64();
        if param < 31 {
            lemma_pow2_strictly_increases(param as nat, 31);
        }
        lemma_u64_shl_is_mul(1, param as u64);
        assert(q * pow2(param as nat) <= MAX_UNARY * 0x8000_0000) by (nonlinear_arith)
            requires
                q <= MAX_UNARY,
                pow2(param as nat) <= 0x8000_0000,
        ;
    }
    let scale: u64 = 1u64 << param;
    assert(scale == pow2(param as nat));
    assert(q as u64 * scale == q * pow2(param as nat));
    let v: u64 = q as u64 * scale + rest;
    if v % 2 == 0 {
        Ok((v / 2) as i64)
    } else {
        Ok(-((v / 2) as i64) - 1)
    }
}

fn read_rice_run(r: &mut BitReader, n: u32, param: u32, out: &mut Vec<i64>) -> (res: Result<
    (),
    DecodeError,
>)
    requires
        old(r).inv(),
        param <= 31,
    ensures
        final(r).inv(),
        final(r).frame_start() == old(r).frame_start(),
        match rice_run(old(r).bits(), n as nat, param as nat, old(out)@) {
            (Ok(s), rest) => {
                &&& res is Ok
                &&& final(out)@ == s
                &&& s.len() == old(out)@.len() + n
                &&& final(r).bits() == rest
            },
            (Err(f), rest) => res matches Err(e) && e@ == f && final(r).bits() == rest,
        },
{
    let mut left: u32 = n;
    while left > 0
        invariant
            r.inv(),
            param <= 31,
            left <= n,
            r.frame_start() == old(r).frame_start(),
            out@.len() == old(out)@.len() + (n - left),
            rice_run(old(r).bits(), n as nat, param as nat, old(out)@) == rice_run(
                r.bits(),
                left as nat,
                param as nat,
                out@,
            ),
        decreases left,
    {
        match read_rice(r, param) {
            Ok(v) => {
                out.push(v);
            },
            Err(e) => return Err(e),
        }
        left = left - 1;
    }
    Ok(())
}

fn read_partition(r: &mut BitReader, n: u32, width: u32, out: &mut Vec<i64>) -> (res: Result<
    (),
    DecodeError,
>)
    requires
        old(r).inv(),
        width == 4 || width == 5,
    ensures
        final(r).inv(),
        final(r).frame_start() == old(r).frame_start(),
        match partition(old(r).bits(), n as nat, width as nat, old(out)@) {
            (Ok(s), rest) => {
                &&& res is Ok
                &&& final(out)@ == s
                &&& s.len() == old(out)@.len() + n
                &&& final(r).bits() == rest
            },
            (Err(f), rest) => res matches Err(e) && e@ == f && final(r).bits() == rest,
        },
{
    proof {
        lemma2_to64();
    }
    let escape: u32 = if width == 4 {
        0xF
    } else {
        0x1F
    };
    let param: u32 = match r.read_bits(width) {
        Ok(v) => v,
        Err(e) => return Err(e),
    };
    if param == escape {
        let raw: u32 = match r.read_bits(5) {
            Ok(v) => v,
            Err(e) => return Err(e),
        };
        read_signed_run(r, n, raw, out)
    } else {
        read_rice_run(r, n, param, out)
    }
}

/// Reads the residuals of a block.
pub fn decode_residual(
    r: &mut BitReader,
    block_size: u32,
    predictor_order: u32,
    out: &mut Vec<i64>,
) -> (res: Result<(), DecodeError>)
    requires
        old(r).inv(),
    ensures
        final(r).inv(),
        final(r).frame_start() == old(r).frame_start(),
        match residual(old(r).bits(), block_size as nat, predictor_order as nat) {
            (Ok(s), rest) => {
                &&& res is Ok
                &&& final(out)@ == s
                &&& s.len() == block_size - predictor_order
                &&& final(r).bits() == rest
            },
            (Err(f), rest) => res matches Err(e) && e@ == f && final(r).bits() == rest,
        },
{
    proof {
        lemma2_to64();
    }
    let method: u32 = match r.read_bits(2) {
        Ok(v) => v,
        Err(e) => return Err(e),
    };
    if method > 1 {
        return Err(DecodeError::decode("残差编码方式非法"));
    }
    let width: u32 = if method == 0 {
        4
    } else {
        5
    };
    let split: u32 = match r.read_bits(4) {
        Ok(v) => v,
        Err(e) => return Err(e),
    };
    proof {
        lemma_pow2_strictly_increases(split as nat, 16);
        lemma_u32_shl_is_mul(1, split);
        lemma_pow2_pos(split as nat);
    }
    let count: u32 = 1u32 << split;
    if block_size % count != 0 {
        return Err(DecodeError::decode("分区阶与块尺寸不符"));
    }
    let size: u32 = block_size / count;
    let ghost model = residual(old(r).bits(), block_size as nat, predictor_order as nat);
    out.clear();
    let mut p: u32 = 0;
    while p < count
        invariant
            r.inv(),
            r.frame_start() == old(r).frame_start(),
            p <= count,
            width == 4 || width == 5,
            p > 0 ==> out@.len() == p * size - predictor_order,
            p == 0 ==> out@.len() == 0,
            model == residual(old(r).bits(), block_size as nat, predictor_order as nat),
            model == partitions_from(
                r.bits(),
                p as nat,
                count as nat,
                size as nat,
                predictor_order as nat,
                width as nat,
                out@,
            ),
        decreases count - p,
    {
        let n: u32 = if p == 0 {
            if size < predictor_order {
                return Err(DecodeError::decode("首分区小于预测阶数"));
            }
            size - predictor_order
        } else {
            size
        };
        match read_partition(r, n, width, out) {
            Ok(_) => {},
            Err(e) => return Err(e),
        }
        assert((p + 1) * size == p * size + size) by (nonlinear_arith);
        p = p + 1;
    }
    assert(count * size == block_size) by (nonlinear_arith)
        requires
            count > 0,
            size == block_size / count,
            block_size % count == 0,
    ;
    Ok(())
}

/// How samples are predicted from those before them.
pub enum Predictor {
    /// The polynomial through the last so many samples.
    Fixed(nat),
    /// A weighted sum of the samples before, scaled by a power of two.
    Linear(Seq<i64>, int),
}

/// The weighted sum of the last samples, with the first `n` weights.
pub open spec fn weighted(weights: Seq<i64>, out: Seq<i64>, n: nat) -> i64
    decreases n,
{
    if n == 0 {
        0
    } else {
        let j = n - 1;
        weighted(weights, out, j as nat).wrapping_add(
            weights[j].wrapping_mul(out[out.len() - 1 - j]),
        )
    }
}

impl Predictor {
    /// The number of samples it looks at.
    pub open spec fn order(self) -> nat {
        match self {
            Predictor::Fixed(order) => order,
            Predictor::Linear(weights, _) => weights.len(),
        }
    }

    /// What comes next.
    pub open spec fn predict(self, out: Seq<i64>) -> i64 {
        let n = out.len();
        match self {
            Predictor::Fixed(order) => if order == 0 {
                0
            } else if order == 1 {
                out[n - 1]
            } else if order == 2 {
                2i64.wrapping_mul(out[n - 1]).wrapping_sub(out[n - 2])
            } else if order == 3 {
                3i64.wrapping_mul(out[n - 1]).wrapping_sub(
                    3i64.wrapping_mul(out[n - 2]),
                ).wrapping_add(out[n - 3])
            } else {
                4i64.wrapping_mul(out[n - 1]).wrapping_sub(
                    6i64.wrapping_mul(out[n - 2]),
                ).wrapping_add(4i64.wrapping_mul(out[n - 3])).wrapping_sub(out[n - 4])
            },
            Predictor::Linear(weights, shift) => {
                let sum = weighted(weights, out, weights.len());
                if shift >= 0 {
                    sum >> (shift as u32)
                } else {
                    sum << ((-shift) as u32)
                }
            },
        }
    }

    /// The samples, from the residuals from `i` on.
    pub open spec fn restored(self, out: Seq<i64>, residuals: Seq<i64>, i: int) -> Seq<i64>
        decreases residuals.len() - i,
    {
        if i >= residuals.len() {
            out
        } else {
            self.restored(
                out.push(self.predict(out).wrapping_add(residuals[i])),
                residuals,
                i + 1,
            )
        }
    }

    /// How far samples lie above what was predicted, from sample `k` on.
    pub open spec fn residuals(self, samples: Seq<i64>, k: nat) -> Seq<i64> {
        Seq::new(
            (samples.len() - k) as nat,
            |i: int| samples[k + i].wrapping_sub(self.predict(samples.take(k + i))),
        )
    }
}

/// Prediction loses nothing: whatever the predictor, the samples are had back
/// from the first ones and the residuals of the others.
pub proof fn law_prediction_lossless(p: Predictor, samples: Seq<i64>, k: nat)
    requires
        k <= samples.len(),
    ensures
        p.restored(samples.take(k as int), p.residuals(samples, k), 0) == samples,
{
    lemma_restored_from(p, samples, k, 0);
}

proof fn lemma_restored_from(p: Predictor, samples: Seq<i64>, k: nat, i: int)
    requires
        k <= samples.len(),
        0 <= i <= samples.len() - k,
    ensures
        p.restored(samples.take(k + i), p.residuals(samples, k), i) == samples,
    decreases samples.len() - k - i,
{
    if i == samples.len() - k {
        assert(samples.take(k + i) =~= samples);
    } else {
        let out = samples.take(k + i);
        let r = p.residuals(samples, k);
        let x = samples[k + i];
        let y = p.predict(out);
        assert(r[i] == x.wrapping_sub(y));
        assert(y.wrapping_add(x.wrapping_sub(y)) == x);
        assert(out.push(x) =~= samples.take(k + i + 1));
        lemma_restored_from(p, samples, k, i + 1);
    }
}

/// The samples behind the first ones, from their residuals.
pub open spec fn predicted(b: Bits, p: Predictor, block_size: nat, first: Seq<i64>) -> (
    Result<Seq<i64>, Fault>,
    Bits,
) {
    match residual(b, block_size, p.order()) {
        (Err(f), b) => (Err(f), b),
        (Ok(r), b) => (Ok(p.restored(first, r, 0)), b),
    }
}

/// The samples of a subframe with a weighted sum of `order` weights.
pub open spec fn linear(b: Bits, block_size: nat, width: nat, order: nat) -> (
    Result<Seq<i64>, Fault>,
    Bits,
) {
    match signed_run(b, order, width, Seq::empty()) {
        (Err(f), b) => (Err(f), b),
        (Ok(first), b) => match b.read(4) {
            (Err(f), b) => (Err(f), b),
            (Ok(precision), b) => if precision == 15 {
                (Err(Fault::Decode("LPC 精度编码非法"@)), b)
            } else {
                match b.read_signed(5) {
                    (Err(f), b) => (Err(f), b),
                    (Ok(shift), b) => match signed_run(b, order, precision + 1, Seq::empty()) {
                        (Err(f), b) => (Err(f), b),
                        (Ok(weights), b) => predicted(
                            b,
                            Predictor::Linear(weights, shift),
                            block_size,
                            first,
                        ),
                    },
                }
            },
        },
    }
}

/// The samples of a subframe of the given type, `width` bits each.
pub open spec fn samples_of(b: Bits, kind: nat, block_size: nat, width: nat) -> (
    Result<Seq<i64>, Fault>,
    Bits,
) {
    if kind == 0 {
        match b.read_signed(width) {
            (Err(f), b) => (Err(f), b),
            (Ok(v), b) => (Ok(Seq::new(block_size, |i: int| v as i64)), b),
        }
    } else if kind == 1 {
        signed_run(b, block_size, width, Seq::empty())
    } else if 8 <= kind <= 12 {
        let order = (kind - 8) as nat;
        if block_size < order {
            (Err(Fault::Decode("块尺寸小于预测阶数"@)), b)
        } else {
            match signed_run(b, order, width, Seq::empty()) {
                (Err(f), b) => (Err(f), b),
                (Ok(first), b) => predicted(b, Predictor::Fixed(order), block_size, first),
            }
        }
    } else if kind >= 32 {
        let order = (kind - 31) as nat;
        if block_size < order {
            (Err(Fault::Decode("块尺寸小于 LPC 阶数"@)), b)
        } else {
            linear(b, block_size, width, order)
        }
    } else {
        (Err(Fault::Decode("子帧类型编码非法"@)), b)
    }
}

/// The number of low bits that a subframe leaves out.
pub open spec fn wasted_bits(b: Bits) -> (Result<nat, Fault>, Bits) {
    match b.read(1) {
        (Err(f), b) => (Err(f), b),
        (Ok(flag), b) => if flag == 1 {
            match b.unary(0) {
                (Err(f), b) => (Err(f), b),
                (Ok(q), b) => (Ok(q + 1), b),
            }
        } else {
            (Ok(0), b)
        },
    }
}

/// Samples with the low bits put back that were left out.
pub open spec fn widened(s: Seq<i64>, wasted: nat) -> Seq<i64> {
    Seq::new(s.len(), |i: int| s[i] << (wasted as u32))
}

/// The samples of one channel, `bps` bits each.
pub open spec fn subframe(b: Bits, block_size: nat, bps: nat) -> (Result<Seq<i64>, Fault>, Bits) {
    match b.read(1) {
        (Err(f), b) => (Err(f), b),
        (Ok(_), b) => match b.read(6) {
            (Err(f), b) => (Err(f), b),
            (Ok(kind), b) => match wasted_bits(b) {
                (Err(f), b) => (Err(f), b),
                (Ok(wasted), b) => if wasted > bps {
                    (Err(Fault::Decode("无效位超过位深"@)), b)
                } else if wasted == bps {
                    (Err(Fault::Decode("有效位深为 0"@)), b)
                } else {
                    match samples_of(b, kind, block_size, (bps - wasted) as nat) {
                        (Err(f), b) => (Err(f), b),
                        (Ok(s), b) => if wasted == 0 {
                            (Ok(s), b)
                        } else {
                            (Ok(widened(s, wasted)), b)
                        },
                    }
                },
            },
        },
    }
}

fn predict_fixed(order: u32, out: &Vec<i64>) -> (v: i64)
    requires
        order <= 4,
        order <= out.len(),
    ensures
        v == Predictor::Fixed(order as nat).predict(out@),
{
    let n: usize = out.len();
    match order {
        0 => 0,
        1 => out[n - 1],
        2 => 2i64.wrapping_mul(out[n - 1]).wrapping_sub(out[n - 2]),
        3 => 3i64.wrapping_mul(out[n - 1]).wrapping_sub(
            3i64.wrapping_mul(out[n - 2]),
        ).wrapping_add(out[n - 3]),
        _ => 4i64.wrapping_mul(out[n - 1]).wrapping_sub(
            6i64.wrapping_mul(out[n - 2]),
        ).wrapping_add(4i64.wrapping_mul(out[n - 3])).wrapping_sub(out[n - 4]),
    }
}

fn predict_linear(weights: &Vec<i64>, shift: i64, out: &Vec<i64>) -> (v: i64)
    requires
        weights.len() <= out.len(),
        -16 <= shift <= 15,
    ensures
        v == Predictor::Linear(weights@, shift as int).predict(out@),
{
    let n: usize = out.len();
    let mut sum: i64 = 0;
    let mut j: usize = 0;
    while j < weights.len()
        invariant
            n == out.len(),
            j <= weights.len() <= n,
            sum == weighted(weights@, out@, j as nat),
        decreases weights.len() - j,
    {
        sum = sum.wrapping_add(weights[j].wrapping_mul(out[n - 1 - j]));
        j = j + 1;
    }
    if shift >= 0 {
        sum >> (shift as u32)
    } else {
        sum << ((-shift) as u32)
    }
}

fn restore_fixed(order: u32, residuals: &Vec<i64>, out: &mut Vec<i64>)
    requires
        order <= 4,
        order <= old(out).len(),
    ensures
        final(out)@ == Predictor::Fixed(order as nat).restored(old(out)@, residuals@, 0),
        final(out)@.len() == old(out)@.len() + residuals@.len(),
{
    let mut i: usize = 0;
    while i < residuals.len()
        invariant
            i <= residuals.len(),
            order <= 4,
            order <= out.len(),
            out@.len() == old(out)@.len() + i,
            Predictor::Fixed(order as nat).restored(old(out)@, residuals@, 0) == Predictor::Fixed(
                order as nat,
            ).restored(out@, residuals@, i as int),
        decreases residuals.len() - i,
    {
        let v: i64 = predict_fixed(order, out).wrapping_add(residuals[i]);
        out.push(v);
        i = i + 1;
    }
}

fn restore_linear(weights: &Vec<i64>, shift: i64, residuals: &Vec<i64>, out: &mut Vec<i64>)
    requires
        weights.len() <= old(out).len(),
        -16 <= shift <= 15,
    ensures
        final(out)@ == Predictor::Linear(weights@, shift as int).restored(
            old(out)@,
            residuals@,
            0,
        ),
        final(out)@.len() == old(out)@.len() + residuals@.len(),
{
    let mut i: usize = 0;
    while i < residuals.len()
        invariant
            i <= residuals.len(),
            weights.len() <= out.len(),
            -16 <= shift <= 15,
            out@.len() == old(out)@.len() + i,
            Predictor::Linear(weights@, shift as int).restored(old(out)@, residuals@, 0)
                == Predictor::Linear(weights@, shift as int).restored(
                out@,
                residuals@,
                i as int,
            ),
        decreases residuals.len() - i,
    {
        let v: i64 = predict_linear(weights, shift, out).wrapping_add(residuals[i]);
        out.push(v);
        i = i + 1;
    }
}

fn read_linear(r: &mut BitReader, block_size: u32, width: u32, order: u32, out: &mut Vec<i64>) -> (
    res: Result<(), DecodeError>)
    requires
        old(r).inv(),
        width <= 63,
        order <= block_size,
        old(out)@.len() == 0,
    ensures
        final(r).inv(),
        final(r).frame_start() == old(r).frame_start(),
        match linear(old(r).bits(), block_size as nat, width as nat, order as nat) {
            (Ok(s), rest) => {
                &&& res is Ok
                &&& final(out)@ == s
                &&& s.len() == block_size
                &&& final(r).bits() == rest
            },
            (Err(f), rest) => res matches Err(e) && e@ == f && final(r).bits() == rest,
        },
{
    proof {
        lemma2_to64();
    }
    assert(out@ =~= Seq::empty());
    match read_signed_run(r, order, width, out) {
        Ok(_) => {},
        Err(e) => return Err(e),
    }
    let precision: u32 = match r.read_bits(4) {
        Ok(v) => v,
        Err(e) => return Err(e),
    };
    if precision == 15 {
        return Err(DecodeError::decode("LPC 精度编码非法"));
    }
    let ghost before = r.bits();
    let shift: i64 = match r.read_signed(5) {
        Ok(v) => v,
        Err(e) => return Err(e),
    };
    proof {
        lemma_bits_bound(before.data, before.pos as int, 5);
    }
    let mut weights: Vec<i64> = Vec::new();
    match read_signed_run(r, order, precision + 1, &mut weights) {
        Ok(_) => {},
        Err(e) => return Err(e),
    }
    let mut residuals: Vec<i64> = Vec::new();
    match decode_residual(r, block_size, order, &mut residuals) {
        Ok(_) => {},
        Err(e) => return Err(e),
    }
    restore_linear(&weights, shift, &residuals, out);
    Ok(())
}

fn read_fixed(r: &mut BitReader, block_size: u32, width: u32, order: u32, out: &mut Vec<i64>) -> (
    res: Result<(), DecodeError>)
    requires
        old(r).inv(),
        width <= 63,
        order <= block_size,
        order <= 4,
        old(out)@.len() == 0,
    ensures
        final(r).inv(),
        final(r).frame_start() == old(r).frame_start(),
        match samples_of(old(r).bits(), (order + 8) as nat, block_size as nat, width as nat) {
            (Ok(s), rest) => {
                &&& res is Ok
                &&& final(out)@ == s
                &&& s.len() == block_size
                &&& final(r).bits() == rest
            },
            (Err(f), rest) => res matches Err(e) && e@ == f && final(r).bits() == rest,
        },
{
    assert(out@ =~= Seq::empty());
    match read_signed_run(r, order, width, out) {
        Ok(_) => {},
        Err(e) => return Err(e),
    }
    let mut residuals: Vec<i64> = Vec::new();
    match decode_residual(r, block_size, order, &mut residuals) {
        Ok(_) => {},
        Err(e) => return Err(e),
    }
    restore_fixed(order, &residuals, out);
    Ok(())
}

fn read_samples(r: &mut BitReader, kind: u32, block_size: u32, width: u32, out: &mut Vec<i64>) -> (
    res: Result<(), DecodeError>)
    requires
        old(r).inv(),
        width <= 63,
        kind < 64,
        old(out)@.len() == 0,
    ensures
        final(r).inv(),
        final(r).frame_start() == old(r).frame_start(),
        match samples_of(old(r).bits(), kind as nat, block_size as nat, width as nat) {
            (Ok(s), rest) => {
                &&& res is Ok
                &&& final(out)@ == s
                &&& s.len() == block_size
                &&& final(r).bits() == rest
            },
            (Err(f), rest) => res matches Err(e) && e@ == f && final(r).bits() == rest,
        },
{
    assert(out@ =~= Seq::empty());
    if kind == 0 {
        let v: i64 = match r.read_signed(width) {
            Ok(v) => v,
            Err(e) => return Err(e),
        };
        out.resize(block_size as usize, v);
        assert(out@ =~= Seq::new(block_size as nat, |i: int| v));
        Ok(())
    } else if kind == 1 {
        read_signed_run(r, block_size, width, out)
    } else if 8 <= kind && kind <= 12 {
        let order: u32 = kind - 8;
        if block_size < order {
            return Err(DecodeError::decode("块尺寸小于预测阶数"));
        }
        read_fixed(r, block_size, width, order, out)
    } else if kind >= 32 {
        let order: u32 = kind - 31;
        if block_size < order {
            return Err(DecodeError::decode("块尺寸小于 LPC 阶数"));
        }
        read_linear(r, block_size, width, order, out)
    } else {
        Err(DecodeError::decode("子帧类型编码非法"))
    }
}

fn read_wasted(r: &mut BitReader) -> (res: Result<u32, DecodeError>)
    requires
        old(r).inv(),
    ensures
        final(r).inv(),
        final(r).frame_start() == old(r).frame_start(),
        match wasted_bits(old(r).bits()) {
            (Ok(n), rest) => res matches Ok(w) && w == n && final(r).bits() == rest,
            (Err(f), rest) => res matches Err(e) && e@ == f && final(r).bits() == rest,
        },
{
    let flag: u32 = match r.read_bits(1) {
        Ok(v) => v,
        Err(e) => return Err(e),
    };
    if flag == 1 {
        match r.read_unary() {
            Ok(q) => Ok(q + 1),
            Err(e) => Err(e),
        }
    } else {
        Ok(0)
    }
}

fn widen(out: &mut Vec<i64>, wasted: u32)
    requires
        wasted < 64,
    ensures
        final(out)@ == widened(old(out)@, wasted as nat),
{
    let mut i: usize = 0;
    while i < out.len()
        invariant
            wasted < 64,
            i <= out.len(),
            out@.len() == old(out)@.len(),
            forall|j: int| 0 <= j < i ==> out@[j] == #[trigger] old(out)@[j] << wasted,
            forall|j: int| i <= j < out@.len() ==> out@[j] == old(out)@[j],
        decreases out.len() - i,
    {
        let v: i64 = out[i];
        out[i] = v << wasted;
        i = i + 1;
    }
    assert(out@ =~= widened(old(out)@, wasted as nat));
}

/// Reads the samples of one channel.
pub fn decode_subframe(r: &mut BitReader, block_size: u32, bps: u8, out: &mut Vec<i64>) -> (
    res: Result<(), DecodeError>)
    requires
        old(r).inv(),
        bps <= 63,
    ensures
        final(r).inv(),
        final(r).frame_start() == old(r).frame_start(),
        match subframe(old(r).bits(), block_size as nat, bps as nat) {
            (Ok(s), rest) => {
                &&& res is Ok
                &&& final(out)@ == s
                &&& s.len() == block_size
                &&& final(r).bits() == rest
            },
            (Err(f), rest) => res matches Err(e) && e@ == f && final(r).bits() == rest,
        },
{
    proof {
        lemma2_to64();
    }
    match r.read_bits(1) {
        Ok(_) => {},
        Err(e) => return Err(e),
    }
    let kind: u32 = match r.read_bits(6) {
        Ok(v) => v,
        Err(e) => return Err(e),
    };
    let wasted: u32 = match read_wasted(r) {
        Ok(v) => v,
        Err(e) => return Err(e),
    };
    if wasted > bps as u32 {
        return Err(DecodeError::decode("无效位超过位深"));
    }
    if wasted == bps as u32 {
        return Err(DecodeError::decode("有效位深为 0"));
    }
    out.clear();
    match read_samples(r, kind, block_size, bps as u32 - wasted, out) {
        Ok(_) => {},
        Err(e) => return Err(e),
    }
    if wasted > 0 {
        widen(out, wasted);
    }
    Ok(())
}

} // verus!
