//! Decorrelation in integers: what each term predicts a sample from, how weights move,
//! and that residuals made this way are turned into the samples again.

use super::decorr::{
    adapted, adapted_clip, cross_run, cross_step, every, interleaved, lane_run, mono_output,
    other_channel, own_past, predicted, restored, stereo_output, weighted, Cross, Lane, Pass,
};
use vstd::prelude::*;

verus! {

/// The largest sample that is spoken of.
pub open spec fn sample_limit() -> int {
    0x100_0000
}

/// The largest weight that is spoken of: four, in 1024ths.
pub open spec fn weight_limit() -> int {
    4096
}

/// Whether a number lies between a limit and its opposite.
pub open spec fn within(v: int, limit: int) -> bool {
    -limit <= v <= limit
}

/// -1, 0 or 1, as a number is below, at or above zero.
pub open spec fn sign(v: int) -> int {
    if v < 0 {
        -1
    } else if v > 0 {
        1
    } else {
        0
    }
}

/// A prediction times its weight, which is in 1024ths, to the nearest integer.
pub open spec fn share(w: int, prediction: int) -> int {
    (w * prediction + 512) / 1024
}

/// Shifting down is dividing by a power of two, rounded down.
pub proof fn lemma_shifts(y: i32)
    ensures
        y >> 1 == y / 2,
        y >> 9 == y / 512,
        y >> 10 == y / 1024,
{
    assert(y >> 1 == y / 2 && y >> 9 == y / 512 && y >> 10 == y / 1024) by (bit_vector);
}

proof fn lemma_small(w: i32, sam: i32)
    requires
        within(w as int, weight_limit()),
        sam == (sam as i16) as i32,
    ensures
        weighted(w, sam) == share(w as int, sam as int),
{
    assert(-32768 <= sam <= 32767) by (bit_vector)
        requires
            sam == (sam as i16) as i32,
    ;
    assert(-4096 * 32768 <= w * sam <= 4096 * 32768) by (nonlinear_arith)
        requires
            -4096 <= w <= 4096,
            -32768 <= sam <= 32767,
    ;
    lemma_shifts(w.wrapping_mul(sam).wrapping_add(512));
}

proof fn lemma_halves(w: int, low: int, high: int, sam: int, a: int, b: int)
    requires
        sam == low + 512 * high,
        a == (low * w) / 512,
        b == high * w,
    ensures
        (a + b + 1) / 2 == share(w, sam),
{
    assert(w * sam == low * w + 512 * b) by (nonlinear_arith)
        requires
            sam == low + 512 * high,
            b == high * w,
    ;
    let p = low * w;
    assert((p + 512 * b) / 512 == p / 512 + b);
    let q = w * sam;
    assert(q / 512 == a + b);
    assert((q / 512 + 1) / 2 == (q + 512) / 1024);
}

proof fn lemma_large(w: i32, sam: i32)
    requires
        within(w as int, weight_limit()),
        within(sam as int, 3 * sample_limit()),
        sam != (sam as i16) as i32,
    ensures
        weighted(w, sam) == share(w as int, sam as int),
{
    let low = sam & 0xFFFF;
    let high = (sam & !0xFFFF) >> 9;
    assert(0 <= low <= 0xFFFF && -0x20000 <= high <= 0x20000 && sam == low + 512 * high)
        by (bit_vector)
        requires
            low == sam & 0xFFFF,
            high == (sam & !0xFFFF) >> 9,
            -0x300_0000 <= sam <= 0x300_0000,
    ;
    assert(-4096 * 0x10000 <= low * w <= 4096 * 0x10000) by (nonlinear_arith)
        requires
            -4096 <= w <= 4096,
            0 <= low <= 0xFFFF,
    ;
    assert(-4096 * 0x20000 <= high * w <= 4096 * 0x20000) by (nonlinear_arith)
        requires
            -4096 <= w <= 4096,
            -0x20000 <= high <= 0x20000,
    ;
    let x = low.wrapping_mul(w);
    let a = x >> 9;
    let b = high.wrapping_mul(w);
    lemma_shifts(x);
    lemma_shifts(a.wrapping_add(b).wrapping_add(1));
    lemma_halves(w as int, low as int, high as int, sam as int, a as int, b as int);
}

/// A weighted prediction is the product over 1024, rounded to the nearest integer, for
/// predictions of 16 bits and for larger ones.
pub proof fn law_weighted(w: i32, sam: i32)
    requires
        within(w as int, weight_limit()),
        within(sam as int, 3 * sample_limit()),
    ensures
        weighted(w, sam) == share(w as int, sam as int),
        within(share(w as int, sam as int), 0x1000_0000),
{
    if sam == (sam as i16) as i32 {
        lemma_small(w, sam);
    } else {
        lemma_large(w, sam);
    }
    assert(-4096 * 0x300_0000 <= w * sam <= 4096 * 0x300_0000) by (nonlinear_arith)
        requires
            -4096 <= w <= 4096,
            -0x300_0000 <= sam <= 0x300_0000,
    ;
}

/// A weight moves towards the sign of prediction times residual.
pub proof fn law_adapted(w: i32, delta: i32, prediction: i32, residual: i32)
    requires
        within(w as int, weight_limit()),
        0 <= delta <= 7,
    ensures
        adapted(w, delta, prediction, residual) == w + delta * (sign(prediction as int) * sign(
            residual as int,
        )),
        within(w as int, 1024) ==> adapted_clip(w, delta, prediction, residual) == held(
            w + delta * (sign(prediction as int) * sign(residual as int)),
        ),
{
    let a = sign(prediction as int);
    let b = sign(residual as int);
    assert(a * b == (if a == 0 || b == 0 {
        0int
    } else if a == b {
        1
    } else {
        -1
    })) by (nonlinear_arith)
        requires
            a == -1 || a == 0 || a == 1,
            b == -1 || b == 0 || b == 1,
    ;
    let m = a * b;
    assert(m == 0 ==> delta * m == 0) by (nonlinear_arith);
    assert(m == 1 ==> delta * m == delta) by (nonlinear_arith);
    assert(m == -1 ==> delta * m == -delta) by (nonlinear_arith);
}

/// A weight held between -1 and 1.
pub open spec fn held(w: int) -> int {
    if w < -1024 {
        -1024
    } else if w > 1024 {
        1024
    } else {
        w
    }
}

/// Sample `i` of a channel; those before the first are the kept ones. A term from 1 to 8
/// keeps that many, the oldest first; the others keep the last one first.
pub open spec fn sample_at(term: int, kept: Seq<i32>, ys: Seq<i32>, i: int) -> int {
    if i >= 0 {
        ys[i] as int
    } else if term <= 8 {
        kept[i + term] as int
    } else {
        kept[-i - 1] as int
    }
}

/// What a term predicts sample `i` from: a term from 1 to 8 the sample that far back,
/// term 17 the straight line through the last two, and term 18 half of its slope.
pub open spec fn forecast(term: int, kept: Seq<i32>, ys: Seq<i32>, i: int) -> int {
    let last = sample_at(term, kept, ys, i - 1);
    let before = sample_at(term, kept, ys, i - 2);
    if term == 17 {
        2 * last - before
    } else if term == 18 {
        last + (last - before) / 2
    } else {
        sample_at(term, kept, ys, i - term)
    }
}

/// The weight that sample `i` is predicted with.
pub open spec fn weight_at(term: int, delta: int, lane: Lane, ys: Seq<i32>, i: nat) -> int
    decreases i,
{
    if i == 0 {
        lane.w as int
    } else {
        let j = (i - 1) as nat;
        let w = weight_at(term, delta, lane, ys, j);
        let f = forecast(term, lane.s, ys, j as int);
        w + delta * (sign(f) * sign(ys[j as int] - share(w, f)))
    }
}

/// What is stored of sample `i`: how far the weighted prediction misses it.
pub open spec fn residual_at(term: int, delta: int, lane: Lane, ys: Seq<i32>, i: int) -> int {
    ys[i] - share(
        weight_at(term, delta, lane, ys, i as nat),
        forecast(term, lane.s, ys, i),
    )
}

/// Whether samples, kept ones and weights stay within what is spoken of.
pub open spec fn modest(term: int, delta: int, lane: Lane, ys: Seq<i32>) -> bool {
    &&& lane.s.len() == 8
    &&& 0 <= delta <= 7
    &&& forall|i: int| 0 <= i < 8 ==> within(#[trigger] lane.s[i] as int, sample_limit())
    &&& forall|i: int| 0 <= i < ys.len() ==> within(#[trigger] ys[i] as int, sample_limit())
    &&& forall|i: nat|
        i <= ys.len() ==> within(
            #[trigger] weight_at(term, delta, lane, ys, i),
            weight_limit(),
        )
}

/// What a pass keeps after sample `i`.
pub open spec fn keeps(term: int, kept: Seq<i32>, ys: Seq<i32>, s: Seq<i32>, i: int) -> bool {
    &&& s.len() == 8
    &&& term > 8 ==> s[0] == sample_at(term, kept, ys, i - 1) && s[1] == sample_at(
        term,
        kept,
        ys,
        i - 2,
    )
    &&& term <= 8 ==> forall|k: int|
        #![trigger sample_at(term, kept, ys, k - term)]
        i <= k < i + term ==> s[k % 8] == sample_at(term, kept, ys, k - term)
}

proof fn lemma_predicted(term: i32, stereo: bool, lane: Lane, kept: Seq<i32>, ys: Seq<i32>, i: int)
    requires
        own_past(term),
        0 <= i <= ys.len(),
        keeps(term as int, kept, ys, lane.s, i),
        kept.len() == 8,
        forall|k: int| 0 <= k < 8 ==> within(#[trigger] kept[k] as int, sample_limit()),
        forall|k: int| 0 <= k < ys.len() ==> within(#[trigger] ys[k] as int, sample_limit()),
    ensures
        predicted(term, stereo, lane, i) == forecast(term as int, kept, ys, i),
        within(forecast(term as int, kept, ys, i), 3 * sample_limit()),
{
    let t = term as int;
    if t > 8 {
        let a = lane.s[0];
        let b = lane.s[1];
        if i == 0 {
            assert(within(kept[0] as int, sample_limit()));
            assert(within(kept[1] as int, sample_limit()));
        } else if i == 1 {
            assert(within(kept[0] as int, sample_limit()));
            assert(within(ys[0] as int, sample_limit()));
        } else {
            assert(within(ys[i - 1] as int, sample_limit()));
            assert(within(ys[i - 2] as int, sample_limit()));
        }
        lemma_shifts(a.wrapping_sub(b));
        lemma_shifts(3i32.wrapping_mul(a).wrapping_sub(b));
    } else {
        assert(lane.s[i % 8] == sample_at(t, kept, ys, i - t));
        if i < t {
            assert(within(kept[i] as int, sample_limit()));
        } else {
            assert(within(ys[i - t] as int, sample_limit()));
        }
    }
}

proof fn lemma_keeps(term: i32, kept: Seq<i32>, ys: Seq<i32>, s: Seq<i32>, i: int)
    requires
        own_past(term),
        0 <= i < ys.len(),
        keeps(term as int, kept, ys, s, i),
    ensures
        keeps(
            term as int,
            kept,
            ys,
            if term == 17 || term == 18 {
                s.update(0, ys[i]).update(1, s[0])
            } else {
                s.update((i + term) % 8, ys[i])
            },
            i + 1,
        ),
{
    let t = term as int;
    if t <= 8 {
        let next = s.update((i + t) % 8, ys[i]);
        assert forall|k: int|
            #![trigger sample_at(t, kept, ys, k - t)]
            i + 1 <= k < i + 1 + t implies next[k % 8] == sample_at(t, kept, ys, k - t) by {
            if k < i + t {
                assert(s[k % 8] == sample_at(t, kept, ys, k - t));
                assert(k % 8 != (i + t) % 8);
            }
        }
    }
}

/// A channel loses nothing: from how far the weighted predictions miss its samples, a
/// pass restores these samples.
pub proof fn law_lane_restored(
    term: i32,
    delta: i32,
    stereo: bool,
    lane: Lane,
    ys: Seq<i32>,
    xs: Seq<i32>,
    n: nat,
)
    requires
        own_past(term),
        modest(term as int, delta as int, lane, ys),
        n <= ys.len(),
        xs.len() == ys.len(),
        forall|i: int|
            0 <= i < xs.len() ==> #[trigger] xs[i] == residual_at(
                term as int,
                delta as int,
                lane,
                ys,
                i,
            ),
    ensures
        lane_run(term, delta, stereo, lane, xs, n).1 == ys.take(n as int),
        lane_run(term, delta, stereo, lane, xs, n).0.w == weight_at(
            term as int,
            delta as int,
            lane,
            ys,
            n,
        ),
        keeps(
            term as int,
            lane.s,
            ys,
            lane_run(term, delta, stereo, lane, xs, n).0.s,
            n as int,
        ),
    decreases n,
{
    let t = term as int;
    let d = delta as int;
    if n == 0 {
        assert(ys.take(0) =~= Seq::empty());
        assert forall|k: int| #![trigger sample_at(t, lane.s, ys, k - t)] 0 <= k < t && t <= 8 implies lane.s[k % 8]
            == sample_at(t, lane.s, ys, k - t) by {}
    } else {
        let i = (n - 1) as nat;
        law_lane_restored(term, delta, stereo, lane, ys, xs, i);
        let h = lane_run(term, delta, stereo, lane, xs, i).0;
        lemma_predicted(term, stereo, h, lane.s, ys, i as int);
        let f = predicted(term, stereo, h, i as int);
        assert(within(weight_at(t, d, lane, ys, i), weight_limit()));
        law_weighted(h.w, f);
        assert(xs[i as int] == residual_at(t, d, lane, ys, i as int));
        let y = restored(term, stereo, h, i as int, xs[i as int]);
        assert(y == ys[i as int]);
        law_adapted(h.w, delta, f, xs[i as int]);
        lemma_keeps(term, lane.s, ys, h.s, i as int);
        assert(ys.take(i as int).push(y) =~= ys.take(n as int));
    }
}

/// A pair of weights and what the channels were last.
pub struct Pair {
    /// The weight of the first channel.
    pub wa: int,
    /// The weight of the second channel.
    pub wb: int,
}

/// Sample `i` of a channel of interleaved samples; before the first, the kept one.
pub open spec fn channel_at(kept: int, ys: Seq<i32>, second: bool, i: int) -> int {
    if i < 0 {
        kept
    } else if second {
        ys[2 * i + 1] as int
    } else {
        ys[2 * i] as int
    }
}

/// What a term predicts frame `i` of the first channel from: the last sample of the
/// second channel, or, for term -2, the one of the same frame.
pub open spec fn first_from(term: int, kept: int, ys: Seq<i32>, i: int) -> int {
    channel_at(
        kept,
        ys,
        true,
        if term == -2 {
            i
        } else {
            i - 1
        },
    )
}

/// What a term predicts frame `i` of the second channel from: the last sample of the
/// first channel, or, for term -1, the one of the same frame.
pub open spec fn second_from(term: int, kept: int, ys: Seq<i32>, i: int) -> int {
    channel_at(
        kept,
        ys,
        false,
        if term == -1 {
            i
        } else {
            i - 1
        },
    )
}

/// The weights that frame `i` is predicted with. They move as those of the other terms,
/// and stay between -1 and 1.
pub open spec fn pair_at(p: Pass, ys: Seq<i32>, i: nat) -> Pair
    decreases i,
{
    if i == 0 {
        Pair { wa: p.a.w as int, wb: p.b.w as int }
    } else {
        let j = (i - 1) as nat;
        let w = pair_at(p, ys, j);
        let fa = first_from(p.term as int, p.a.s[0] as int, ys, j as int);
        let fb = second_from(p.term as int, p.b.s[0] as int, ys, j as int);
        Pair {
            wa: held(w.wa + p.delta * (sign(fa) * sign(ys[2 * j as int] - share(w.wa, fa)))),
            wb: held(w.wb + p.delta * (sign(fb) * sign(ys[2 * j as int + 1] - share(w.wb, fb)))),
        }
    }
}

/// What is stored of frame `i`: how far the weighted predictions miss it.
pub open spec fn pair_residual(p: Pass, ys: Seq<i32>, i: int, second: bool) -> int {
    let w = pair_at(p, ys, i as nat);
    if second {
        ys[2 * i + 1] - share(w.wb, second_from(p.term as int, p.b.s[0] as int, ys, i))
    } else {
        ys[2 * i] - share(w.wa, first_from(p.term as int, p.a.s[0] as int, ys, i))
    }
}

/// Whether samples, kept ones and weights are such as are spoken of.
pub open spec fn modest_pair(p: Pass, ys: Seq<i32>) -> bool {
    &&& p.a.s.len() == 8
    &&& p.b.s.len() == 8
    &&& 0 <= p.delta <= 7
    &&& within(p.a.w as int, 1024)
    &&& within(p.b.w as int, 1024)
    &&& within(p.a.s[0] as int, sample_limit())
    &&& within(p.b.s[0] as int, sample_limit())
    &&& forall|i: int| 0 <= i < ys.len() ==> within(#[trigger] ys[i] as int, sample_limit())
}

proof fn lemma_pair_within(p: Pass, ys: Seq<i32>, i: nat)
    requires
        modest_pair(p, ys),
    ensures
        within(pair_at(p, ys, i).wa, 1024),
        within(pair_at(p, ys, i).wb, 1024),
    decreases i,
{
    if i > 0 {
        lemma_pair_within(p, ys, (i - 1) as nat);
    }
}

/// What is predicted from is modest, and what it misses can be added again.
proof fn lemma_missed(w: i32, delta: i32, f: i32, y: i32, x: i32)
    requires
        within(w as int, 1024),
        0 <= delta <= 7,
        within(f as int, sample_limit()),
        within(y as int, sample_limit()),
        x == y - share(w as int, f as int),
    ensures
        x.wrapping_add(weighted(w, f)) == y,
        adapted_clip(w, delta, f, x) == held(w + delta * (sign(f as int) * sign(x as int))),
{
    law_weighted(w, f);
    law_adapted(w, delta, f, x);
}

/// Frames whose channels are predicted from each other lose nothing: from how far the
/// weighted predictions miss them, a pass restores the samples.
pub proof fn law_pair_restored(p: Pass, ys: Seq<i32>, xs: Seq<i32>, n: nat)
    requires
        other_channel(p.term),
        modest_pair(p, ys),
        2 * n <= ys.len(),
        xs.len() == ys.len(),
        forall|i: int|
            #![trigger xs[2 * i]]
            0 <= i < ys.len() as int / 2 ==> xs[2 * i] == pair_residual(p, ys, i, false) && xs[2 * i
                + 1] == pair_residual(p, ys, i, true),
    ensures
        ({
            let h = Cross { wa: p.a.w, wb: p.b.w, ha: p.a.s[0], hb: p.b.s[0] };
            let (g, out) = cross_run(p.term, p.delta, h, xs, n);
            let w = pair_at(p, ys, n);
            &&& out == ys.take(2 * n as int)
            &&& g.wa == w.wa
            &&& g.wb == w.wb
            &&& p.term != -2 ==> g.ha == first_from(p.term as int, p.a.s[0] as int, ys, n as int)
            &&& p.term != -1 ==> g.hb == second_from(p.term as int, p.b.s[0] as int, ys, n as int)
        }),
    decreases n,
{
    let h = Cross { wa: p.a.w, wb: p.b.w, ha: p.a.s[0], hb: p.b.s[0] };
    if n == 0 {
        assert(ys.take(0) =~= Seq::empty());
    } else {
        let m = (n - 1) as nat;
        let i = m as int;
        law_pair_restored(p, ys, xs, m);
        let (g, out) = cross_run(p.term, p.delta, h, xs, m);
        lemma_pair_within(p, ys, m);
        let xa = xs[2 * i];
        let xb = xs[2 * i + 1];
        let ya = ys[2 * i];
        let yb = ys[2 * i + 1];
        assert(within(ya as int, sample_limit()) && within(yb as int, sample_limit()));
        let fa = first_from(p.term as int, p.a.s[0] as int, ys, i);
        let fb = second_from(p.term as int, p.b.s[0] as int, ys, i);
        if i > 0 {
            assert(within(ys[2 * (i - 1)] as int, sample_limit()));
            assert(within(ys[2 * (i - 1) + 1] as int, sample_limit()));
        }
        assert(xa == pair_residual(p, ys, i, false) && xb == pair_residual(p, ys, i, true));
        lemma_missed(g.wa, p.delta, fa as i32, ya, xa);
        lemma_missed(g.wb, p.delta, fb as i32, yb, xb);
        let (next, za, zb) = cross_step(p.term, p.delta, g, xa, xb);
        assert(za == ya && zb == yb);
        assert(out.push(ya).push(yb) =~= ys.take(2 * n as int));
    }
}

/// What a pass makes of the samples of one channel.
pub open spec fn mono_residuals(p: Pass, ys: Seq<i32>) -> Seq<i32> {
    Seq::new(
        ys.len(),
        |i: int| residual_at(p.term as int, p.delta as int, p.a, ys, i) as i32,
    )
}

/// What a pass makes of the samples of two channels.
pub open spec fn stereo_residuals(p: Pass, ys: Seq<i32>) -> Seq<i32> {
    Seq::new(
        ys.len(),
        |i: int|
            (if own_past(p.term) {
                residual_at(
                    p.term as int,
                    p.delta as int,
                    if i % 2 == 0 {
                        p.a
                    } else {
                        p.b
                    },
                    one_channel(ys, i % 2),
                    i / 2,
                )
            } else {
                pair_residual(p, ys, i / 2, i % 2 == 1)
            }) as i32,
    )
}

/// The samples of one of two channels.
pub open spec fn one_channel(ys: Seq<i32>, from: int) -> Seq<i32> {
    Seq::new((ys.len() / 2) as nat, |i: int| ys[2 * i + from])
}

/// Whether the residuals of a pass can be spoken of.
pub open spec fn codable(p: Pass, ys: Seq<i32>, mono: bool) -> bool {
    if mono {
        own_past(p.term) && modest(p.term as int, p.delta as int, p.a, ys)
    } else {
        &&& ys.len() % 2 == 0
        &&& own_past(p.term) ==> modest(p.term as int, p.delta as int, p.a, one_channel(ys, 0))
            && modest(p.term as int, p.delta as int, p.b, one_channel(ys, 1))
        &&& !own_past(p.term) ==> other_channel(p.term) && modest_pair(p, ys)
    }
}

proof fn lemma_residual_fits(term: i32, delta: i32, lane: Lane, ys: Seq<i32>, i: int)
    requires
        own_past(term),
        modest(term as int, delta as int, lane, ys),
        0 <= i < ys.len(),
    ensures
        within(residual_at(term as int, delta as int, lane, ys, i), 0x2000_0000),
{
    let t = term as int;
    assert(within(ys[i] as int, sample_limit()));
    assert(within(weight_at(t, delta as int, lane, ys, i as nat), weight_limit()));
    assert(forall|k: int| #![auto] 0 <= k < 8 ==> within(lane.s[k] as int, sample_limit()));
    let f = forecast(t, lane.s, ys, i);
    if t > 8 {
        let a = sample_at(t, lane.s, ys, i - 1);
        let b = sample_at(t, lane.s, ys, i - 2);
        assert(within(a, sample_limit())) by {
            if i < 1 {
                assert(within(lane.s[0] as int, sample_limit()));
            } else {
                assert(within(ys[i - 1] as int, sample_limit()));
            }
        }
        assert(within(b, sample_limit())) by {
            if i < 2 {
                assert(within(lane.s[1 - i] as int, sample_limit()));
            } else {
                assert(within(ys[i - 2] as int, sample_limit()));
            }
        }
    } else if i < t {
        assert(within(lane.s[i] as int, sample_limit()));
    } else {
        assert(within(ys[i - t] as int, sample_limit()));
    }
    assert(within(f, 3 * sample_limit()));
    law_weighted(weight_at(t, delta as int, lane, ys, i as nat) as i32, f as i32);
}

proof fn lemma_pair_fits(p: Pass, ys: Seq<i32>, i: int, second: bool)
    requires
        other_channel(p.term),
        modest_pair(p, ys),
        0 <= i < ys.len() as int / 2,
    ensures
        within(pair_residual(p, ys, i, second), 0x2000_0000),
{
    lemma_pair_within(p, ys, i as nat);
    let w = pair_at(p, ys, i as nat);
    assert(within(ys[2 * i] as int, sample_limit()));
    assert(within(ys[2 * i + 1] as int, sample_limit()));
    if i > 0 {
        assert(within(ys[2 * (i - 1)] as int, sample_limit()));
        assert(within(ys[2 * (i - 1) + 1] as int, sample_limit()));
    }
    law_weighted(w.wa as i32, first_from(p.term as int, p.a.s[0] as int, ys, i) as i32);
    law_weighted(w.wb as i32, second_from(p.term as int, p.b.s[0] as int, ys, i) as i32);
}

/// A pass over one channel restores the samples from their residuals.
pub proof fn law_mono_restored(p: Pass, ys: Seq<i32>)
    requires
        codable(p, ys, true),
    ensures
        mono_output(p, mono_residuals(p, ys)) == ys,
{
    let xs = mono_residuals(p, ys);
    assert forall|i: int| 0 <= i < xs.len() implies #[trigger] xs[i] == residual_at(
        p.term as int,
        p.delta as int,
        p.a,
        ys,
        i,
    ) by {
        lemma_residual_fits(p.term, p.delta, p.a, ys, i);
    }
    law_lane_restored(p.term, p.delta, false, p.a, ys, xs, ys.len());
    assert(ys.take(ys.len() as int) =~= ys);
}

proof fn lemma_side(p: Pass, ys: Seq<i32>, from: int)
    requires
        codable(p, ys, false),
        own_past(p.term),
        from == 0 || from == 1,
    ensures
        ({
            let lane = if from == 0 {
                p.a
            } else {
                p.b
            };
            let xs = every(stereo_residuals(p, ys), from, (ys.len() / 2) as nat);
            lane_run(p.term, p.delta, true, lane, xs, (ys.len() / 2) as nat).1 == one_channel(
                ys,
                from,
            )
        }),
{
    let lane = if from == 0 {
        p.a
    } else {
        p.b
    };
    let zs = one_channel(ys, from);
    let all = stereo_residuals(p, ys);
    let xs = every(all, from, (ys.len() / 2) as nat);
    assert forall|i: int| 0 <= i < xs.len() implies #[trigger] xs[i] == residual_at(
        p.term as int,
        p.delta as int,
        lane,
        zs,
        i,
    ) by {
        lemma_residual_fits(p.term, p.delta, lane, zs, i);
        let k = 2 * i + from;
        assert(k % 2 == from && k / 2 == i);
        assert(xs[i] == all[k]);
    }
    law_lane_restored(p.term, p.delta, true, lane, zs, xs, zs.len());
    assert(zs.take(zs.len() as int) =~= zs);
}

/// A pass over two channels restores the samples from their residuals.
pub proof fn law_stereo_restored(p: Pass, ys: Seq<i32>)
    requires
        codable(p, ys, false),
    ensures
        stereo_output(p, stereo_residuals(p, ys)) == ys,
{
    let xs = stereo_residuals(p, ys);
    let n = xs.len() / 2;
    let tail = xs.subrange(2 * n as int, xs.len() as int);
    assert(tail =~= Seq::empty());
    if own_past(p.term) {
        lemma_side(p, ys, 0);
        lemma_side(p, ys, 1);
        assert(interleaved(one_channel(ys, 0), one_channel(ys, 1)) + tail =~= ys);
    } else {
        assert forall|i: int|
            #![trigger xs[2 * i]]
            0 <= i < ys.len() as int / 2 implies xs[2 * i] == pair_residual(p, ys, i, false)
            && xs[2 * i + 1] == pair_residual(p, ys, i, true) by {
            lemma_pair_fits(p, ys, i, false);
            lemma_pair_fits(p, ys, i, true);
            assert((2 * i) / 2 == i && (2 * i) % 2 == 0);
            assert((2 * i + 1) / 2 == i && (2 * i + 1) % 2 == 1);
        }
        law_pair_restored(p, ys, xs, n);
        assert(ys.take(2 * n as int) + tail =~= ys);
    }
}

} // verus!
