//! What a WavPack block is decoded with, as an encoder writes it: the terms, the weights,
//! the kept samples and the medians.

use super::decorr::{exp2s, own_past, other_channel, weight_of, Lane, Pass};
use super::forecast::{codable, lemma_shifts, within};
use super::parts::{
    history, load_back, load_pass, load_passes, pass_of, passes_of, stored_medians, stored_sample,
    with_weights,
};
use super::stream::{after_passes, unjoined};
use super::words::Medians;
use crate::bytes::{law_low_first_read, lemma_stands_parts, low_first, stands};
use crate::error::Fault;
use vstd::prelude::*;

verus! {

/// What a pass makes of samples.
pub open spec fn residuals(p: Pass, ys: Seq<i32>, mono: bool) -> Seq<i32> {
    if mono {
        super::forecast::mono_residuals(p, ys)
    } else {
        super::forecast::stereo_residuals(p, ys)
    }
}

/// What the first `k` passes make of samples, the last of them first.
pub open spec fn undone(ps: Seq<Pass>, ys: Seq<i32>, mono: bool, k: nat) -> Seq<i32>
    decreases k,
{
    if k == 0 {
        ys
    } else {
        undone(ps, residuals(ps[k - 1], ys, mono), mono, (k - 1) as nat)
    }
}

/// Whether all of this can be spoken of.
pub open spec fn all_codable(ps: Seq<Pass>, ys: Seq<i32>, mono: bool, k: nat) -> bool
    decreases k,
{
    k > 0 ==> {
        &&& codable(ps[k - 1], ys, mono)
        &&& all_codable(ps, residuals(ps[k - 1], ys, mono), mono, (k - 1) as nat)
    }
}

/// Decorrelation loses nothing: the passes restore the samples that residuals were made
/// of.
pub proof fn law_passes_restore(ps: Seq<Pass>, ys: Seq<i32>, mono: bool, k: nat)
    requires
        k <= ps.len(),
        all_codable(ps, ys, mono, k),
    ensures
        after_passes(ps, undone(ps, ys, mono, k), mono, k) == ys,
        undone(ps, ys, mono, k).len() == ys.len(),
    decreases k,
{
    if k > 0 {
        let xs = residuals(ps[k - 1], ys, mono);
        law_passes_restore(ps, xs, mono, (k - 1) as nat);
        if mono {
            super::forecast::law_mono_restored(ps[k - 1], ys);
        } else {
            super::forecast::law_stereo_restored(ps[k - 1], ys);
        }
    }
}

/// Left and right as their difference and their middle, rounded down.
pub open spec fn joint(ys: Seq<i32>) -> Seq<i32> {
    Seq::new(
        ys.len(),
        |i: int|
            {
                let left = ys[i / 2 * 2];
                let right = ys[i / 2 * 2 + 1];
                if i % 2 == 0 {
                    (left - right) as i32
                } else {
                    ((left + right) / 2) as i32
                }
            },
    )
}

/// Joint stereo loses nothing: the difference and the middle of left and right are turned
/// into them again.
pub proof fn law_joint_undone(ys: Seq<i32>)
    requires
        ys.len() % 2 == 0,
        forall|i: int| 0 <= i < ys.len() ==> within(#[trigger] ys[i] as int, 0x3FFF_FFFF),
    ensures
        unjoined(joint(ys)) == ys,
{
    let xs = joint(ys);
    assert forall|i: int| 0 <= i < ys.len() implies #[trigger] unjoined(xs)[i] == ys[i] by {
        let k = i / 2 * 2;
        let left = ys[k];
        let right = ys[k + 1];
        assert(k / 2 * 2 == k && k % 2 == 0 && (k + 1) / 2 * 2 == k && (k + 1) % 2 == 1);
        let d = xs[k];
        let m = xs[k + 1];
        assert(d == left - right);
        assert(m == (left + right) / 2);
        lemma_shifts(d);
        assert(m - d / 2 == right);
        assert(i == k || i == k + 1);
    }
    assert(unjoined(xs) =~= ys);
}

/// Whether a stored byte stands for a weight: 127 for one, and the others in proportion,
/// to the nearest 1024th; negative ones and zero in steps of a 128th.
pub open spec fn stands_for(b: i8, w: int) -> bool {
    if b > 0 {
        -127 <= 2 * (127 * w - 1024 * b) <= 127
    } else {
        w == 8 * b
    }
}

/// The weight that a byte stands for is read.
pub proof fn law_weight_read(b: i8, w: int)
    ensures
        stands_for(b, w) <==> weight_of(b) == w,
{
}

/// The terms as they are written: from the last pass to the first, each with its rate.
pub open spec fn terms_row(ps: Seq<Pass>) -> Seq<u8> {
    Seq::new(
        ps.len(),
        |j: int|
            {
                let p = ps[ps.len() - 1 - j];
                (p.term + 5 + 32 * p.delta) as u8
            },
    )
}

/// The weights as they are written, in bytes: from the last pass to the first, the
/// one of the first channel and then, for two channels, the one of the second.
pub open spec fn weights_row(ws: Seq<(i8, i8)>, mono: bool) -> Seq<u8>
    decreases ws.len(),
{
    if ws.len() == 0 {
        Seq::empty()
    } else {
        let (wa, wb) = ws.last();
        (if mono {
            seq![wa as u8]
        } else {
            seq![wa as u8, wb as u8]
        }) + weights_row(ws.drop_last(), mono)
    }
}

/// Whether a pass can be written, with its weights in bytes. For one channel the second
/// has no history.
pub open spec fn storable(p: Pass, w: (i8, i8), mono: bool) -> bool {
    &&& own_past(p.term) || other_channel(p.term) && !mono
    &&& 0 <= p.delta <= 7
    &&& stands_for(w.0, p.a.w as int)
    &&& if mono {
        p.b.w == 0
    } else {
        stands_for(w.1, p.b.w as int)
    }
}

/// A lane with nothing kept.
pub open spec fn bare(lane: Lane) -> Lane {
    Lane { s: Seq::new(8, |i: int| 0i32), ..lane }
}

/// A pass with nothing kept.
pub open spec fn bare_pass(p: Pass) -> Pass {
    Pass { a: bare(p.a), b: bare(p.b), ..p }
}

/// Passes with nothing kept.
pub open spec fn bare_passes(ps: Seq<Pass>) -> Seq<Pass> {
    Seq::new(ps.len(), |i: int| bare_pass(ps[i]))
}

/// Passes without weights and with nothing kept.
pub open spec fn plain_passes(ps: Seq<Pass>) -> Seq<Pass> {
    Seq::new(
        ps.len(),
        |i: int|
            {
                let none = Lane { w: 0, s: Seq::new(8, |i: int| 0i32) };
                Pass { a: none, b: none, ..ps[i] }
            },
    )
}

proof fn lemma_signed(b: i8)
    ensures
        (b as u8) as i8 == b,
{
    assert((b as u8) as i8 == b) by (bit_vector);
}

proof fn lemma_terms(ps: Seq<Pass>, ws: Seq<(i8, i8)>, mono: bool)
    requires
        ws.len() == ps.len(),
        forall|i: int| 0 <= i < ps.len() ==> storable(#[trigger] ps[i], ws[i], mono),
    ensures
        passes_of(terms_row(ps), mono) == Ok::<Seq<Pass>, Fault>(plain_passes(ps)),
    decreases ps.len(),
{
    let row = terms_row(ps);
    if ps.len() == 0 {
        assert(plain_passes(ps) =~= Seq::empty());
    } else {
        let before = ps.drop_last();
        let p = ps.last();
        assert(storable(ps[ps.len() - 1], ws[ps.len() - 1], mono));
        assert forall|i: int| 0 <= i < before.len() implies storable(
            #[trigger] before[i],
            ws.drop_last()[i],
            mono,
        ) by {
            assert(storable(ps[i], ws[i], mono));
        }
        lemma_terms(before, ws.drop_last(), mono);
        assert(row.drop_first() =~= terms_row(before));
        let b = row[0];
        assert(b == p.term + 5 + 32 * p.delta);
        assert(pass_of(b).term == p.term && pass_of(b).delta == p.delta);
        assert(plain_passes(before).push(pass_of(b)) =~= plain_passes(ps));
    }
}

proof fn lemma_weight_places(ws: Seq<(i8, i8)>, mono: bool)
    ensures
        weights_row(ws, mono).len() == (if mono {
            ws.len()
        } else {
            2 * ws.len()
        }),
        forall|j: int|
            #![trigger ws[j]]
            0 <= j < ws.len() ==> {
                let k = ws.len() - 1 - j;
                if mono {
                    weights_row(ws, mono)[k] == ws[j].0 as u8
                } else {
                    weights_row(ws, mono)[2 * k] == ws[j].0 as u8 && weights_row(ws, mono)[2 * k
                        + 1] == ws[j].1 as u8
                }
            },
    decreases ws.len(),
{
    if ws.len() > 0 {
        let before = ws.drop_last();
        lemma_weight_places(before, mono);
        let row = weights_row(ws, mono);
        let later = weights_row(before, mono);
        assert forall|j: int|
            #![trigger ws[j]]
            0 <= j < ws.len() implies {
            let k = ws.len() - 1 - j;
            if mono {
                row[k] == ws[j].0 as u8
            } else {
                row[2 * k] == ws[j].0 as u8 && row[2 * k + 1] == ws[j].1 as u8
            }
        } by {
            let k = ws.len() - 1 - j;
            if j < before.len() {
                assert(before[j] == ws[j]);
                if mono {
                    assert(row[k] == later[k - 1]);
                } else {
                    assert(row[2 * k] == later[2 * (k - 1)]);
                    assert(row[2 * k + 1] == later[2 * (k - 1) + 1]);
                }
            }
        }
    }
}

/// Terms and weights that are written are read: of the stored weights, which run from the
/// last pass to the first, each is that of its pass, and of two the first is that of the
/// first channel.
pub proof fn law_weights_read(ps: Seq<Pass>, ws: Seq<(i8, i8)>, mono: bool)
    requires
        ws.len() == ps.len(),
        forall|i: int| 0 <= i < ps.len() ==> storable(#[trigger] ps[i], ws[i], mono),
    ensures
        history(terms_row(ps), Some(weights_row(ws, mono)), None, mono) == Ok::<Seq<Pass>, Fault>(
            bare_passes(ps),
        ),
        with_weights(plain_passes(ps), weights_row(ws, mono), mono) == bare_passes(ps),
{
    lemma_terms(ps, ws, mono);
    lemma_weight_places(ws, mono);
    let row = weights_row(ws, mono);
    let read = with_weights(plain_passes(ps), row, mono);
    assert forall|j: int| 0 <= j < ps.len() implies #[trigger] read[j] == bare_passes(ps)[j] by {
        let k = ps.len() - 1 - j;
        assert(storable(ps[j], ws[j], mono));
        lemma_signed(ws[j].0);
        lemma_signed(ws[j].1);
        law_weight_read(ws[j].0, ps[j].a.w as int);
        law_weight_read(ws[j].1, ps[j].b.w as int);
        assert(read[j] =~= bare_passes(ps)[j]);
    }
    assert(read =~= bare_passes(ps));
}

/// What is kept of a channel, as the logarithms that are stored.
pub struct Kept {
    /// Those of the first channel.
    pub a: Seq<i16>,
    /// Those of the second channel.
    pub b: Seq<i16>,
}

/// How many samples of a channel a term keeps.
pub open spec fn kept_count(term: int) -> nat {
    if term > 8 {
        2
    } else if term < 0 {
        1
    } else {
        term as nat
    }
}

/// Logarithms in the order in which they are written: for terms that look back, channels
/// in turn; for the others, one channel behind the other.
pub open spec fn kept_row(term: int, k: Kept, mono: bool) -> Seq<i16> {
    if mono {
        k.a
    } else if term > 8 {
        k.a + k.b
    } else {
        Seq::new(
            2 * k.a.len(),
            |i: int|
                if i % 2 == 0 {
                    k.a[i / 2]
                } else {
                    k.b[i / 2]
                },
        )
    }
}

/// Logarithms as bytes.
pub open spec fn logs_row(logs: Seq<i16>) -> Seq<u8>
    decreases logs.len(),
{
    if logs.len() == 0 {
        Seq::empty()
    } else {
        logs_row(logs.drop_last()) + low_first((logs.last() as u16) as nat, 2)
    }
}

/// The kept samples as they are written, from the last pass to the first.
pub open spec fn samples_row(ps: Seq<Pass>, ks: Seq<Kept>, mono: bool) -> Seq<u8>
    decreases ps.len(),
{
    if ps.len() == 0 {
        Seq::empty()
    } else {
        logs_row(kept_row(ps.last().term as int, ks.last(), mono)) + samples_row(
            ps.drop_last(),
            ks.drop_last(),
            mono,
        )
    }
}

/// Whether a lane keeps what logarithms stand for, and else nothing.
pub open spec fn lane_keeps(s: Seq<i32>, logs: Seq<i16>) -> bool {
    &&& s.len() == 8
    &&& logs.len() <= 8
    &&& forall|i: int|
        0 <= i < 8 ==> #[trigger] s[i] == (if i < logs.len() {
            exp2s(logs[i] as i32)
        } else {
            0
        })
}

/// Whether a pass keeps what logarithms stand for.
pub open spec fn pass_keeps(p: Pass, k: Kept, mono: bool) -> bool {
    &&& lane_keeps(p.a.s, k.a)
    &&& lane_keeps(p.b.s, k.b)
    &&& k.a.len() == kept_count(p.term as int)
    &&& k.b.len() == (if mono {
        0
    } else {
        kept_count(p.term as int)
    })
}

proof fn lemma_log_at(data: Seq<u8>, pos: int, logs: Seq<i16>, i: int)
    requires
        stands(data, pos, logs_row(logs)),
        0 <= i < logs.len(),
    ensures
        stored_sample(data, pos + 2 * i) == exp2s(logs[i] as i32),
        logs_row(logs).len() == 2 * logs.len(),
        pos + 2 * logs.len() <= data.len(),
    decreases logs.len(),
{
    let before = logs.drop_last();
    let v = logs.last();
    lemma_logs_len(logs);
    lemma_logs_len(before);
    law_low_first_read(data, pos + 2 * before.len(), (v as u16) as nat);
    lemma_stands_parts(data, pos, logs_row(before), low_first((v as u16) as nat, 2));
    if i < before.len() {
        lemma_log_at(data, pos, before, i);
    } else {
        assert((v as u16) as i16 == v) by (bit_vector);
    }
}

proof fn lemma_logs_len(logs: Seq<i16>)
    ensures
        logs_row(logs).len() == 2 * logs.len(),
    decreases logs.len(),
{
    if logs.len() > 0 {
        lemma_logs_len(logs.drop_last());
        law_low_first_read(Seq::empty(), 0, (logs.last() as u16) as nat);
    }
}

/// A lane of which the first `m` samples are loaded.
pub open spec fn partly(lane: Lane, m: int) -> Lane {
    Lane {
        s: Seq::new(
            8,
            |i: int|
                if i < m {
                    lane.s[i]
                } else {
                    0
                },
        ),
        ..lane
    }
}

proof fn lemma_load_back(p: Pass, k: Kept, data: Seq<u8>, pos: int, mono: bool, m: int)
    requires
        1 <= p.term <= 8,
        0 <= m <= p.term,
        pass_keeps(p, k, mono),
        stands(data, pos, logs_row(kept_row(p.term as int, k, mono))),
    ensures
        ({
            let width = if mono {
                2int
            } else {
                4
            };
            load_back(
                Pass {
                    a: partly(p.a, m),
                    b: if mono {
                        p.b
                    } else {
                        partly(p.b, m)
                    },
                    ..p
                },
                data,
                pos + width * m,
                mono,
                m,
            ) == (p, pos + width * p.term, true)
        }),
    decreases p.term - m,
{
    let row = kept_row(p.term as int, k, mono);
    let width = if mono {
        2int
    } else {
        4
    };
    let q = Pass {
        a: partly(p.a, m),
        b: if mono {
            p.b
        } else {
            partly(p.b, m)
        },
        ..p
    };
    if m == p.term {
        assert(partly(p.a, m).s =~= p.a.s);
        assert(!mono ==> partly(p.b, m).s =~= p.b.s);
        assert(q == p);
    } else {
        lemma_load_back(p, k, data, pos, mono, m + 1);
        assert(p.a.s[m] == exp2s(k.a[m] as i32));
        if mono {
            lemma_log_at(data, pos, row, m);
        } else {
            lemma_log_at(data, pos, row, 2 * m);
            lemma_log_at(data, pos, row, 2 * m + 1);
            assert((2 * m) % 2 == 0 && (2 * m) / 2 == m && (2 * m + 1) % 2 == 1 && (2 * m + 1) / 2
                == m);
            assert(p.b.s[m] == exp2s(k.b[m] as i32));
            assert(partly(p.b, m).s.update(m, p.b.s[m]) =~= partly(p.b, m + 1).s);
        }
        assert(partly(p.a, m).s.update(m, p.a.s[m]) =~= partly(p.a, m + 1).s);
    }
}

#[verifier::spinoff_prover]
#[verifier::rlimit(80)]
proof fn lemma_load_pass(p: Pass, k: Kept, data: Seq<u8>, pos: int, mono: bool)
    requires
        own_past(p.term) || other_channel(p.term) && !mono,
        pass_keeps(p, k, mono),
        stands(data, pos, logs_row(kept_row(p.term as int, k, mono))),
    ensures
        load_pass(bare_pass(p), data, pos, mono) == (
            p,
            pos + logs_row(kept_row(p.term as int, k, mono)).len(),
            true,
        ),
{
    let row = kept_row(p.term as int, k, mono);
    lemma_logs_len(row);
    let zero = Seq::new(8, |i: int| 0i32);
    if p.term > 8 {
        lemma_log_at(data, pos, row, 0);
        lemma_log_at(data, pos, row, 1);
        assert(p.a.s[0] == exp2s(k.a[0] as i32) && p.a.s[1] == exp2s(k.a[1] as i32));
        assert(zero.update(0, p.a.s[0]).update(1, p.a.s[1]) =~= p.a.s);
        if !mono {
            lemma_log_at(data, pos, row, 2);
            lemma_log_at(data, pos, row, 3);
            assert(p.b.s[0] == exp2s(k.b[0] as i32) && p.b.s[1] == exp2s(k.b[1] as i32));
            assert(zero.update(0, p.b.s[0]).update(1, p.b.s[1]) =~= p.b.s);
        } else {
            assert(zero =~= p.b.s);
        }
    } else if p.term < 0 {
        lemma_log_at(data, pos, row, 0);
        lemma_log_at(data, pos, row, 1);
        assert(p.a.s[0] == exp2s(k.a[0] as i32) && p.b.s[0] == exp2s(k.b[0] as i32));
        assert(zero.update(0, p.a.s[0]) =~= p.a.s);
        assert(zero.update(0, p.b.s[0]) =~= p.b.s);
    } else {
        lemma_load_back(p, k, data, pos, mono, 0);
        assert(partly(p.a, 0).s =~= zero);
        assert(partly(p.b, 0).s =~= zero);
        assert(mono ==> p.b.s =~= zero);
    }
}

/// Passes of which those from `k` on are loaded.
pub open spec fn loaded_from(ps: Seq<Pass>, k: int) -> Seq<Pass> {
    Seq::new(
        ps.len(),
        |i: int|
            if i < k {
                bare_pass(ps[i])
            } else {
                ps[i]
            },
    )
}

/// Whether the kept samples of a pass can be written.
pub open spec fn loadable(p: Pass, k: Kept, mono: bool) -> bool {
    &&& own_past(p.term) || other_channel(p.term) && !mono
    &&& pass_keeps(p, k, mono)
}

proof fn lemma_load_passes(
    ps: Seq<Pass>,
    ks: Seq<Kept>,
    data: Seq<u8>,
    pos: int,
    mono: bool,
    k: nat,
)
    requires
        ks.len() == ps.len(),
        k <= ps.len(),
        forall|i: int| 0 <= i < ps.len() ==> #[trigger] loadable(ps[i], ks[i], mono),
        stands(data, pos, samples_row(ps.take(k as int), ks.take(k as int), mono)),
    ensures
        load_passes(loaded_from(ps, k as int), data, pos, mono, k) == (
            ps,
            pos + samples_row(ps.take(k as int), ks.take(k as int), mono).len(),
        ),
    decreases k,
{
    if k == 0 {
        assert(loaded_from(ps, 0) =~= ps);
        assert(samples_row(ps.take(0), ks.take(0), mono).len() == 0);
    } else {
        let j = k - 1;
        let pt = ps.take(k as int);
        let kt = ks.take(k as int);
        assert(pt.drop_last() =~= ps.take(j));
        assert(kt.drop_last() =~= ks.take(j));
        assert(pt.last() == ps[j] && kt.last() == ks[j]);
        let first = logs_row(kept_row(ps[j].term as int, ks[j], mono));
        let rest = samples_row(ps.take(j), ks.take(j), mono);
        assert(samples_row(pt, kt, mono) == first + rest);
        lemma_stands_parts(data, pos, first, rest);
        assert(loadable(ps[j], ks[j], mono));
        lemma_load_pass(ps[j], ks[j], data, pos, mono);
        let now = loaded_from(ps, k as int);
        assert(now[j] == bare_pass(ps[j]));
        assert(now.update(j, ps[j]) =~= loaded_from(ps, j));
        lemma_load_passes(ps, ks, data, pos + first.len(), mono, j as nat);
        assert(load_passes(now, data, pos, mono, k) == load_passes(
            loaded_from(ps, j),
            data,
            pos + first.len(),
            mono,
            j as nat,
        ));
    }
}

/// Passes that are written are read, with their weights and with what they keep of the
/// samples before the block.
pub proof fn law_history_read(ps: Seq<Pass>, ws: Seq<(i8, i8)>, ks: Seq<Kept>, mono: bool)
    requires
        ws.len() == ps.len(),
        ks.len() == ps.len(),
        forall|i: int|
            0 <= i < ps.len() ==> storable(#[trigger] ps[i], ws[i], mono) && pass_keeps(
                ps[i],
                ks[i],
                mono,
            ),
    ensures
        history(
            terms_row(ps),
            Some(weights_row(ws, mono)),
            Some(samples_row(ps, ks, mono)),
            mono,
        ) == Ok::<Seq<Pass>, Fault>(ps),
{
    lemma_terms(ps, ws, mono);
    law_weights_read(ps, ws, mono);
    lemma_weight_places(ws, mono);
    let data = samples_row(ps, ks, mono);
    assert(ps.take(ps.len() as int) =~= ps);
    assert(ks.take(ks.len() as int) =~= ks);
    assert(stands(data, 0, data));
    assert forall|i: int| 0 <= i < ps.len() implies #[trigger] loadable(ps[i], ks[i], mono) by {
        assert(storable(ps[i], ws[i], mono));
    }
    lemma_load_passes(ps, ks, data, 0, mono, ps.len());
    assert(loaded_from(ps, ps.len() as int) =~= bare_passes(ps));
}

/// The medians of a channel as they are written, in logarithms.
pub open spec fn medians_row(a: nat, b: nat, c: nat) -> Seq<u8> {
    low_first(a, 2) + (low_first(b, 2) + low_first(c, 2))
}

/// Medians that are written are read.
pub proof fn law_medians_read(data: Seq<u8>, at: int, a: nat, b: nat, c: nat)
    requires
        a < 0x1_0000,
        b < 0x1_0000,
        c < 0x1_0000,
        stands(data, at, medians_row(a, b, c)),
    ensures
        stored_medians(data, at) == (Medians {
            m0: exp2s(a as i32) as u32,
            m1: exp2s(b as i32) as u32,
            m2: exp2s(c as i32) as u32,
        }),
        medians_row(a, b, c).len() == 6,
{
    law_low_first_read(data, at, a);
    law_low_first_read(data, at + 2, b);
    law_low_first_read(data, at + 4, c);
    lemma_stands_parts(data, at, low_first(a, 2), low_first(b, 2) + low_first(c, 2));
    lemma_stands_parts(data, at + 2, low_first(b, 2), low_first(c, 2));
}

} // verus!
