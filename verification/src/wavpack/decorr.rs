//! Inverse decorrelation of a WavPack block: each sample is predicted from
//! earlier ones by an adaptive weight, and the stored residual is added.

use vstd::prelude::*;

verus! {

/// The fractions of the powers of two between one and two, in 256ths.
pub const EXP2_TABLE: [u8; 256] = [
    0x00, 0x01, 0x01, 0x02, 0x03, 0x03, 0x04, 0x05, 0x06, 0x06, 0x07, 0x08,
    0x08, 0x09, 0x0a, 0x0b, 0x0b, 0x0c, 0x0d, 0x0e, 0x0e, 0x0f, 0x10, 0x10,
    0x11, 0x12, 0x13, 0x13, 0x14, 0x15, 0x16, 0x16, 0x17, 0x18, 0x19, 0x19,
    0x1a, 0x1b, 0x1c, 0x1d, 0x1d, 0x1e, 0x1f, 0x20, 0x20, 0x21, 0x22, 0x23,
    0x24, 0x24, 0x25, 0x26, 0x27, 0x28, 0x28, 0x29, 0x2a, 0x2b, 0x2c, 0x2c,
    0x2d, 0x2e, 0x2f, 0x30, 0x30, 0x31, 0x32, 0x33, 0x34, 0x35, 0x35, 0x36,
    0x37, 0x38, 0x39, 0x3a, 0x3a, 0x3b, 0x3c, 0x3d, 0x3e, 0x3f, 0x40, 0x41,
    0x41, 0x42, 0x43, 0x44, 0x45, 0x46, 0x47, 0x48, 0x48, 0x49, 0x4a, 0x4b,
    0x4c, 0x4d, 0x4e, 0x4f, 0x50, 0x51, 0x51, 0x52, 0x53, 0x54, 0x55, 0x56,
    0x57, 0x58, 0x59, 0x5a, 0x5b, 0x5c, 0x5d, 0x5e, 0x5e, 0x5f, 0x60, 0x61,
    0x62, 0x63, 0x64, 0x65, 0x66, 0x67, 0x68, 0x69, 0x6a, 0x6b, 0x6c, 0x6d,
    0x6e, 0x6f, 0x70, 0x71, 0x72, 0x73, 0x74, 0x75, 0x76, 0x77, 0x78, 0x79,
    0x7a, 0x7b, 0x7c, 0x7d, 0x7e, 0x7f, 0x80, 0x81, 0x82, 0x83, 0x84, 0x85,
    0x87, 0x88, 0x89, 0x8a, 0x8b, 0x8c, 0x8d, 0x8e, 0x8f, 0x90, 0x91, 0x92,
    0x93, 0x95, 0x96, 0x97, 0x98, 0x99, 0x9a, 0x9b, 0x9c, 0x9d, 0x9f, 0xa0,
    0xa1, 0xa2, 0xa3, 0xa4, 0xa5, 0xa6, 0xa8, 0xa9, 0xaa, 0xab, 0xac, 0xad,
    0xaf, 0xb0, 0xb1, 0xb2, 0xb3, 0xb4, 0xb6, 0xb7, 0xb8, 0xb9, 0xba, 0xbc,
    0xbd, 0xbe, 0xbf, 0xc0, 0xc2, 0xc3, 0xc4, 0xc5, 0xc6, 0xc8, 0xc9, 0xca,
    0xcb, 0xcd, 0xce, 0xcf, 0xd0, 0xd2, 0xd3, 0xd4, 0xd6, 0xd7, 0xd8, 0xd9,
    0xdb, 0xdc, 0xdd, 0xde, 0xe0, 0xe1, 0xe2, 0xe4, 0xe5, 0xe6, 0xe8, 0xe9,
    0xea, 0xec, 0xed, 0xee, 0xf0, 0xf1, 0xf2, 0xf4, 0xf5, 0xf6, 0xf8, 0xf9,
    0xfa, 0xfc, 0xfd, 0xff,
];

/// The power of two whose exponent is `log` in 256ths, for `log` from zero on.
/// Large exponents wrap.
pub open spec fn exp2_of(log: int) -> i32 {
    let mantissa = (0x100 + EXP2_TABLE[log % 256] as int) as u32;
    let e = log / 256;
    if e <= 9 {
        (mantissa >> ((9 - e) as u32)) as i32
    } else {
        (mantissa << (((e - 9) % 32) as u32)) as i32
    }
}

/// The signed value that a stored logarithm stands for.
pub open spec fn exp2s(log: i32) -> i32 {
    if log < 0 {
        0i32.wrapping_sub(exp2_of(-log))
    } else {
        exp2_of(log as int)
    }
}

/// Expands a stored logarithm.
pub fn wp_exp2s(log: i32) -> (v: i32)
    requires
        log > i32::MIN,
    ensures
        v == exp2s(log),
{
    let magnitude: i32 = if log < 0 {
        -log
    } else {
        log
    };
    let mantissa: u32 = EXP2_TABLE[(magnitude % 256) as usize] as u32 + 0x100;
    let e: i32 = magnitude / 256;
    let v: i32 = if e <= 9 {
        (mantissa >> ((9 - e) as u32)) as i32
    } else {
        (mantissa << (((e - 9) % 32) as u32)) as i32
    };
    if log < 0 {
        0i32.wrapping_sub(v)
    } else {
        v
    }
}

/// The weight that a stored byte stands for.
pub open spec fn weight_of(w: i8) -> int {
    if w > 0 {
        8 * w + (8 * w + 64) / 128
    } else {
        8 * w
    }
}

/// Expands a stored weight.
pub fn restore_weight(w: i8) -> (r: i32)
    ensures
        r == weight_of(w),
        -1024 <= r <= 1024,
{
    let r: i32 = w as i32 * 8;
    if r > 0 {
        r + (r + 64) / 128
    } else {
        r
    }
}

/// A prediction times its weight over 1024, rounded. Predictions of more than
/// 16 bits are multiplied in two halves.
pub open spec fn weighted(w: i32, sam: i32) -> i32 {
    if sam != (sam as i16) as i32 {
        (((sam & 0xFFFF).wrapping_mul(w) >> 9).wrapping_add(
            ((sam & !0xFFFF) >> 9).wrapping_mul(w),
        ).wrapping_add(1)) >> 1
    } else {
        w.wrapping_mul(sam).wrapping_add(512) >> 10
    }
}

/// Applies a weight.
pub fn apply_weight(w: i32, sam: i32) -> (r: i32)
    ensures
        r == weighted(w, sam),
{
    if sam != (sam as i16) as i32 {
        (((sam & 0xFFFF).wrapping_mul(w) >> 9).wrapping_add(
            ((sam & !0xFFFF) >> 9).wrapping_mul(w),
        ).wrapping_add(1)) >> 1
    } else {
        w.wrapping_mul(sam).wrapping_add(512) >> 10
    }
}

/// For a weight of at most one and a prediction of 16 bits, the weighted
/// prediction is the product over 1024, rounded to the nearest integer.
pub proof fn law_weight_rounds(w: i32, sam: i32)
    requires
        -1024 <= w <= 1024,
        -32768 <= sam <= 32767,
    ensures
        weighted(w, sam) == (w * sam + 512) / 1024,
{
    assert(sam == (sam as i16) as i32) by (bit_vector)
        requires
            -32768 <= sam <= 32767,
    ;
    assert(-1024 * 32768 <= w * sam <= 1024 * 32768) by (nonlinear_arith)
        requires
            -1024 <= w <= 1024,
            -32768 <= sam <= 32767,
    ;
    let y = w.wrapping_mul(sam).wrapping_add(512);
    assert(y >> 10 == y / 1024) by (bit_vector);
}

/// Whether the weight moves up (`Some(true)`), down or not at all: up where
/// the prediction and the residual have one sign.
pub open spec fn tendency(source: i32, result: i32) -> Option<bool> {
    if source == 0 || result == 0 {
        None
    } else {
        Some((source < 0) == (result < 0))
    }
}

/// A weight after a sample.
pub open spec fn adapted(w: i32, delta: i32, source: i32, result: i32) -> i32 {
    match tendency(source, result) {
        None => w,
        Some(true) => w.wrapping_add(delta),
        Some(false) => w.wrapping_sub(delta),
    }
}

/// A weight held between -1 and 1, in 1024ths.
pub open spec fn clipped(w: int) -> int {
    if w < -1024 {
        -1024
    } else if w > 1024 {
        1024
    } else {
        w
    }
}

/// A weight after a sample, kept between -1 and 1.
pub open spec fn adapted_clip(w: i32, delta: i32, source: i32, result: i32) -> i32 {
    match tendency(source, result) {
        None => w,
        Some(true) => clipped(w.wrapping_add(delta) as int) as i32,
        Some(false) => (-clipped(delta.wrapping_sub(w) as int)) as i32,
    }
}

/// Updates a weight.
pub fn update_weight(w: &mut i32, delta: i32, source: i32, result: i32)
    ensures
        *final(w) == adapted(*old(w), delta, source, result),
{
    if source != 0 && result != 0 {
        if (source < 0) == (result < 0) {
            *w = w.wrapping_add(delta);
        } else {
            *w = w.wrapping_sub(delta);
        }
    }
}

/// Updates a weight and keeps it between -1 and 1.
pub fn update_weight_clip(w: &mut i32, delta: i32, source: i32, result: i32)
    ensures
        *final(w) == adapted_clip(*old(w), delta, source, result),
{
    if source != 0 && result != 0 {
        let same: bool = (source < 0) == (result < 0);
        let moved: i32 = if same {
            w.wrapping_add(delta)
        } else {
            delta.wrapping_sub(*w)
        };
        let kept: i32 = if moved < -1024 {
            -1024
        } else if moved > 1024 {
            1024
        } else {
            moved
        };
        *w = if same {
            kept
        } else {
            -kept
        };
    }
}

/// A weight between -1 and 1 stays there under the clipping update, and every
/// weight that it moves lands there.
pub proof fn law_clip_stays(w: i32, delta: i32, source: i32, result: i32)
    ensures
        -1024 <= w <= 1024 || tendency(source, result) is Some ==> -1024 <= adapted_clip(
            w,
            delta,
            source,
            result,
        ) <= 1024,
{
}

/// The history of one channel: its weight and the samples kept.
pub struct Lane {
    /// The weight.
    pub w: i32,
    /// Eight kept samples.
    pub s: Seq<i32>,
}

/// The prediction for sample `i`. Term 17 continues the last two samples
/// straight, term 18 half so; terms 1 to 8 look that many samples back.
pub open spec fn predicted(term: i32, stereo: bool, lane: Lane, i: int) -> i32 {
    if term == 17 {
        2i32.wrapping_mul(lane.s[0]).wrapping_sub(lane.s[1])
    } else if term == 18 {
        if stereo {
            lane.s[0].wrapping_add(lane.s[0].wrapping_sub(lane.s[1]) >> 1)
        } else {
            3i32.wrapping_mul(lane.s[0]).wrapping_sub(lane.s[1]) >> 1
        }
    } else {
        lane.s[i % 8]
    }
}

/// The sample behind residual `x`.
pub open spec fn restored(term: i32, stereo: bool, lane: Lane, i: int, x: i32) -> i32 {
    weighted(lane.w, predicted(term, stereo, lane, i)).wrapping_add(x)
}

/// The history after sample `y` with residual `x`.
pub open spec fn lane_after(
    term: i32,
    delta: i32,
    stereo: bool,
    lane: Lane,
    i: int,
    x: i32,
    y: i32,
) -> Lane {
    Lane {
        w: adapted(lane.w, delta, predicted(term, stereo, lane, i), x),
        s: if term == 17 || term == 18 {
            lane.s.update(0, y).update(1, lane.s[0])
        } else {
            lane.s.update((i + term) % 8, y)
        },
    }
}

/// The samples behind the first `n` residuals of a channel, and the history
/// after them.
pub open spec fn lane_run(
    term: i32,
    delta: i32,
    stereo: bool,
    lane: Lane,
    xs: Seq<i32>,
    n: nat,
) -> (Lane, Seq<i32>)
    decreases n,
{
    if n == 0 {
        (lane, Seq::empty())
    } else {
        let i = (n - 1) as nat;
        let (h, ys) = lane_run(term, delta, stereo, lane, xs, i);
        let y = restored(term, stereo, h, i as int, xs[i as int]);
        (lane_after(term, delta, stereo, h, i as int, xs[i as int], y), ys.push(y))
    }
}

/// Both histories of a term that predicts one channel from the other.
#[derive(Clone, Copy)]
pub struct Cross {
    /// The weight of the first channel.
    pub wa: i32,
    /// The weight of the second channel.
    pub wb: i32,
    /// The sample that the first channel is predicted from.
    pub ha: i32,
    /// The sample that the second channel is predicted from.
    pub hb: i32,
}

/// The frame behind a pair of residuals, and the histories after it. Term -1
/// predicts the second channel from the new first sample, term -2 the first
/// from the new second, term -3 each from the other's last.
pub open spec fn cross_step(term: i32, delta: i32, h: Cross, xa: i32, xb: i32) -> (
    Cross,
    i32,
    i32,
) {
    if term == -1 {
        let ya = xa.wrapping_add(weighted(h.wa, h.ha));
        let yb = xb.wrapping_add(weighted(h.wb, ya));
        (
            Cross {
                wa: adapted_clip(h.wa, delta, h.ha, xa),
                wb: adapted_clip(h.wb, delta, ya, xb),
                ha: yb,
                hb: h.hb,
            },
            ya,
            yb,
        )
    } else if term == -2 {
        let yb = xb.wrapping_add(weighted(h.wb, h.hb));
        let ya = xa.wrapping_add(weighted(h.wa, yb));
        (
            Cross {
                wa: adapted_clip(h.wa, delta, yb, xa),
                wb: adapted_clip(h.wb, delta, h.hb, xb),
                ha: h.ha,
                hb: ya,
            },
            ya,
            yb,
        )
    } else {
        let ya = xa.wrapping_add(weighted(h.wa, h.ha));
        let yb = xb.wrapping_add(weighted(h.wb, h.hb));
        (
            Cross {
                wa: adapted_clip(h.wa, delta, h.ha, xa),
                wb: adapted_clip(h.wb, delta, h.hb, xb),
                ha: yb,
                hb: ya,
            },
            ya,
            yb,
        )
    }
}

/// The samples behind the first `n` pairs of residuals, interleaved, and the
/// histories after them.
pub open spec fn cross_run(term: i32, delta: i32, h: Cross, xs: Seq<i32>, n: nat) -> (
    Cross,
    Seq<i32>,
)
    decreases n,
{
    if n == 0 {
        (h, Seq::empty())
    } else {
        let i = (n - 1) as nat;
        let (g, ys) = cross_run(term, delta, h, xs, i);
        let (next, ya, yb) = cross_step(term, delta, g, xs[2 * i as int], xs[2 * i as int + 1]);
        (next, ys.push(ya).push(yb))
    }
}

/// One pass of decorrelation: its term, its rate of adaptation, and the
/// history of both channels.
pub struct DecorrPass {
    /// The term.
    pub term: i32,
    /// How far a weight moves per sample.
    pub delta: i32,
    /// The weight of the first channel.
    pub weight_a: i32,
    /// The weight of the second channel.
    pub weight_b: i32,
    /// The samples kept of the first channel.
    pub samples_a: [i32; 8],
    /// The samples kept of the second channel.
    pub samples_b: [i32; 8],
}

/// What a pass holds.
#[verifier::ext_equal]
pub struct Pass {
    /// The term.
    pub term: i32,
    /// How far a weight moves per sample.
    pub delta: i32,
    /// The history of the first channel.
    pub a: Lane,
    /// The history of the second channel.
    pub b: Lane,
}

impl View for DecorrPass {
    type V = Pass;

    open spec fn view(&self) -> Pass {
        Pass {
            term: self.term,
            delta: self.delta,
            a: Lane { w: self.weight_a, s: self.samples_a@ },
            b: Lane { w: self.weight_b, s: self.samples_b@ },
        }
    }
}

/// The samples of one channel: of `n` frames, those at offset `from`.
pub open spec fn every(xs: Seq<i32>, from: int, n: nat) -> Seq<i32> {
    Seq::new(n, |i: int| xs[2 * i + from])
}

/// The terms that predict each channel from its own past.
pub open spec fn own_past(term: i32) -> bool {
    1 <= term <= 8 || term == 17 || term == 18
}

/// The terms that predict one channel from the other.
pub open spec fn other_channel(term: i32) -> bool {
    -3 <= term <= -1
}

/// Two channels interleaved.
pub open spec fn interleaved(a: Seq<i32>, b: Seq<i32>) -> Seq<i32> {
    Seq::new(
        2 * a.len(),
        |i: int|
            if i % 2 == 0 {
                a[i / 2]
            } else {
                b[i / 2]
            },
    )
}

/// The samples of one channel behind its residuals.
pub open spec fn mono_output(p: Pass, xs: Seq<i32>) -> Seq<i32> {
    if own_past(p.term) {
        lane_run(p.term, p.delta, false, p.a, xs, xs.len()).1
    } else {
        xs
    }
}

/// The samples of two channels behind their residuals. A sample without a
/// partner at the end stays.
pub open spec fn stereo_output(p: Pass, xs: Seq<i32>) -> Seq<i32> {
    let n = xs.len() / 2;
    let tail = xs.subrange(2 * n as int, xs.len() as int);
    if own_past(p.term) {
        interleaved(
            lane_run(p.term, p.delta, true, p.a, every(xs, 0, n), n).1,
            lane_run(p.term, p.delta, true, p.b, every(xs, 1, n), n).1,
        ) + tail
    } else if other_channel(p.term) {
        let h = Cross { wa: p.a.w, wb: p.b.w, ha: p.a.s[0], hb: p.b.s[0] };
        cross_run(p.term, p.delta, h, xs, n).1 + tail
    } else {
        xs
    }
}

/// The kept samples turned so that the one for the next sample comes first.
pub open spec fn turned(s: Seq<i32>, n: nat) -> Seq<i32> {
    Seq::new(8, |i: int| s[(n + i) % 8])
}

/// The pass after the samples of one channel.
pub open spec fn mono_after(p: Pass, xs: Seq<i32>) -> Pass {
    if own_past(p.term) {
        let h = lane_run(p.term, p.delta, false, p.a, xs, xs.len()).0;
        Pass {
            a: Lane {
                w: h.w,
                s: if p.term <= 8 {
                    turned(h.s, xs.len())
                } else {
                    h.s
                },
            },
            ..p
        }
    } else {
        p
    }
}

/// The pass after the samples of two channels.
pub open spec fn stereo_after(p: Pass, xs: Seq<i32>) -> Pass {
    let n = xs.len() / 2;
    if own_past(p.term) {
        Pass {
            a: lane_run(p.term, p.delta, true, p.a, every(xs, 0, n), n).0,
            b: lane_run(p.term, p.delta, true, p.b, every(xs, 1, n), n).0,
            ..p
        }
    } else if other_channel(p.term) {
        let h = Cross { wa: p.a.w, wb: p.b.w, ha: p.a.s[0], hb: p.b.s[0] };
        let g = cross_run(p.term, p.delta, h, xs, n).0;
        Pass {
            a: Lane { w: g.wa, s: p.a.s.update(0, g.ha) },
            b: Lane { w: g.wb, s: p.b.s.update(0, g.hb) },
            ..p
        }
    } else {
        p
    }
}

/// The history of one channel while a pass runs over it.
struct Tap {
    w: i32,
    s: [i32; 8],
}

impl Tap {
    spec fn lane(&self) -> Lane {
        Lane { w: self.w, s: self.s@ }
    }

    /// Turns residual `x`, number `i` modulo 8, into its sample.
    fn step(&mut self, term: i32, delta: i32, stereo: bool, i: usize, x: i32) -> (y: i32)
        requires
            own_past(term),
            i < 8,
        ensures
            y == restored(term, stereo, old(self).lane(), i as int, x),
            final(self).lane() == lane_after(
                term,
                delta,
                stereo,
                old(self).lane(),
                i as int,
                x,
                y,
            ),
    {
        let ghost before = self.lane();
        let sam: i32 = if term == 17 {
            2i32.wrapping_mul(self.s[0]).wrapping_sub(self.s[1])
        } else if term == 18 {
            if stereo {
                self.s[0].wrapping_add(self.s[0].wrapping_sub(self.s[1]) >> 1)
            } else {
                3i32.wrapping_mul(self.s[0]).wrapping_sub(self.s[1]) >> 1
            }
        } else {
            self.s[i]
        };
        let y: i32 = apply_weight(self.w, sam).wrapping_add(x);
        update_weight(&mut self.w, delta, sam, x);
        if term == 17 || term == 18 {
            self.s[1] = self.s[0];
            self.s[0] = y;
            assert(self.s@ =~= before.s.update(0, y).update(1, before.s[0]));
        } else {
            self.s[(i + term as usize) % 8] = y;
        }
        y
    }
}

/// The place in the eight kept samples repeats every eight samples.
proof fn lemma_lane_period(term: i32, delta: i32, stereo: bool, lane: Lane, i: int, x: i32, y: i32)
    requires
        0 <= i,
        own_past(term),
    ensures
        predicted(term, stereo, lane, i % 8) == predicted(term, stereo, lane, i),
        restored(term, stereo, lane, i % 8, x) == restored(term, stereo, lane, i, x),
        lane_after(term, delta, stereo, lane, i % 8, x, y) == lane_after(
            term,
            delta,
            stereo,
            lane,
            i,
            x,
            y,
        ),
{
    assert((i % 8 + term) % 8 == (i + term) % 8);
}

/// Runs a pass over one channel.
pub fn decorr_mono_pass(p: &mut DecorrPass, buf: &mut Vec<i32>)
    ensures
        final(buf)@ == mono_output(old(p)@, old(buf)@),
        final(p)@ == mono_after(old(p)@, old(buf)@),
{
    let ghost start = p@;
    let ghost xs = buf@;
    let term: i32 = p.term;
    let delta: i32 = p.delta;
    if !(1 <= term && term <= 8 || term == 17 || term == 18) {
        return ;
    }
    let mut tap = Tap { w: p.weight_a, s: p.samples_a };
    let mut i: usize = 0;
    while i < buf.len()
        invariant
            i <= buf@.len(),
            buf@.len() == xs.len(),
            own_past(term),
            tap.lane() == lane_run(term, delta, false, start.a, xs, i as nat).0,
            lane_run(term, delta, false, start.a, xs, i as nat).1.len() == i,
            forall|j: int|
                0 <= j < i ==> buf@[j] == lane_run(term, delta, false, start.a, xs, i as nat).1[j],
            forall|j: int| i <= j < xs.len() ==> buf@[j] == xs[j],
        decreases buf@.len() - i,
    {
        proof {
            lemma_lane_period(
                term,
                delta,
                false,
                tap.lane(),
                i as int,
                xs[i as int],
                restored(term, false, tap.lane(), i as int, xs[i as int]),
            );
        }
        let x: i32 = buf[i];
        let y: i32 = tap.step(term, delta, false, i % 8, x);
        buf[i] = y;
        i = i + 1;
    }
    assert(buf@ =~= lane_run(term, delta, false, start.a, xs, xs.len()).1);
    p.weight_a = tap.w;
    if term <= 8 {
        let ring = tap.s;
        let m: usize = i % 8;
        let rotated: [i32; 8] = [
            ring[m],
            ring[(m + 1) % 8],
            ring[(m + 2) % 8],
            ring[(m + 3) % 8],
            ring[(m + 4) % 8],
            ring[(m + 5) % 8],
            ring[(m + 6) % 8],
            ring[(m + 7) % 8],
        ];
        p.samples_a = rotated;
        assert(p.samples_a@ =~= turned(ring@, xs.len()));
    } else {
        p.samples_a = tap.s;
    }
    assert(p@ =~= mono_after(start, xs));
}

/// Runs a pass over two interleaved channels.
pub fn decorr_stereo_pass(p: &mut DecorrPass, buf: &mut Vec<i32>)
    ensures
        final(buf)@ == stereo_output(old(p)@, old(buf)@),
        final(p)@ == stereo_after(old(p)@, old(buf)@),
{
    let term: i32 = p.term;
    if 1 <= term && term <= 8 || term == 17 || term == 18 {
        decorr_own_past(p, buf);
    } else if -3 <= term && term <= -1 {
        decorr_other_channel(p, buf);
    }
}

fn decorr_own_past(p: &mut DecorrPass, buf: &mut Vec<i32>)
    requires
        own_past(old(p).term),
    ensures
        final(buf)@ == stereo_output(old(p)@, old(buf)@),
        final(p)@ == stereo_after(old(p)@, old(buf)@),
{
    let ghost start = p@;
    let ghost xs = buf@;
    let term: i32 = p.term;
    let delta: i32 = p.delta;
    let n: usize = buf.len() / 2;
    let ghost xa = every(xs, 0, n as nat);
    let ghost xb = every(xs, 1, n as nat);
    let mut ta = Tap { w: p.weight_a, s: p.samples_a };
    let mut tb = Tap { w: p.weight_b, s: p.samples_b };
    let mut i: usize = 0;
    while i < n
        invariant
            i <= n,
            n <= usize::MAX / 2,
            n == xs.len() / 2,
            xa == every(xs, 0, n as nat),
            xb == every(xs, 1, n as nat),
            buf@.len() == xs.len(),
            own_past(term),
            ta.lane() == lane_run(term, delta, true, start.a, xa, i as nat).0,
            tb.lane() == lane_run(term, delta, true, start.b, xb, i as nat).0,
            lane_run(term, delta, true, start.a, xa, i as nat).1.len() == i,
            lane_run(term, delta, true, start.b, xb, i as nat).1.len() == i,
            forall|j: int|
                0 <= j < i ==> #[trigger] buf@[2 * j] == lane_run(
                    term,
                    delta,
                    true,
                    start.a,
                    xa,
                    i as nat,
                ).1[j],
            forall|j: int|
                0 <= j < i ==> #[trigger] buf@[2 * j + 1] == lane_run(
                    term,
                    delta,
                    true,
                    start.b,
                    xb,
                    i as nat,
                ).1[j],
            forall|j: int| 2 * i <= j < xs.len() ==> buf@[j] == xs[j],
        decreases n - i,
    {
        proof {
            lemma_lane_period(
                term,
                delta,
                true,
                ta.lane(),
                i as int,
                xa[i as int],
                restored(term, true, ta.lane(), i as int, xa[i as int]),
            );
            lemma_lane_period(
                term,
                delta,
                true,
                tb.lane(),
                i as int,
                xb[i as int],
                restored(term, true, tb.lane(), i as int, xb[i as int]),
            );
        }
        let a: i32 = buf[2 * i];
        let ya: i32 = ta.step(term, delta, true, i % 8, a);
        buf[2 * i] = ya;
        let b: i32 = buf[2 * i + 1];
        let yb: i32 = tb.step(term, delta, true, i % 8, b);
        buf[2 * i + 1] = yb;
        i = i + 1;
    }
    proof {
        let ya = lane_run(term, delta, true, start.a, xa, n as nat).1;
        let yb = lane_run(term, delta, true, start.b, xb, n as nat).1;
        let tail = xs.subrange(2 * n as int, xs.len() as int);
        assert forall|k: int| 0 <= k < xs.len() implies buf@[k] == (interleaved(ya, yb) + tail)[k] by {
            if k < 2 * n {
                if k % 2 == 0 {
                    assert(buf@[2 * (k / 2)] == ya[k / 2]);
                } else {
                    assert(buf@[2 * (k / 2) + 1] == yb[k / 2]);
                }
            }
        }
        assert(buf@ =~= interleaved(ya, yb) + tail);
    }
    p.weight_a = ta.w;
    p.samples_a = ta.s;
    p.weight_b = tb.w;
    p.samples_b = tb.s;
    assert(p@ =~= stereo_after(start, xs));
}

/// Turns a pair of residuals into its frame.
fn cross_frame(h: &mut Cross, term: i32, delta: i32, xa: i32, xb: i32) -> (r: (i32, i32))
    requires
        other_channel(term),
    ensures
        (*final(h), r.0, r.1) == cross_step(term, delta, *old(h), xa, xb),
{
    let ya: i32;
    let yb: i32;
    if term == -1 {
        ya = xa.wrapping_add(apply_weight(h.wa, h.ha));
        update_weight_clip(&mut h.wa, delta, h.ha, xa);
        yb = xb.wrapping_add(apply_weight(h.wb, ya));
        update_weight_clip(&mut h.wb, delta, ya, xb);
        h.ha = yb;
    } else if term == -2 {
        yb = xb.wrapping_add(apply_weight(h.wb, h.hb));
        update_weight_clip(&mut h.wb, delta, h.hb, xb);
        ya = xa.wrapping_add(apply_weight(h.wa, yb));
        update_weight_clip(&mut h.wa, delta, yb, xa);
        h.hb = ya;
    } else {
        ya = xa.wrapping_add(apply_weight(h.wa, h.ha));
        update_weight_clip(&mut h.wa, delta, h.ha, xa);
        yb = xb.wrapping_add(apply_weight(h.wb, h.hb));
        update_weight_clip(&mut h.wb, delta, h.hb, xb);
        h.hb = ya;
        h.ha = yb;
    }
    (ya, yb)
}

fn decorr_other_channel(p: &mut DecorrPass, buf: &mut Vec<i32>)
    requires
        other_channel(old(p).term),
    ensures
        final(buf)@ == stereo_output(old(p)@, old(buf)@),
        final(p)@ == stereo_after(old(p)@, old(buf)@),
{
    let ghost start = p@;
    let ghost xs = buf@;
    let term: i32 = p.term;
    let delta: i32 = p.delta;
    let n: usize = buf.len() / 2;
    let mut h = Cross {
        wa: p.weight_a,
        wb: p.weight_b,
        ha: p.samples_a[0],
        hb: p.samples_b[0],
    };
    let ghost h0 = h;
    let mut i: usize = 0;
    while i < n
        invariant
            i <= n,
            n <= usize::MAX / 2,
            n == xs.len() / 2,
            buf@.len() == xs.len(),
            other_channel(term),
            h == cross_run(term, delta, h0, xs, i as nat).0,
            cross_run(term, delta, h0, xs, i as nat).1.len() == 2 * i,
            forall|j: int|
                0 <= j < 2 * i ==> buf@[j] == cross_run(term, delta, h0, xs, i as nat).1[j],
            forall|j: int| 2 * i <= j < xs.len() ==> buf@[j] == xs[j],
        decreases n - i,
    {
        let (ya, yb) = cross_frame(&mut h, term, delta, buf[2 * i], buf[2 * i + 1]);
        buf[2 * i] = ya;
        buf[2 * i + 1] = yb;
        i = i + 1;
    }
    proof {
        let ys = cross_run(term, delta, h0, xs, n as nat).1;
        assert(buf@ =~= ys + xs.subrange(2 * n as int, xs.len() as int));
    }
    p.weight_a = h.wa;
    p.weight_b = h.wb;
    p.samples_a[0] = h.ha;
    p.samples_b[0] = h.hb;
    assert(p@ =~= stereo_after(start, xs));
}

/// The residuals that stand for the first `n` samples of a channel: what the
/// predictions miss.
pub open spec fn lane_residuals(
    term: i32,
    delta: i32,
    stereo: bool,
    lane: Lane,
    ys: Seq<i32>,
    n: nat,
) -> (Lane, Seq<i32>)
    decreases n,
{
    if n == 0 {
        (lane, Seq::empty())
    } else {
        let i = (n - 1) as nat;
        let (h, xs) = lane_residuals(term, delta, stereo, lane, ys, i);
        let y = ys[i as int];
        let x = y.wrapping_sub(weighted(h.w, predicted(term, stereo, h, i as int)));
        (lane_after(term, delta, stereo, h, i as int, x, y), xs.push(x))
    }
}

/// Decorrelation loses nothing: from the residuals that stand for any samples,
/// a pass restores these samples.
pub proof fn law_lane_lossless(
    term: i32,
    delta: i32,
    stereo: bool,
    lane: Lane,
    ys: Seq<i32>,
    n: nat,
)
    requires
        n <= ys.len(),
    ensures
        lane_residuals(term, delta, stereo, lane, ys, n).1.len() == n,
        lane_run(
            term,
            delta,
            stereo,
            lane,
            lane_residuals(term, delta, stereo, lane, ys, n).1,
            n,
        ) == (lane_residuals(term, delta, stereo, lane, ys, n).0, ys.take(n as int)),
    decreases n,
{
    if n == 0 {
        assert(ys.take(0) =~= Seq::<i32>::empty());
    } else {
        let i = (n - 1) as nat;
        law_lane_lossless(term, delta, stereo, lane, ys, i);
        let (h, xs) = lane_residuals(term, delta, stereo, lane, ys, i);
        let all = lane_residuals(term, delta, stereo, lane, ys, n).1;
        lemma_lane_run_prefix(term, delta, stereo, lane, xs, all, i);
        assert(ys.take(i as int).push(ys[i as int]) =~= ys.take(n as int));
    }
}

proof fn lemma_lane_run_prefix(
    term: i32,
    delta: i32,
    stereo: bool,
    lane: Lane,
    xs: Seq<i32>,
    zs: Seq<i32>,
    n: nat,
)
    requires
        n <= xs.len() <= zs.len(),
        forall|i: int| 0 <= i < n ==> xs[i] == zs[i],
    ensures
        lane_run(term, delta, stereo, lane, xs, n) == lane_run(term, delta, stereo, lane, zs, n),
    decreases n,
{
    if n > 0 {
        lemma_lane_run_prefix(term, delta, stereo, lane, xs, zs, (n - 1) as nat);
    }
}

} // verus!
