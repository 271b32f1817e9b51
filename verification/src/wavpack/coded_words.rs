//! Whole blocks of residuals as an encoder writes them.

use super::bitstream::Cursor;
use super::coded::{
    behind, choice_row, count_row, digit, law_choice_read, law_count_read, law_prefix_read,
    lemma_behind, lemma_lies, lies, prefix_row,
};
use super::words::{Medians, WordsDecoder};
use vstd::prelude::*;

verus! {

/// The medians of a channel, in sixteenths.
pub struct Levels {
    /// The lowest.
    pub a: nat,
    /// The middle one.
    pub b: nat,
    /// The highest.
    pub c: nat,
}

/// How many numbers lie below a median.
pub open spec fn wide(m: nat) -> nat {
    m / 16 + 1
}

/// A median that was too low: up by five for every `unit` that it has, and five.
pub open spec fn up(m: nat, unit: nat) -> nat {
    m + 5 * (m / unit + 1)
}

/// A median that was high enough: down by two for every `unit` that it has or begins.
pub open spec fn down(m: nat, unit: nat) -> nat {
    (m - 2 * ((m + unit - 2) / (unit as int))) as nat
}

/// The size of a residual, without its sign: zero for 0 and for -1, and so on.
pub open spec fn magnitude(x: int) -> nat {
    if x < 0 {
        (-x - 1) as nat
    } else {
        x as nat
    }
}

impl Levels {
    /// No history.
    pub open spec fn none() -> Levels {
        Levels { a: 0, b: 0, c: 0 }
    }

    /// The interval that a size lies in: below the lowest median, below the middle one
    /// on top of it, or in one of those of the highest on top of both.
    pub open spec fn interval(self, v: nat) -> nat {
        if v < wide(self.a) {
            0
        } else if v < wide(self.a) + wide(self.b) {
            1
        } else {
            2 + ((v - wide(self.a) - wide(self.b)) as nat) / wide(self.c)
        }
    }

    /// How many sizes the interval holds.
    pub open spec fn span(self, v: nat) -> nat {
        if v < wide(self.a) {
            wide(self.a)
        } else if v < wide(self.a) + wide(self.b) {
            wide(self.b)
        } else {
            wide(self.c)
        }
    }

    /// The place in the interval.
    pub open spec fn place(self, v: nat) -> nat {
        if v < wide(self.a) {
            v
        } else if v < wide(self.a) + wide(self.b) {
            (v - wide(self.a)) as nat
        } else {
            ((v - wide(self.a) - wide(self.b)) as nat) % wide(self.c)
        }
    }

    /// The medians after a size in interval `i`: those that it exceeds go up, and the one
    /// that it does not goes down.
    pub open spec fn moved(self, i: nat) -> Levels {
        Levels {
            a: if i > 0 {
                up(self.a, 128)
            } else {
                down(self.a, 128)
            },
            b: if i > 1 {
                up(self.b, 64)
            } else if i == 1 {
                down(self.b, 64)
            } else {
                self.b
            },
            c: if i > 2 {
                up(self.c, 32)
            } else if i == 2 {
                down(self.c, 32)
            } else {
                self.c
            },
        }
    }

    /// Whether the medians are such as are spoken of.
    pub open spec fn calm(self) -> bool {
        self.a < 0x1000_0000 && self.b < 0x1000_0000 && self.c < 0x1000_0000
    }

    /// Whether these are the medians of the decoder.
    pub open spec fn are(self, m: Medians) -> bool {
        self.a == m.m0 && self.b == m.m1 && self.c == m.m2
    }
}

proof fn lemma_moved(l: Levels, m: Medians, i: nat)
    requires
        l.are(m),
        l.calm(),
    ensures
        l.moved(i).are(m.adapted(i)),
{
    assert((m.m0 + 128) / 128 == m.m0 / 128 + 1);
    assert((m.m1 + 64) / 64 == m.m1 / 64 + 1);
    assert((m.m2 + 32) / 32 == m.m2 / 32 + 1);
}

proof fn lemma_interval(l: Levels, m: Medians, v: nat)
    requires
        l.are(m),
        l.calm(),
        v < 0x2000_0000,
    ensures
        l.interval(v) <= 0x2000_0002,
        m.span(l.interval(v) as u32) == l.span(v),
        l.place(v) < l.span(v),
        m.floor(l.interval(v) as u32).wrapping_add(l.place(v) as u32) == v,
{
    let a = wide(l.a);
    let b = wide(l.b);
    let c = wide(l.c);
    if v >= a + b {
        let r = (v - a - b) as nat;
        let q = r / c;
        vstd::arithmetic::div_mod::lemma_fundamental_div_mod(r as int, c as int);
        vstd::arithmetic::div_mod::lemma_mod_bound(r as int, c as int);
        assert(q <= r) by (nonlinear_arith)
            requires
                r == c * q + r % c,
                c >= 1,
                r % c >= 0,
                q >= 0,
        ;
        assert(0 <= q * c <= r) by (nonlinear_arith)
            requires
                r == c * q + r % c,
                r % c >= 0,
                q >= 0,
        ;
        assert(c * q == q * c) by (nonlinear_arith);
        let x = q as u32;
        assert(x.wrapping_mul(c as u32) == q * c);
    }
}

/// The state of an encoder in a block.
pub struct Coder {
    /// The medians of the first channel.
    pub first: Levels,
    /// The medians of the second channel.
    pub second: Levels,
    /// The count of the last residual said that this one lies above the lowest median.
    pub lent: bool,
    /// It said that this one does not.
    pub held: bool,
    /// One more than what is left of a run of zeros.
    pub zeros: nat,
}

/// How many zeros follow from `i` on.
pub open spec fn zeros_from(xs: Seq<i32>, i: int) -> nat
    decreases xs.len() - i,
{
    if 0 <= i < xs.len() && xs[i] == 0 {
        1 + zeros_from(xs, i + 1)
    } else {
        0
    }
}

impl Coder {
    /// The state at the start of a block.
    pub open spec fn start(first: Levels, second: Levels) -> Coder {
        Coder { first, second, lent: false, held: false, zeros: 0 }
    }

    /// The medians for residual `i`; two channels alternate.
    pub open spec fn levels(self, i: int, mono: bool) -> Levels {
        if !mono && i % 2 == 1 {
            self.second
        } else {
            self.first
        }
    }

    /// With other medians for residual `i`.
    pub open spec fn with(self, i: int, mono: bool, l: Levels) -> Coder {
        if !mono && i % 2 == 1 {
            Coder { second: l, ..self }
        } else {
            Coder { first: l, ..self }
        }
    }

    /// Whether both channels are so quiet that runs of zeros are counted.
    pub open spec fn quiet(self) -> bool {
        self.first.a < 2 && self.second.a < 2 && !self.lent
    }

    /// The state with the medians moved by residual `i`.
    pub open spec fn past(self, xs: Seq<i32>, i: int, mono: bool) -> Coder {
        let l = self.levels(i, mono);
        self.with(i, mono, l.moved(l.interval(magnitude(xs[i] as int))))
    }

    /// Whether residual `i` lies above the lowest median.
    pub open spec fn above(self, xs: Seq<i32>, i: int, mono: bool) -> bool {
        i < xs.len() && self.levels(i, mono).interval(magnitude(xs[i] as int)) > 0
    }

    /// The state behind residual `i` where it has a count in front.
    pub open spec fn next(self, xs: Seq<i32>, i: int, mono: bool) -> Coder {
        let e = self.past(xs, i, mono);
        let lend = e.above(xs, i + 1, mono);
        Coder { lent: lend, held: !lend, zeros: 0, ..e }
    }

    /// The count in front of residual `i`: twice its interval, without what the last
    /// count said, and one more if the next residual lies above the lowest median.
    pub open spec fn count(self, xs: Seq<i32>, i: int, mono: bool) -> nat {
        let k = self.levels(i, mono).interval(magnitude(xs[i] as int));
        (2 * (k - (if self.lent {
            1int
        } else {
            0
        })) + digit(self.past(xs, i, mono).above(xs, i + 1, mono))) as nat
    }

    /// The place of residual `i` in its interval, and its sign.
    pub open spec fn tail(self, xs: Seq<i32>, i: int, mono: bool) -> Seq<bool> {
        let l = self.levels(i, mono);
        let v = magnitude(xs[i] as int);
        choice_row(l.span(v), l.place(v)).push(xs[i] < 0)
    }

    /// The digits of the residuals from `i` on.
    pub open spec fn row(self, xs: Seq<i32>, i: int, mono: bool) -> Seq<bool>
        decreases xs.len() - i,
    {
        if i < 0 || i >= xs.len() {
            Seq::empty()
        } else {
            let plain = prefix_row(self.count(xs, i, mono)) + (self.tail(xs, i, mono) + self.next(
                xs,
                i,
                mono,
            ).row(xs, i + 1, mono));
            if self.held {
                self.tail(xs, i, mono) + (Coder { held: false, ..self.past(xs, i, mono) }).row(
                    xs,
                    i + 1,
                    mono,
                )
            } else if !self.quiet() || self.zeros == 1 {
                plain
            } else if self.zeros > 1 {
                (Coder { zeros: (self.zeros - 1) as nat, ..self }).row(xs, i + 1, mono)
            } else if xs[i] == 0 {
                count_row(zeros_from(xs, i)) + (Coder {
                    first: Levels::none(),
                    second: Levels::none(),
                    zeros: zeros_from(xs, i),
                    ..self
                }).row(xs, i + 1, mono)
            } else {
                count_row(0) + plain
            }
        }
    }

    /// Whether all medians from `i` on are such as are spoken of.
    pub open spec fn calm(self, xs: Seq<i32>, i: int, mono: bool) -> bool
        decreases xs.len() - i,
    {
        &&& self.first.calm()
        &&& self.second.calm()
        &&& 0 <= i < xs.len() ==> if self.held {
            (Coder { held: false, ..self.past(xs, i, mono) }).calm(xs, i + 1, mono)
        } else if !self.quiet() || self.zeros == 1 {
            self.next(xs, i, mono).calm(xs, i + 1, mono)
        } else if self.zeros > 1 {
            (Coder { zeros: (self.zeros - 1) as nat, ..self }).calm(xs, i + 1, mono)
        } else if xs[i] == 0 {
            (Coder {
                first: Levels::none(),
                second: Levels::none(),
                zeros: zeros_from(xs, i),
                ..self
            }).calm(xs, i + 1, mono)
        } else {
            self.next(xs, i, mono).calm(xs, i + 1, mono)
        }
    }

    /// What the state says of the residuals from `i` on.
    pub open spec fn sound(self, xs: Seq<i32>, i: int, mono: bool) -> bool {
        &&& self.held ==> !self.lent && self.zeros == 0 && !self.above(xs, i, mono)
        &&& self.lent ==> self.zeros == 0 && (i < xs.len() ==> self.above(xs, i, mono))
        &&& self.zeros > 0 ==> self.quiet() && zeros_from(xs, i) == self.zeros - 1
    }

    /// Whether the decoder is in the same state.
    pub open spec fn is(self, w: WordsDecoder) -> bool {
        &&& self.first.are(w.c0)
        &&& self.second.are(w.c1)
        &&& w.holding_one == digit(self.lent)
        &&& w.holding_zero == self.held
        &&& w.zeros_acc == self.zeros
    }
}

proof fn lemma_zeros(xs: Seq<i32>, i: int)
    requires
        0 <= i <= xs.len(),
    ensures
        zeros_from(xs, i) <= xs.len() - i,
    decreases xs.len() - i,
{
    if i < xs.len() {
        lemma_zeros(xs, i + 1);
    }
}

proof fn lemma_signed(x: i32)
    ensures
        super::words::signed(magnitude(x as int) as u32, digit(x < 0)) == x,
{
    let m = magnitude(x as int) as u32;
    if x < 0 {
        let y = m as i32;
        assert(y == -x - 1);
        assert(!y == x) by (bit_vector)
            requires
                y == -x - 1,
        ;
    }
}

/// A residual with its count is read.
proof fn lemma_prefixed(
    e: Coder,
    w: WordsDecoder,
    c: Cursor,
    xs: Seq<i32>,
    i: int,
    mono: bool,
    rest: Seq<bool>,
)
    requires
        0 <= i < xs.len(),
        e.is(w),
        !e.held,
        e.zeros == 0,
        e.lent ==> e.above(xs, i, mono),
        e.first.calm(),
        e.second.calm(),
        magnitude(xs[i] as int) < 0x2000_0000,
        lies(c, prefix_row(e.count(xs, i, mono)) + (e.tail(xs, i, mono) + rest)),
    ensures
        ({
            let (r, next, d) = w.word_prefixed(c, !mono && i % 2 == 1);
            let n = prefix_row(e.count(xs, i, mono)).len() + e.tail(xs, i, mono).len();
            &&& r == Some(xs[i])
            &&& e.next(xs, i, mono).is(next)
            &&& d == behind(c, n)
            &&& lies(behind(c, n), rest)
        }),
{
    let second = !mono && i % 2 == 1;
    let l = e.levels(i, mono);
    let m = w.channel(second);
    let v = magnitude(xs[i] as int);
    let k = l.interval(v);
    let rr = e.count(xs, i, mono);
    lemma_interval(l, m, v);
    lemma_moved(l, m, k);
    let front = prefix_row(rr);
    let tail = e.tail(xs, i, mono);
    lemma_lies(c, front, tail + rest);
    let c1 = behind(c, front.len());
    lemma_lies(c1, tail, rest);
    lemma_behind(c, front.len(), tail.len());
    law_prefix_read(c, rr);
    law_choice_read(c1, l.span(v), l.place(v), xs[i] < 0);
    lemma_signed(xs[i]);
    let lend = e.past(xs, i, mono).above(xs, i + 1, mono);
    assert(rr / 2 + digit(e.lent) == k);
    assert(rr % 2 == digit(lend));
}

/// A residual without a count is read.
proof fn lemma_held(
    e: Coder,
    w: WordsDecoder,
    c: Cursor,
    xs: Seq<i32>,
    i: int,
    mono: bool,
    rest: Seq<bool>,
)
    requires
        0 <= i < xs.len(),
        e.is(w),
        e.held,
        !e.above(xs, i, mono),
        e.first.calm(),
        e.second.calm(),
        magnitude(xs[i] as int) < 0x2000_0000,
        lies(c, e.tail(xs, i, mono) + rest),
    ensures
        ({
            let (r, next, d) = w.word_held(c, !mono && i % 2 == 1);
            let n = e.tail(xs, i, mono).len();
            &&& r == Some(xs[i])
            &&& (Coder { held: false, ..e.past(xs, i, mono) }).is(next)
            &&& d == behind(c, n)
            &&& lies(behind(c, n), rest)
        }),
{
    let second = !mono && i % 2 == 1;
    let l = e.levels(i, mono);
    let m = w.channel(second);
    let v = magnitude(xs[i] as int);
    lemma_interval(l, m, v);
    lemma_moved(l, m, 0);
    let tail = e.tail(xs, i, mono);
    lemma_lies(c, tail, rest);
    law_choice_read(c, l.span(v), l.place(v), xs[i] < 0);
    lemma_signed(xs[i]);
}

/// Whether one residual is read, the encoder going on with `f` behind `n` digits.
pub open spec fn stepped(
    e: Coder,
    w: WordsDecoder,
    c: Cursor,
    xs: Seq<i32>,
    i: int,
    mono: bool,
    f: Coder,
    n: nat,
) -> bool {
    let (v, next, d) = w.next_word(c, !mono && i % 2 == 1);
    &&& v == Some(xs[i])
    &&& f.is(next)
    &&& f.sound(xs, i + 1, mono)
    &&& f.calm(xs, i + 1, mono)
    &&& d == behind(c, n)
    &&& e.row(xs, i, mono).len() == n + f.row(xs, i + 1, mono).len()
    &&& lies(d, f.row(xs, i + 1, mono))
}

/// Whether a residual is about to be read.
pub open spec fn ready(
    e: Coder,
    w: WordsDecoder,
    c: Cursor,
    xs: Seq<i32>,
    i: int,
    mono: bool,
) -> bool {
    &&& 0 <= i < xs.len() <= 0x1000_0000
    &&& e.is(w)
    &&& e.sound(xs, i, mono)
    &&& e.calm(xs, i, mono)
    &&& magnitude(xs[i] as int) < 0x2000_0000
    &&& lies(c, e.row(xs, i, mono))
}

proof fn lemma_step_held(e: Coder, w: WordsDecoder, c: Cursor, xs: Seq<i32>, i: int, mono: bool)
    requires
        ready(e, w, c, xs, i, mono),
        e.held,
    ensures
        stepped(
            e,
            w,
            c,
            xs,
            i,
            mono,
            Coder { held: false, ..e.past(xs, i, mono) },
            e.tail(xs, i, mono).len(),
        ),
{
    let f = Coder { held: false, ..e.past(xs, i, mono) };
    lemma_held(e, w, c, xs, i, mono, f.row(xs, i + 1, mono));
}

proof fn lemma_step_zero(e: Coder, w: WordsDecoder, c: Cursor, xs: Seq<i32>, i: int, mono: bool)
    requires
        ready(e, w, c, xs, i, mono),
        e.zeros > 1,
    ensures
        stepped(e, w, c, xs, i, mono, Coder { zeros: (e.zeros - 1) as nat, ..e }, 0),
{
}

proof fn lemma_step_run(e: Coder, w: WordsDecoder, c: Cursor, xs: Seq<i32>, i: int, mono: bool)
    requires
        ready(e, w, c, xs, i, mono),
        !e.held,
        e.quiet(),
        e.zeros == 0,
        xs[i] == 0,
    ensures
        stepped(
            e,
            w,
            c,
            xs,
            i,
            mono,
            Coder {
                first: Levels::none(),
                second: Levels::none(),
                zeros: zeros_from(xs, i),
                ..e
            },
            count_row(zeros_from(xs, i)).len(),
        ),
{
    let n = zeros_from(xs, i);
    let f = Coder { first: Levels::none(), second: Levels::none(), zeros: n, ..e };
    lemma_zeros(xs, i);
    lemma_lies(c, count_row(n), f.row(xs, i + 1, mono));
    law_count_read(c, n);
}

proof fn lemma_step_plain(e: Coder, w: WordsDecoder, c: Cursor, xs: Seq<i32>, i: int, mono: bool)
    requires
        ready(e, w, c, xs, i, mono),
        !e.held,
        !e.quiet() || e.zeros == 1,
    ensures
        stepped(
            e,
            w,
            c,
            xs,
            i,
            mono,
            e.next(xs, i, mono),
            prefix_row(e.count(xs, i, mono)).len() + e.tail(xs, i, mono).len(),
        ),
{
    let g = Coder { zeros: 0, ..e };
    let v = WordsDecoder { zeros_acc: 0, ..w };
    let f = e.next(xs, i, mono);
    assert(g.count(xs, i, mono) == e.count(xs, i, mono));
    assert(g.tail(xs, i, mono) == e.tail(xs, i, mono));
    assert(g.next(xs, i, mono) == f);
    lemma_prefixed(g, v, c, xs, i, mono, f.row(xs, i + 1, mono));
    assert(w.next_word(c, !mono && i % 2 == 1) == v.word_prefixed(c, !mono && i % 2 == 1));
}

proof fn lemma_step_loud(e: Coder, w: WordsDecoder, c: Cursor, xs: Seq<i32>, i: int, mono: bool)
    requires
        ready(e, w, c, xs, i, mono),
        !e.held,
        e.quiet(),
        e.zeros == 0,
        xs[i] != 0,
    ensures
        stepped(
            e,
            w,
            c,
            xs,
            i,
            mono,
            e.next(xs, i, mono),
            count_row(0).len() + (prefix_row(e.count(xs, i, mono)).len() + e.tail(
                xs,
                i,
                mono,
            ).len()),
        ),
{
    let f = e.next(xs, i, mono);
    let rest = f.row(xs, i + 1, mono);
    let plain = prefix_row(e.count(xs, i, mono)) + (e.tail(xs, i, mono) + rest);
    let n = prefix_row(e.count(xs, i, mono)).len() + e.tail(xs, i, mono).len();
    lemma_lies(c, count_row(0), plain);
    law_count_read(c, 0);
    let d = behind(c, count_row(0).len());
    lemma_prefixed(e, w, d, xs, i, mono, rest);
    lemma_behind(c, count_row(0).len(), n);
}

/// One residual is read, and what follows comes next.
proof fn lemma_word(e: Coder, w: WordsDecoder, c: Cursor, xs: Seq<i32>, i: int, mono: bool) -> (r: (
    Coder,
    nat,
))
    requires
        ready(e, w, c, xs, i, mono),
    ensures
        stepped(e, w, c, xs, i, mono, r.0, r.1),
{
    if e.held {
        lemma_step_held(e, w, c, xs, i, mono);
        (Coder { held: false, ..e.past(xs, i, mono) }, e.tail(xs, i, mono).len())
    } else if e.zeros > 1 {
        lemma_step_zero(e, w, c, xs, i, mono);
        (Coder { zeros: (e.zeros - 1) as nat, ..e }, 0)
    } else if !e.quiet() || e.zeros == 1 {
        lemma_step_plain(e, w, c, xs, i, mono);
        (
            e.next(xs, i, mono),
            prefix_row(e.count(xs, i, mono)).len() + e.tail(xs, i, mono).len(),
        )
    } else if xs[i] == 0 {
        lemma_step_run(e, w, c, xs, i, mono);
        (
            Coder {
                first: Levels::none(),
                second: Levels::none(),
                zeros: zeros_from(xs, i),
                ..e
            },
            count_row(zeros_from(xs, i)).len(),
        )
    } else {
        lemma_step_loud(e, w, c, xs, i, mono);
        (
            e.next(xs, i, mono),
            count_row(0).len() + (prefix_row(e.count(xs, i, mono)).len() + e.tail(
                xs,
                i,
                mono,
            ).len()),
        )
    }
}

/// Residuals that are written are read, and the place behind them is where their digits
/// end.
#[verifier::spinoff_prover]
#[verifier::rlimit(80)]
pub proof fn law_words_read(
    e: Coder,
    w: WordsDecoder,
    c: Cursor,
    xs: Seq<i32>,
    i: nat,
    mono: bool,
)
    requires
        i <= xs.len() <= 0x1000_0000,
        e.is(w),
        e.sound(xs, i as int, mono),
        e.calm(xs, i as int, mono),
        forall|k: int| 0 <= k < xs.len() ==> magnitude(#[trigger] xs[k] as int) < 0x2000_0000,
        lies(c, e.row(xs, i as int, mono)),
    ensures
        w.words(c, i, xs.len(), mono) == (
            xs.skip(i as int),
            behind(c, e.row(xs, i as int, mono).len()),
        ),
    decreases xs.len() - i,
{
    if i == xs.len() {
        assert(xs.skip(i as int) =~= Seq::empty());
    } else {
        assert(magnitude(xs[i as int] as int) < 0x2000_0000);
        let (f, n) = lemma_word(e, w, c, xs, i as int, mono);
        let (v, next, d) = w.next_word(c, !mono && i as int % 2 == 1);
        law_words_read(f, next, d, xs, i + 1, mono);
        lemma_behind(c, n, f.row(xs, i as int + 1, mono).len());
        assert(xs.skip(i as int) =~= seq![xs[i as int]] + xs.skip(i as int + 1));
    }
}

/// A stream of residuals that is written from its first digit on is read, and does not
/// come to its end before the last of them.
pub proof fn law_stream_read(m0: Medians, m1: Medians, buf: Seq<u8>, xs: Seq<i32>, mono: bool)
    requires
        xs.len() <= 0x1000_0000,
        forall|k: int| 0 <= k < xs.len() ==> magnitude(#[trigger] xs[k] as int) < 0x2000_0000,
        ({
            let e = Coder::start(
                Levels { a: m0.m0 as nat, b: m0.m1 as nat, c: m0.m2 as nat },
                Levels { a: m1.m0 as nat, b: m1.m1 as nat, c: m1.m2 as nat },
            );
            &&& e.calm(xs, 0, mono)
            &&& lies(Cursor { buf, pos: 0, loaded: 0 }, e.row(xs, 0, mono))
        }),
    ensures
        ({
            let (read, end) = WordsDecoder::start(m0, m1).words(
                Cursor::start(buf),
                0,
                xs.len(),
                mono,
            );
            read == xs && !end.exhausted()
        }),
{
    let e = Coder::start(
        Levels { a: m0.m0 as nat, b: m0.m1 as nat, c: m0.m2 as nat },
        Levels { a: m1.m0 as nat, b: m1.m1 as nat, c: m1.m2 as nat },
    );
    law_words_read(e, WordsDecoder::start(m0, m1), Cursor::start(buf), xs, 0, mono);
    assert(xs.skip(0) =~= xs);
}

} // verus!
