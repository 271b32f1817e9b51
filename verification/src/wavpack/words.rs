//! The entropy coder of a WavPack block: each residual is a unary prefix that
//! picks an interval, a truncated binary code inside it, and a sign.

use super::bitstream::{BsReader, Cursor};
use vstd::prelude::*;

verus! {

/// The three adaptive medians of a channel, in sixteenths.
#[derive(Clone, Copy)]
pub struct Medians {
    /// The lowest median.
    pub m0: u32,
    /// The middle median.
    pub m1: u32,
    /// The highest median.
    pub m2: u32,
}

/// The width of the interval below a median.
pub open spec fn width(m: u32) -> nat {
    (m / 16 + 1) as nat
}

/// A median after a residual above it, where it moves by fifths of `unit`.
pub open spec fn raised(m: u32, unit: u32) -> u32 {
    m.wrapping_add((m.wrapping_add(unit) / unit * 5) as u32)
}

/// A median after a residual below it.
pub open spec fn lowered(m: u32, unit: u32) -> u32 {
    m.wrapping_sub((m.wrapping_add((unit - 2) as u32) / unit * 2) as u32)
}

impl Medians {
    /// No history.
    pub open spec fn zero() -> Medians {
        Medians { m0: 0, m1: 0, m2: 0 }
    }

    /// Medians without history.
    pub fn none() -> (m: Medians)
        ensures
            m == Medians::zero(),
    {
        Medians { m0: 0, m1: 0, m2: 0 }
    }

    /// The width of interval `i`.
    pub fn get(&self, i: usize) -> (v: u32)
        requires
            i < 3,
        ensures
            v == width(if i == 0 {
                self.m0
            } else if i == 1 {
                self.m1
            } else {
                self.m2
            }),
            1 <= v <= 0x1000_0000,
    {
        let m: u32 = if i == 0 {
            self.m0
        } else if i == 1 {
            self.m1
        } else {
            self.m2
        };
        m / 16 + 1
    }

    /// Raises the lowest median.
    pub fn inc0(&mut self)
        ensures
            *final(self) == (Medians { m0: raised(old(self).m0, 128), ..*old(self) }),
    {
        self.m0 = self.m0.wrapping_add(self.m0.wrapping_add(128) / 128 * 5);
    }

    /// Lowers the lowest median.
    pub fn dec0(&mut self)
        ensures
            *final(self) == (Medians { m0: lowered(old(self).m0, 128), ..*old(self) }),
    {
        self.m0 = self.m0.wrapping_sub(self.m0.wrapping_add(126) / 128 * 2);
    }

    /// Raises the middle median.
    pub fn inc1(&mut self)
        ensures
            *final(self) == (Medians { m1: raised(old(self).m1, 64), ..*old(self) }),
    {
        self.m1 = self.m1.wrapping_add(self.m1.wrapping_add(64) / 64 * 5);
    }

    /// Lowers the middle median.
    pub fn dec1(&mut self)
        ensures
            *final(self) == (Medians { m1: lowered(old(self).m1, 64), ..*old(self) }),
    {
        self.m1 = self.m1.wrapping_sub(self.m1.wrapping_add(62) / 64 * 2);
    }

    /// Raises the highest median.
    pub fn inc2(&mut self)
        ensures
            *final(self) == (Medians { m2: raised(old(self).m2, 32), ..*old(self) }),
    {
        self.m2 = self.m2.wrapping_add(self.m2.wrapping_add(32) / 32 * 5);
    }

    /// Lowers the highest median.
    pub fn dec2(&mut self)
        ensures
            *final(self) == (Medians { m2: lowered(old(self).m2, 32), ..*old(self) }),
    {
        self.m2 = self.m2.wrapping_sub(self.m2.wrapping_add(30) / 32 * 2);
    }

    /// The medians after a residual whose prefix counts `ones`.
    pub open spec fn adapted(self, ones: nat) -> Medians {
        if ones == 0 {
            Medians { m0: lowered(self.m0, 128), ..self }
        } else if ones == 1 {
            Medians { m0: raised(self.m0, 128), m1: lowered(self.m1, 64), ..self }
        } else if ones == 2 {
            Medians {
                m0: raised(self.m0, 128),
                m1: raised(self.m1, 64),
                m2: lowered(self.m2, 32),
            }
        } else {
            Medians { m0: raised(self.m0, 128), m1: raised(self.m1, 64), m2: raised(self.m2, 32) }
        }
    }

    /// The lowest residual of the interval whose prefix counts `ones`. Behind
    /// the third median the intervals repeat, and the sum wraps at 32 bits.
    pub open spec fn floor(self, ones: u32) -> u32 {
        if ones == 0 {
            0
        } else if ones == 1 {
            width(self.m0) as u32
        } else {
            ((width(self.m0) + width(self.m1)) as u32).wrapping_add(
                ((ones - 2) as u32).wrapping_mul(width(self.m2) as u32),
            )
        }
    }

    /// The width of the interval whose prefix counts `ones`.
    pub open spec fn span(self, ones: u32) -> nat {
        if ones == 0 {
            width(self.m0)
        } else if ones == 1 {
            width(self.m1)
        } else {
            width(self.m2)
        }
    }
}

/// A residual of magnitude `low` with the given sign bit.
pub open spec fn signed(low: u32, sign: nat) -> i32 {
    if sign == 1 {
        !(low as i32)
    } else {
        low as i32
    }
}

/// The state of the coder across a block.
#[derive(Clone, Copy)]
pub struct WordsDecoder {
    /// The medians of the first channel.
    pub c0: Medians,
    /// The medians of the second channel.
    pub c1: Medians,
    /// The half of an odd prefix that belongs to the next residual.
    pub holding_one: u32,
    /// The next residual has no prefix.
    pub holding_zero: bool,
    /// What is left of a run of zeros.
    pub zeros_acc: u32,
}

impl WordsDecoder {
    /// The state at the start of a block.
    pub open spec fn start(c0: Medians, c1: Medians) -> WordsDecoder {
        WordsDecoder { c0, c1, holding_one: 0, holding_zero: false, zeros_acc: 0 }
    }

    /// The medians of a channel.
    pub open spec fn channel(self, second: bool) -> Medians {
        if second {
            self.c1
        } else {
            self.c0
        }
    }

    /// The state with other medians for a channel.
    pub open spec fn with_channel(self, second: bool, m: Medians) -> WordsDecoder {
        if second {
            WordsDecoder { c1: m, ..self }
        } else {
            WordsDecoder { c0: m, ..self }
        }
    }

    /// A residual without prefix, out of the lowest interval.
    pub open spec fn word_held(self, c: Cursor, second: bool) -> (
        Option<i32>,
        WordsDecoder,
        Cursor,
    ) {
        let m = self.channel(second);
        let (low, c1) = c.code((width(m.m0) - 1) as nat);
        (
            Some(signed(low as u32, c1.head())),
            (WordsDecoder { holding_zero: false, ..self }).with_channel(second, m.adapted(0)),
            c1.advance(1),
        )
    }

    /// A residual with its prefix. An odd prefix lends one to the next
    /// residual, an even one leaves the next without prefix.
    pub open spec fn word_prefixed(self, c: Cursor, second: bool) -> (
        Option<i32>,
        WordsDecoder,
        Cursor,
    ) {
        match c.ones_count(16) {
            (None, c1) => (None, self, c1),
            (Some(rr), c1) => {
                let ones = (rr / 2 + self.holding_one) as u32;
                let m = self.channel(second);
                let (code, c2) = c1.code((m.span(ones) - 1) as nat);
                let low = m.floor(ones).wrapping_add(code as u32);
                (
                    Some(signed(low, c2.head())),
                    (WordsDecoder {
                        holding_one: rr % 2,
                        holding_zero: rr % 2 == 0,
                        ..self
                    }).with_channel(second, m.adapted(ones as nat)),
                    c2.advance(1),
                )
            },
        }
    }

    /// Both channels are so quiet that runs of zeros are coded as such.
    pub open spec fn quiet(self) -> bool {
        self.c0.m0 < 2 && self.holding_one == 0 && self.c1.m0 < 2
    }

    /// The next residual, `None` at the end of the stream; the state and the
    /// cursor behind it.
    pub open spec fn next_word(self, c: Cursor, second: bool) -> (
        Option<i32>,
        WordsDecoder,
        Cursor,
    ) {
        if self.holding_zero {
            self.word_held(c, second)
        } else if !self.quiet() {
            self.word_prefixed(c, second)
        } else if self.zeros_acc > 1 {
            (Some(0i32), WordsDecoder { zeros_acc: (self.zeros_acc - 1) as u32, ..self }, c)
        } else if self.zeros_acc == 1 {
            (WordsDecoder { zeros_acc: 0, ..self }).word_prefixed(c, second)
        } else {
            match c.gamma() {
                (None, c1) => (None, self, c1),
                (Some(n), c1) => if n > 0 {
                    (
                        Some(0i32),
                        WordsDecoder {
                            c0: Medians::zero(),
                            c1: Medians::zero(),
                            zeros_acc: n as u32,
                            ..self
                        },
                        c1,
                    )
                } else {
                    self.word_prefixed(c1, second)
                },
            }
        }
    }

    /// Residuals `i` to `n` of a block, as far as the stream goes, and the
    /// cursor behind them. Two channels alternate.
    pub open spec fn words(self, c: Cursor, i: nat, n: nat, mono: bool) -> (Seq<i32>, Cursor)
        decreases n - i,
    {
        if i >= n {
            (Seq::empty(), c)
        } else {
            match self.next_word(c, !mono && i % 2 == 1) {
                (None, _, c1) => (Seq::empty(), c1),
                (Some(v), w1, c1) => {
                    let (rest, end) = w1.words(c1, i + 1, n, mono);
                    (seq![v] + rest, end)
                },
            }
        }
    }

    /// The state at the start of a block.
    pub fn new(c0: Medians, c1: Medians) -> (w: Self)
        ensures
            w == WordsDecoder::start(c0, c1),
    {
        WordsDecoder { c0, c1, holding_one: 0, holding_zero: false, zeros_acc: 0 }
    }

    fn set_channel(&mut self, second: bool, m: Medians)
        ensures
            *final(self) == old(self).with_channel(second, m),
    {
        if second {
            self.c1 = m;
        } else {
            self.c0 = m;
        }
    }

    fn get_held(&mut self, r: &mut BsReader, second: bool) -> (v: i32)
        requires
            old(r).inv(),
        ensures
            final(r).inv(),
            (Some(v), *final(self), final(r).cursor()) == old(self).word_held(
                old(r).cursor(),
                second,
            ),
    {
        self.holding_zero = false;
        let mut m: Medians = if second {
            self.c1
        } else {
            self.c0
        };
        let low: u32 = r.read_code(m.get(0) - 1);
        m.dec0();
        self.set_channel(second, m);
        let sign: u32 = r.getbit();
        if sign == 1 {
            !(low as i32)
        } else {
            low as i32
        }
    }

    fn get_prefixed(&mut self, r: &mut BsReader, second: bool) -> (v: Option<i32>)
        requires
            old(r).inv(),
            old(self).holding_one <= 1,
        ensures
            final(r).inv(),
            (v, *final(self), final(r).cursor()) == old(self).word_prefixed(
                old(r).cursor(),
                second,
            ),
            final(self).holding_one <= 1,
    {
        let rr: u32 = match r.read_ones_count(16) {
            Some(rr) => rr,
            None => {
                return None;
            },
        };
        let carry: u32 = self.holding_one;
        self.holding_one = rr % 2;
        self.holding_zero = rr % 2 == 0;
        let ones: u32 = rr / 2 + carry;
        let mut m: Medians = if second {
            self.c1
        } else {
            self.c0
        };
        let mut low: u32;
        let span: u32;
        if ones == 0 {
            low = 0;
            span = m.get(0);
            m.dec0();
        } else {
            low = m.get(0);
            m.inc0();
            if ones == 1 {
                span = m.get(1);
                m.dec1();
            } else {
                low = low + m.get(1);
                m.inc1();
                span = m.get(2);
                low = low.wrapping_add((ones - 2).wrapping_mul(span));
                if ones == 2 {
                    m.dec2();
                } else {
                    m.inc2();
                }
            }
        }
        self.set_channel(second, m);
        low = low.wrapping_add(r.read_code(span - 1));
        let sign: u32 = r.getbit();
        if sign == 1 {
            Some(!(low as i32))
        } else {
            Some(low as i32)
        }
    }

    /// Takes the next residual; `None` at the end of the stream.
    pub fn get_word(&mut self, r: &mut BsReader, second: bool) -> (v: Option<i32>)
        requires
            old(r).inv(),
            old(self).holding_one <= 1,
        ensures
            final(r).inv(),
            (v, *final(self), final(r).cursor()) == old(self).next_word(
                old(r).cursor(),
                second,
            ),
            final(self).holding_one <= 1,
    {
        if self.holding_zero {
            return Some(self.get_held(r, second));
        }
        if self.c0.m0 < 2 && self.holding_one == 0 && self.c1.m0 < 2 {
            if self.zeros_acc > 0 {
                self.zeros_acc = self.zeros_acc - 1;
                if self.zeros_acc > 0 {
                    return Some(0);
                }
            } else {
                let n: u32 = match r.read_egc_count() {
                    Some(n) => n,
                    None => {
                        return None;
                    },
                };
                self.zeros_acc = n;
                if n > 0 {
                    self.c0 = Medians::none();
                    self.c1 = Medians::none();
                    return Some(0);
                }
            }
        }
        self.get_prefixed(r, second)
    }

    /// Takes the residuals of `nframes` frames into `buffer`. The result says
    /// whether all of them came out of the stream.
    pub fn get_words_lossless(
        &mut self,
        r: &mut BsReader,
        nframes: u32,
        mono: bool,
        buffer: &mut Vec<i32>,
    ) -> (complete: bool)
        requires
            old(r).inv(),
            old(self).holding_one <= 1,
            !mono ==> 2 * nframes <= u32::MAX,
        ensures
            final(r).inv(),
            (final(buffer)@, final(r).cursor()) == old(self).words(
                old(r).cursor(),
                0,
                residual_count(nframes, mono),
                mono,
            ),
            complete == (final(buffer)@.len() == residual_count(nframes, mono)
                && !final(r).cursor().exhausted()),
    {
        buffer.clear();
        let n: u32 = if mono {
            nframes
        } else {
            2 * nframes
        };
        let ghost all = self.words(r.cursor(), 0, n as nat, mono);
        let mut i: u32 = 0;
        while i < n
            invariant_except_break
                all.0 == buffer@ + self.words(r.cursor(), i as nat, n as nat, mono).0,
                all.1 == self.words(r.cursor(), i as nat, n as nat, mono).1,
                buffer@.len() == i,
            invariant
                r.inv(),
                self.holding_one <= 1,
                i <= n,
            ensures
                all == (buffer@, r.cursor()),
                buffer@.len() == i,
            decreases n - i,
        {
            let ghost before = buffer@;
            let second: bool = !mono && i % 2 == 1;
            match self.get_word(r, second) {
                Some(v) => {
                    buffer.push(v);
                    i = i + 1;
                    proof {
                        let rest = self.words(r.cursor(), i as nat, n as nat, mono).0;
                        assert(before + (seq![v] + rest) =~= buffer@ + rest);
                    }
                },
                None => {
                    assert(before + Seq::<i32>::empty() =~= before);
                    break;
                },
            }
        }
        assert(all == (buffer@, r.cursor())) by {
            assert(buffer@ + Seq::<i32>::empty() =~= buffer@);
        }
        i == n && !r.exhausted()
    }
}

/// The number of residuals in `nframes` frames.
pub open spec fn residual_count(nframes: u32, mono: bool) -> nat {
    if mono {
        nframes as nat
    } else {
        (2 * nframes) as nat
    }
}

} // verus!
