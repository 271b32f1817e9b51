//! Samples on their way to the output: other numbers of channels, whole frames
//! into the buffer, levels and spectrum input out of it. Samples are carried as
//! bits.

use crate::float::{absolute, greater, is_greater, magnitude};
use crate::spectrum::{FFT_SIZE, ONE};
use vstd::arithmetic::div_mod::{
    lemma_fundamental_div_mod, lemma_fundamental_div_mod_converse, lemma_mod_bound,
};
use vstd::prelude::*;

verus! {

/// Channel `c` of frame `f` after a change from `from` channels: the channel of
/// that number, or a quieter copy of the first one where there is none.
pub open spec fn adapted_sample(
    samples: Seq<u32>,
    faded: Seq<u32>,
    from: int,
    f: int,
    c: int,
) -> u32 {
    if c < from {
        samples[f * from + c]
    } else {
        faded[f]
    }
}

/// Samples with another number of channels. `faded` holds, for each frame, the
/// quieter copy of its first sample.
pub open spec fn adapted(samples: Seq<u32>, faded: Seq<u32>, from: int, to: int) -> Seq<u32> {
    if from == to || from == 0 || to == 0 {
        samples
    } else {
        Seq::new(
            (samples.len() as int / from * to) as nat,
            |k: int| adapted_sample(samples, faded, from, k / to, k % to),
        )
    }
}

/// Changes the number of channels.
pub fn adapt_channels(samples: &[u32], faded: &[u32], from_ch: u16, to_ch: u16) -> (out: Vec<u32>)
    requires
        0 < from_ch < to_ch ==> faded.len() >= samples.len() as int / from_ch as int,
        from_ch > 0 ==> samples.len() as int / from_ch as int * to_ch <= usize::MAX,
    ensures
        out@ == adapted(samples@, faded@, from_ch as int, to_ch as int),
{
    let mut out: Vec<u32> = Vec::new();
    if from_ch == to_ch || from_ch == 0 || to_ch == 0 {
        let mut i: usize = 0;
        while i < samples.len()
            invariant
                i <= samples.len(),
                out@ == samples@.take(i as int),
            decreases samples.len() - i,
        {
            out.push(samples[i]);
            assert(out@ =~= samples@.take(i + 1));
            i = i + 1;
        }
        assert(out@ =~= samples@);
        return out;
    }
    let from: usize = from_ch as usize;
    let to: usize = to_ch as usize;
    let frames: usize = samples.len() / from;
    let ghost all = adapted(samples@, faded@, from as int, to as int);
    let mut f: usize = 0;
    assert(0 * to == 0);
    assert(out@ =~= all.take(0));
    while f < frames
        invariant
            from > 0,
            to > 0,
            from != to,
            f <= frames == samples.len() as int / from as int,
            from < to ==> faded.len() >= frames,
            all == adapted(samples@, faded@, from as int, to as int),
            out@ == all.take(f * to),
        decreases frames - f,
    {
        proof {
            assert(f * to + to == (f + 1) * to) by (nonlinear_arith);
            assert((f + 1) * to <= frames * to) by (nonlinear_arith)
                requires
                    f < frames,
                    to > 0,
            ;
            assert(f * to >= 0) by (nonlinear_arith)
                requires
                    f >= 0,
                    to > 0,
            ;
            assert(f * from + from == (f + 1) * from) by (nonlinear_arith);
            assert((f + 1) * from <= frames * from) by (nonlinear_arith)
                requires
                    f < frames,
                    from > 0,
            ;
            lemma_fundamental_div_mod(samples.len() as int, from as int);
            lemma_mod_bound(samples.len() as int, from as int);
            assert(from * frames == frames * from) by (nonlinear_arith);
        }
        let mut c: usize = 0;
        while c < to
            invariant
                from > 0,
                to > 0,
                from != to,
                c <= to,
                f < frames,
                from < to ==> faded.len() >= frames,
                0 <= f * to,
                f * to + to <= all.len(),
                f * from + from <= samples.len(),
                all == adapted(samples@, faded@, from as int, to as int),
                out@ == all.take(f * to + c),
            decreases to - c,
        {
            let v: u32 = if c < from {
                samples[f * from + c]
            } else {
                faded[f]
            };
            proof {
                lemma_fundamental_div_mod_converse(f * to + c, to as int, f as int, c as int);
                assert(all[f * to + c] == v);
            }
            out.push(v);
            assert(out@ =~= all.take(f * to + c + 1));
            c = c + 1;
        }
        f = f + 1;
    }
    assert(out@ =~= all);
    out
}

/// Giving whole frames more channels and taking them away again changes nothing.
pub proof fn law_adapt_back(s: Seq<u32>, faded: Seq<u32>, other: Seq<u32>, from: int, to: int)
    requires
        0 < from <= to,
        s.len() as int % from == 0,
    ensures
        adapted(adapted(s, faded, from, to), other, to, from) == s,
{
    if from != to {
        let frames = s.len() as int / from;
        let wide = adapted(s, faded, from, to);
        lemma_fundamental_div_mod(s.len() as int, from);
        assert(frames * from == from * frames) by (nonlinear_arith);
        assert(frames * to >= 0) by (nonlinear_arith)
            requires
                frames >= 0,
                to > 0,
        ;
        lemma_fundamental_div_mod_converse(frames * to, to, frames, 0);
        assert(wide.len() as int / to == frames);
        let back = adapted(wide, other, to, from);
        assert(back.len() == s.len());
        assert forall|k: int| 0 <= k < s.len() implies #[trigger] back[k] == s[k] by {
            let f = k / from;
            let c = k % from;
            lemma_fundamental_div_mod(k, from);
            lemma_mod_bound(k, from);
            assert(f * from == from * f) by (nonlinear_arith);
            assert(0 <= f < frames) by (nonlinear_arith)
                requires
                    k == from * f + c,
                    0 <= c < from,
                    0 <= k < from * frames,
                    from > 0,
            ;
            assert(0 <= f * to && f * to + to <= frames * to) by (nonlinear_arith)
                requires
                    0 <= f < frames,
                    to > 0,
            ;
            lemma_fundamental_div_mod_converse(f * to + c, to, f, c);
            assert(wide[f * to + c] == s[f * from + c]);
        }
        assert(back =~= s);
    }
}

/// How often an attempt that brings nothing is repeated.
pub const MAX_RETRIES: u32 = 100;

/// Samples being put into a buffer that another thread empties. Only whole
/// frames are put in.
#[derive(Debug, Clone, Copy)]
pub struct Push {
    /// The number of samples.
    pub len: usize,
    /// Samples per frame.
    pub frame: usize,
    /// The samples put in.
    pub pushed: usize,
    /// The attempts in a row that brought nothing.
    pub retries: u32,
}

/// What follows an attempt.
#[derive(Debug, Clone, Copy, PartialEq, Eq, Structural)]
pub enum PushStep {
    /// Another attempt at once.
    Again,
    /// Another attempt after a while.
    Wait,
    /// None: nobody seems to empty the buffer.
    GiveUp,
}

impl Push {
    /// Whole frames were put in.
    pub open spec fn inv(self) -> bool {
        &&& self.frame >= 1
        &&& self.pushed <= self.len
        &&& self.pushed % self.frame == 0
        &&& self.retries <= MAX_RETRIES
    }

    /// Nothing was put in.
    pub fn new(len: usize, channels: u16) -> (p: Push)
        ensures
            p.inv(),
            p.len == len,
            p.frame == (if channels > 1 {
                channels as int
            } else {
                1
            }),
            p.pushed == 0,
            p.retries == 0,
    {
        let frame: usize = if channels > 1 {
            channels as usize
        } else {
            1
        };
        assert(0int % (frame as int) == 0) by (nonlinear_arith)
            requires
                frame >= 1,
        ;
        Push { len, frame, pushed: 0, retries: 0 }
    }

    /// Whether no whole frame is left.
    pub fn done(&self) -> (r: bool)
        requires
            self.inv(),
        ensures
            r == (self.len - self.pushed < self.frame),
    {
        self.len - self.pushed < self.frame
    }

    /// The number of samples for the next attempt, where there is room for
    /// `vacant`: as many whole frames as are left and fit.
    pub fn offer(&self, vacant: usize) -> (n: usize)
        requires
            self.inv(),
        ensures
            n <= vacant,
            n <= self.len - self.pushed,
            n % self.frame == 0,
            n + self.frame > vacant || n + self.frame > self.len - self.pushed,
    {
        let left: usize = self.len - self.pushed;
        let most: usize = if left < vacant {
            left
        } else {
            vacant
        };
        proof {
            let q = most as int / (self.frame as int);
            lemma_fundamental_div_mod(most as int, self.frame as int);
            lemma_mod_bound(most as int, self.frame as int);
            assert(self.frame * q == q * self.frame) by (nonlinear_arith);
            assert(q * self.frame >= 0) by (nonlinear_arith)
                requires
                    q >= 0,
                    self.frame >= 1,
            ;
            lemma_fundamental_div_mod_converse(
                most - most as int % (self.frame as int),
                self.frame as int,
                q,
                0,
            );
        }
        most - most % self.frame
    }

    /// An attempt put `n` samples in.
    pub fn took(&mut self, n: usize) -> (step: PushStep)
        requires
            old(self).inv(),
            n <= old(self).len - old(self).pushed,
            n % old(self).frame == 0,
        ensures
            final(self).inv(),
            final(self).len == old(self).len,
            final(self).frame == old(self).frame,
            final(self).pushed == old(self).pushed + n,
            step == (if n > 0 {
                PushStep::Again
            } else if old(self).retries < MAX_RETRIES {
                PushStep::Wait
            } else {
                PushStep::GiveUp
            }),
            final(self).retries == (if n > 0 {
                0
            } else if old(self).retries < MAX_RETRIES {
                old(self).retries + 1
            } else {
                MAX_RETRIES as int
            }),
    {
        proof {
            let f = self.frame as int;
            let a = self.pushed as int / f;
            let b = n as int / f;
            lemma_fundamental_div_mod(self.pushed as int, f);
            lemma_fundamental_div_mod(n as int, f);
            assert(self.pushed + n == (a + b) * f + 0) by (nonlinear_arith)
                requires
                    self.pushed == f * a,
                    n == f * b,
            ;
            lemma_fundamental_div_mod_converse(self.pushed + n, f, a + b, 0);
        }
        self.pushed = self.pushed + n;
        if n > 0 {
            self.retries = 0;
            PushStep::Again
        } else if self.retries < MAX_RETRIES {
            self.retries = self.retries + 1;
            PushStep::Wait
        } else {
            PushStep::GiveUp
        }
    }
}

/// What goes into the spectrum and the level display: the last samples on the
/// left and on the right, and the highest since the last display.
#[verifier::ext_equal]
pub struct Scope {
    /// The samples on the left, in a ring.
    pub left: Seq<u32>,
    /// The samples on the right, in a ring.
    pub right: Seq<u32>,
    /// Where the next frame goes.
    pub next: int,
    /// The highest on the left.
    pub peak_l: u32,
    /// The highest on the right.
    pub peak_r: u32,
}

/// The higher of a peak and a sample without its sign.
pub open spec fn raised(peak: u32, s: u32) -> u32 {
    if greater(magnitude(s), peak) {
        magnitude(s)
    } else {
        peak
    }
}

impl Scope {
    /// One sample of channel `c`. With one channel, the right is the left; the
    /// channels behind the first two are left out.
    pub open spec fn heard(self, s: u32, c: int, channels: int) -> Scope {
        let written = if c == 0 {
            let l = Scope {
                left: self.left.update(self.next, s),
                peak_l: raised(self.peak_l, s),
                ..self
            };
            if channels == 1 {
                Scope {
                    right: self.right.update(self.next, s),
                    peak_r: raised(self.peak_r, s),
                    ..l
                }
            } else {
                l
            }
        } else if c == 1 {
            Scope {
                right: self.right.update(self.next, s),
                peak_r: raised(self.peak_r, s),
                ..self
            }
        } else {
            self
        };
        if c == channels - 1 {
            Scope { next: (self.next + 1) % (FFT_SIZE as int), ..written }
        } else {
            written
        }
    }

    /// The first `n` samples, interleaved.
    pub open spec fn heard_all(self, data: Seq<u32>, channels: int, n: nat) -> Scope
        decreases n,
    {
        if n == 0 {
            self
        } else {
            self.heard_all(data, channels, (n - 1) as nat).heard(
                data[n - 1],
                (n - 1) % channels,
                channels,
            )
        }
    }
}

/// With one channel both sides show the same.
pub proof fn law_mono_both_sides(s: Scope, data: Seq<u32>, n: nat)
    requires
        s.left == s.right,
        s.peak_l == s.peak_r,
    ensures
        s.heard_all(data, 1, n).left == s.heard_all(data, 1, n).right,
        s.heard_all(data, 1, n).peak_l == s.heard_all(data, 1, n).peak_r,
    decreases n,
{
    if n > 0 {
        law_mono_both_sides(s, data, (n - 1) as nat);
        assert((n - 1) % 1 == 0);
    }
}

/// The samples behind the displays.
pub struct ScopeBuffer {
    /// The samples on the left, in a ring.
    pub l_buf: Vec<u32>,
    /// The samples on the right, in a ring.
    pub r_buf: Vec<u32>,
    /// Where the next frame goes.
    pub buf_idx: usize,
    /// The highest on the left.
    pub window_peak_l: u32,
    /// The highest on the right.
    pub window_peak_r: u32,
}

impl View for ScopeBuffer {
    type V = Scope;

    open spec fn view(&self) -> Scope {
        Scope {
            left: self.l_buf@,
            right: self.r_buf@,
            next: self.buf_idx as int,
            peak_l: self.window_peak_l,
            peak_r: self.window_peak_r,
        }
    }
}

fn silence() -> (v: Vec<u32>)
    ensures
        v@ == Seq::new(FFT_SIZE as nat, |i: int| 0u32),
{
    let mut v: Vec<u32> = Vec::new();
    v.resize(FFT_SIZE, 0u32);
    assert(v@ =~= Seq::new(FFT_SIZE as nat, |i: int| 0u32));
    v
}

impl ScopeBuffer {
    /// The rings have the length of a transform.
    pub open spec fn inv(&self) -> bool {
        &&& self.l_buf@.len() == FFT_SIZE
        &&& self.r_buf@.len() == FFT_SIZE
        &&& self.buf_idx < FFT_SIZE
    }

    /// Silence.
    pub fn new() -> (b: ScopeBuffer)
        ensures
            b.inv(),
            b@ == (Scope {
                left: Seq::new(FFT_SIZE as nat, |i: int| 0u32),
                right: Seq::new(FFT_SIZE as nat, |i: int| 0u32),
                next: 0,
                peak_l: 0,
                peak_r: 0,
            }),
    {
        ScopeBuffer {
            l_buf: silence(),
            r_buf: silence(),
            buf_idx: 0,
            window_peak_l: 0,
            window_peak_r: 0,
        }
    }

    /// Takes interleaved samples in.
    pub fn accumulate_spectrum(&mut self, data: &[u32], channels: u16)
        requires
            old(self).inv(),
        ensures
            final(self).inv(),
            final(self)@ == old(self)@.heard_all(
                data@,
                if channels > 1 {
                    channels as int
                } else {
                    1
                },
                data@.len(),
            ),
    {
        let ch: usize = if channels > 1 {
            channels as usize
        } else {
            1
        };
        let mut i: usize = 0;
        while i < data.len()
            invariant
                self.inv(),
                ch >= 1,
                i <= data.len(),
                self@ == old(self)@.heard_all(data@, ch as int, i as nat),
            decreases data.len() - i,
        {
            let ghost before = self@;
            let s: u32 = data[i];
            let c: usize = i % ch;
            let at: usize = self.buf_idx;
            let m: u32 = absolute(s);
            if c == 0 {
                if is_greater(m, self.window_peak_l) {
                    self.window_peak_l = m;
                }
                self.l_buf[at] = s;
                if ch == 1 {
                    self.r_buf[at] = s;
                    if is_greater(m, self.window_peak_r) {
                        self.window_peak_r = m;
                    }
                }
            } else if c == 1 {
                if is_greater(m, self.window_peak_r) {
                    self.window_peak_r = m;
                }
                self.r_buf[at] = s;
            }
            if c == ch - 1 {
                self.buf_idx = (at + 1) % FFT_SIZE;
            }
            assert(self@ =~= before.heard(s, c as int, ch as int));
            i = i + 1;
        }
    }
}

/// The frames between two displays, about ten milliseconds.
pub const LEVEL_WINDOW_FRAMES: u64 = 480;

/// What the output callback keeps between two calls.
pub struct Meter {
    /// The flushes seen.
    pub last_flush: u64,
    /// The frames since the last display.
    pub window_frames: u64,
    /// The samples behind the displays.
    pub scope: ScopeBuffer,
}

/// A level, at most one.
pub open spec fn level_of(peak: u32) -> u32 {
    if greater(peak, ONE) {
        ONE
    } else {
        peak
    }
}

fn capped(peak: u32) -> (level: u32)
    ensures
        level == level_of(peak),
{
    if is_greater(peak, ONE) {
        ONE
    } else {
        peak
    }
}

impl Meter {
    /// A display is due before the frames are too many to count.
    pub open spec fn inv(&self) -> bool {
        &&& self.scope.inv()
        &&& self.window_frames < LEVEL_WINDOW_FRAMES
    }

    /// Nothing was played.
    pub fn new() -> (m: Meter)
        ensures
            m.inv(),
            m.last_flush == 0,
            m.window_frames == 0,
            m.scope@ == (Scope {
                left: Seq::new(FFT_SIZE as nat, |i: int| 0u32),
                right: Seq::new(FFT_SIZE as nat, |i: int| 0u32),
                next: 0,
                peak_l: 0,
                peak_r: 0,
            }),
    {
        Meter { last_flush: 0, window_frames: 0, scope: ScopeBuffer::new() }
    }

    /// Looks for a flush since the last call. After one, the displays start anew,
    /// and what is in the buffer has to be dropped.
    pub fn flushed(&mut self, epoch: u64) -> (r: bool)
        requires
            old(self).inv(),
        ensures
            final(self).inv(),
            r == (epoch != old(self).last_flush),
            final(self).last_flush == epoch,
            !r ==> *final(self) == *old(self),
            r ==> final(self).window_frames == 0 && final(self).scope@ == (Scope {
                left: Seq::new(FFT_SIZE as nat, |i: int| 0u32),
                right: Seq::new(FFT_SIZE as nat, |i: int| 0u32),
                next: 0,
                peak_l: 0,
                peak_r: 0,
            }),
    {
        if epoch == self.last_flush {
            return false;
        }
        self.last_flush = epoch;
        self.window_frames = 0;
        self.scope = ScopeBuffer::new();
        true
    }

    /// Takes in samples that are played. The result is the number of frames, and
    /// the levels where a display is due.
    pub fn played(&mut self, data: &[u32], channels: u16) -> (r: (u64, Option<(u32, u32)>))
        requires
            old(self).inv(),
        ensures
            final(self).inv(),
            final(self).last_flush == old(self).last_flush,
            ({
                let ch = if channels > 1 {
                    channels as int
                } else {
                    1
                };
                let after = old(self).scope@.heard_all(data@, ch, data@.len());
                let due = old(self).window_frames + r.0 >= LEVEL_WINDOW_FRAMES;
                &&& r.0 == data.len() as int / ch
                &&& r.1 == if due {
                    Some((level_of(after.peak_l), level_of(after.peak_r)))
                } else {
                    None
                }
                &&& final(self).scope@ == if due {
                    Scope { peak_l: 0, peak_r: 0, ..after }
                } else {
                    after
                }
                &&& final(self).window_frames == if due {
                    0
                } else {
                    old(self).window_frames + r.0
                }
            }),
    {
        let ch: usize = if channels > 1 {
            channels as usize
        } else {
            1
        };
        let frames: u64 = (data.len() / ch) as u64;
        self.scope.accumulate_spectrum(data, channels);
        if frames >= LEVEL_WINDOW_FRAMES - self.window_frames {
            let levels: (u32, u32) = (
                capped(self.scope.window_peak_l),
                capped(self.scope.window_peak_r),
            );
            self.window_frames = 0;
            self.scope.window_peak_l = 0;
            self.scope.window_peak_r = 0;
            (frames, Some(levels))
        } else {
            self.window_frames = self.window_frames + frames;
            (frames, None)
        }
    }
}

} // verus!
