//! What becomes of samples on their way to the output, frame by frame.

use crate::float::{finite, magnitude};
use crate::float_laws::{law_greater, value_of};
use crate::sample_utils::{adapted, raised, Scope};
use crate::spectrum::{oldest_first, waveform_of};
use vstd::arithmetic::div_mod::lemma_fundamental_div_mod_converse;
use vstd::prelude::*;

verus! {

/// With another number of channels, a frame keeps those that there is room for, in order;
/// further ones are filled with its quieter first sample. There are as many frames as
/// before.
pub proof fn law_frames_adapted(
    samples: Seq<u32>,
    faded: Seq<u32>,
    from: int,
    to: int,
    frames: int,
    f: int,
    c: int,
)
    requires
        from > 0,
        to > 0,
        samples.len() == frames * from,
        0 <= f < frames,
        0 <= c < to,
    ensures
        adapted(samples, faded, from, to).len() == frames * to,
        adapted(samples, faded, from, to)[f * to + c] == (if c < from {
            samples[f * from + c]
        } else {
            faded[f]
        }),
{
    assert(0 <= f * to + c < frames * to) by (nonlinear_arith)
        requires
            0 <= f < frames,
            0 <= c < to,
    ;
    lemma_fundamental_div_mod_converse(frames * from, from, frames, 0);
    lemma_fundamental_div_mod_converse(f * to + c, to, f, c);
}

/// After `n` frames, each place of the ring that was reached holds the first channel on the
/// left and the second on the right, and the next frame goes behind the last.
pub proof fn law_ring_filled(s: Scope, data: Seq<u32>, channels: int, n: nat)
    requires
        channels >= 2,
        n <= 4096,
        data.len() >= n * channels,
        s.left.len() == 4096,
        s.right.len() == 4096,
        0 <= s.next < 4096,
    ensures
        ({
            let t = s.heard_all(data, channels, (n * channels) as nat);
            &&& t.left.len() == 4096
            &&& t.right.len() == 4096
            &&& t.next == (s.next + n) % 4096
            &&& forall|f: int|
                #![trigger data[f * channels]]
                0 <= f < n ==> t.left[(s.next + f) % 4096] == data[f * channels]
                    && t.right[(s.next + f) % 4096] == data[f * channels + 1]
        }),
    decreases n,
{
    if n == 0 {
        assert(0 * channels == 0);
    } else {
        let m = (n - 1) as nat;
        assert(n * channels == m * channels + channels) by (nonlinear_arith)
            requires
                n == m + 1,
        ;
        assert(m * channels >= 0) by (nonlinear_arith)
            requires
                channels >= 2,
        ;
        law_ring_filled(s, data, channels, m);
        lemma_one_frame(s, data, channels, m, channels);
        let u = s.heard_all(data, channels, (m * channels) as nat);
        let t = s.heard_all(data, channels, (n * channels) as nat);
        assert forall|f: int|
            #![trigger data[f * channels]]
            0 <= f < n implies t.left[(s.next + f) % 4096] == data[f * channels]
            && t.right[(s.next + f) % 4096] == data[f * channels + 1] by {
            if f < m {
                assert(u.left[(s.next + f) % 4096] == data[f * channels]);
                assert((s.next + f) % 4096 != (s.next + m) % 4096);
            }
        }
    }
}

/// A frame taken in, up to channel `c`.
proof fn lemma_one_frame(s: Scope, data: Seq<u32>, channels: int, m: nat, c: int)
    requires
        channels >= 2,
        0 <= c <= channels,
        m * channels >= 0,
        ({
            let u = s.heard_all(data, channels, (m * channels) as nat);
            &&& u.left.len() == 4096
            &&& u.right.len() == 4096
            &&& 0 <= u.next < 4096
        }),
    ensures
        ({
            let u = s.heard_all(data, channels, (m * channels) as nat);
            let t = s.heard_all(data, channels, (m * channels + c) as nat);
            &&& t.left == (if c >= 1 {
                u.left.update(u.next, data[m * channels])
            } else {
                u.left
            })
            &&& t.right == (if c >= 2 {
                u.right.update(u.next, data[m * channels + 1])
            } else {
                u.right
            })
            &&& t.next == (if c == channels {
                (u.next + 1) % 4096
            } else {
                u.next
            })
        }),
    decreases c,
{
    if c > 0 {
        lemma_one_frame(s, data, channels, m, c - 1);
        let k = m * channels + c - 1;
        lemma_fundamental_div_mod_converse(k, channels, m as int, c - 1);
    }
}

/// Peaks never fall while samples are taken in, and none of a side exceeds its peak.
pub proof fn law_peaks_cover(s: Scope, data: Seq<u32>, channels: int, n: nat, i: int)
    requires
        channels >= 1,
        n <= data.len(),
        0 <= i < n,
        finite(s.peak_l),
        finite(s.peak_r),
        forall|k: int| 0 <= k < n ==> finite(#[trigger] data[k]),
    ensures
        ({
            let t = s.heard_all(data, channels, n);
            &&& finite(t.peak_l)
            &&& finite(t.peak_r)
            &&& value_of(t.peak_l) >= value_of(s.peak_l)
            &&& value_of(t.peak_r) >= value_of(s.peak_r)
            &&& i % channels == 0 ==> value_of(t.peak_l) >= value_of(magnitude(data[i]))
            &&& i % channels == 1 || channels == 1 ==> value_of(t.peak_r) >= value_of(
                magnitude(data[i]),
            )
        }),
    decreases n,
{
    let m = (n - 1) as nat;
    let u = s.heard_all(data, channels, m);
    if m > 0 {
        law_peaks_cover(
            s,
            data,
            channels,
            m,
            if i < m {
                i
            } else {
                0
            },
        );
    }
    assert(finite(data[m as int]));
    lemma_raised(u.peak_l, data[m as int]);
    lemma_raised(u.peak_r, data[m as int]);
    if channels == 1 {
        assert(m as int % channels == 0);
        assert(i % channels == 0);
    }
}

proof fn lemma_raised(peak: u32, s: u32)
    requires
        finite(peak),
        finite(s),
    ensures
        finite(raised(peak, s)),
        value_of(raised(peak, s)) >= value_of(peak),
        value_of(raised(peak, s)) >= value_of(magnitude(s)),
        raised(peak, s) == peak || raised(peak, s) == magnitude(s),
{
    let m = magnitude(s);
    assert(m & 0x7FFF_FFFF == m) by (bit_vector)
        requires
            m == s & 0x7FFF_FFFF,
    ;
    law_greater(m, peak);
}

/// A ring read from the place of the next sample on gives the oldest first: what was
/// written last comes last.
pub proof fn law_ring_order(ring: Seq<u32>, next: int, k: int)
    requires
        ring.len() == 4096,
        0 <= next < 4096,
        0 <= k < 4096,
    ensures
        oldest_first(ring, next).len() == 4096,
        oldest_first(ring, next)[k] == (if next + k < 4096 {
            ring[next + k]
        } else {
            ring[next + k - 4096]
        }),
{
}

/// The points of a waveform lie evenly over the window: every thirty-second sample.
pub proof fn law_waveform_points(window: Seq<u32>, i: int)
    requires
        window.len() == 4096,
        0 <= i < 128,
    ensures
        waveform_of(window).len() == 128,
        waveform_of(window)[i] == window[32 * i],
        32 * i < window.len(),
{
}

} // verus!
