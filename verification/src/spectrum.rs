//! The spectrum display: which bins make a band, and how peaks are held.

use crate::float::{absolute, clamp, clamped, finite, greater, is_finite, is_greater};
use crate::float::{not_a_number, rank};
use vstd::prelude::*;

verus! {

/// The number of bands per channel.
pub const N_BANDS: usize = 256;

/// The number of samples in a transform.
pub const FFT_SIZE: usize = 4096;

/// The number of points of the waveform display.
pub const WAVEFORM_LEN: usize = 128;

/// The bits of one.
pub const ONE: u32 = 0x3F80_0000;

/// The bins of a band, from those that its edges fall into: at most the lower
/// half of the transform, and at least one bin.
pub fn band_bins(low: usize, high: usize) -> (r: (usize, usize))
    ensures
        r.0 == if low < FFT_SIZE / 2 {
            low as int
        } else {
            FFT_SIZE as int / 2
        },
        r.1 == if high < FFT_SIZE / 2 && high > r.0 {
            high as int
        } else if high >= FFT_SIZE / 2 && FFT_SIZE / 2 > r.0 {
            FFT_SIZE as int / 2
        } else {
            r.0 + 1
        },
        r.0 < r.1 <= FFT_SIZE,
{
    let n: usize = FFT_SIZE / 2;
    let lo: usize = if low < n {
        low
    } else {
        n
    };
    let top: usize = if high < n {
        high
    } else {
        n
    };
    let hi: usize = if top > lo {
        top
    } else {
        lo + 1
    };
    (lo, hi)
}

/// A band between zero and one; what is no number counts as zero.
pub open spec fn sanitized(v: u32) -> u32 {
    if not_a_number(v) {
        0
    } else {
        clamped(v, 0, ONE)
    }
}

/// Brings a band between zero and one.
pub fn sanitize_band(v: u32) -> (r: u32)
    ensures
        r == sanitized(v),
{
    if absolute(v) > 0x7F80_0000 {
        0
    } else {
        clamp(v, 0, ONE)
    }
}

/// The peak of a band: what is left of the old one, or the band where that is
/// higher.
pub open spec fn held(fallen: u32, band: u32) -> u32 {
    if greater(fallen, sanitized(band)) {
        fallen
    } else {
        sanitized(band)
    }
}

/// The peak of a band after its old peak has fallen.
pub fn hold_peak(fallen: u32, band: u32) -> (r: u32)
    ensures
        r == held(fallen, band),
{
    let b: u32 = sanitize_band(band);
    if is_greater(fallen, b) {
        fallen
    } else {
        b
    }
}

/// Between zero and one.
pub open spec fn is_level(v: u32) -> bool {
    !not_a_number(v) && 0 <= rank(v) <= rank(ONE)
}

/// A band is never above its peak, and a peak that has not risen above one stays
/// between zero and one.
pub proof fn law_peak_bounds(fallen: u32, band: u32)
    requires
        !greater(fallen, ONE),
    ensures
        !greater(sanitized(band), held(fallen, band)),
        is_level(held(fallen, band)),
{
    assert(0u32 & 0x7FFF_FFFF == 0 && 0x3F80_0000u32 & 0x7FFF_FFFF == 0x3F80_0000)
        by (bit_vector);
}

/// Whether peaks can fall by so much in a second: it is finite and not negative.
pub open spec fn can_fall_by(v: u32) -> bool {
    finite(v) && rank(v) >= 0
}

/// Tests whether peaks can fall by so much in a second.
pub fn is_fall_rate(v: u32) -> (r: bool)
    ensures
        r == can_fall_by(v),
{
    is_finite(v) && (v < 0x8000_0000 || absolute(v) == 0)
}

/// The bits of 0.6: how far peaks fall in a second, where nothing else is asked for.
pub const DEFAULT_PEAK_FALL: u32 = 0x3F19_999A;

/// The peaks of all bands, once the old ones have fallen.
pub open spec fn all_held(fallen: Seq<u32>, bands: Seq<u32>) -> Seq<u32> {
    Seq::new(N_BANDS as nat, |i: int| held(fallen[i], bands[i]))
}

/// Peaks that stay and then fall slowly.
#[derive(Debug, Clone, PartialEq)]
pub struct SpectrumPeakHold {
    peaks: Vec<u32>,
    fall_per_sec: u32,
}

impl View for SpectrumPeakHold {
    type V = Seq<u32>;

    closed spec fn view(&self) -> Seq<u32> {
        self.peaks@
    }
}

impl Default for SpectrumPeakHold {
    fn default() -> (r: Self)
        ensures
            r.inv(),
            r.rate() == DEFAULT_PEAK_FALL,
            r@ == Seq::new(N_BANDS as nat, |i: int| 0u32),
    {
        assert(0x3F19_999Au32 & 0x7FFF_FFFF == 0x3F19_999A) by (bit_vector);
        Self::new(DEFAULT_PEAK_FALL)
    }
}

fn no_peaks() -> (v: Vec<u32>)
    ensures
        v@ == Seq::new(N_BANDS as nat, |i: int| 0u32),
{
    let mut v: Vec<u32> = Vec::new();
    let mut i: usize = 0;
    while i < N_BANDS
        invariant
            i <= N_BANDS,
            v@ == Seq::new(i as nat, |i: int| 0u32),
        decreases N_BANDS - i,
    {
        v.push(0);
        i = i + 1;
        assert(v@ =~= Seq::new(i as nat, |i: int| 0u32));
    }
    v
}

impl SpectrumPeakHold {
    /// There is a peak for each band, and peaks can fall as they are set to.
    pub closed spec fn inv(&self) -> bool {
        self.peaks@.len() == N_BANDS && can_fall_by(self.fall_per_sec)
    }

    /// How far peaks fall in a second.
    pub closed spec fn rate(&self) -> u32 {
        self.fall_per_sec
    }

    /// Peaks that fall by so much in a second, all zero at first.
    pub fn new(fall_per_sec: u32) -> (r: Self)
        requires
            can_fall_by(fall_per_sec),
        ensures
            r.inv(),
            r.rate() == fall_per_sec,
            r@ == Seq::new(N_BANDS as nat, |i: int| 0u32),
    {
        SpectrumPeakHold { peaks: no_peaks(), fall_per_sec }
    }

    /// How far peaks fall in a second.
    pub fn fall_per_sec(&self) -> (v: u32)
        requires
            self.inv(),
        ensures
            v == self.rate(),
            can_fall_by(v),
    {
        self.fall_per_sec
    }

    /// Takes the levels of all bands, once the old peaks have fallen to `fallen`.
    pub fn update(&mut self, fallen: &Vec<u32>, bands: &Vec<u32>) -> (r: Vec<u32>)
        requires
            old(self).inv(),
            fallen.len() == N_BANDS,
            bands.len() == N_BANDS,
        ensures
            final(self).inv(),
            final(self).rate() == old(self).rate(),
            final(self)@ == all_held(fallen@, bands@),
            r@ == all_held(fallen@, bands@),
    {
        let mut next: Vec<u32> = Vec::new();
        let mut out: Vec<u32> = Vec::new();
        let mut i: usize = 0;
        while i < N_BANDS
            invariant
                i <= N_BANDS,
                fallen.len() == N_BANDS,
                bands.len() == N_BANDS,
                next@ == all_held(fallen@, bands@).take(i as int),
                out@ == next@,
            decreases N_BANDS - i,
        {
            let peak: u32 = hold_peak(fallen[i], bands[i]);
            next.push(peak);
            out.push(peak);
            i = i + 1;
            assert(next@ =~= all_held(fallen@, bands@).take(i as int));
        }
        assert(next@ =~= all_held(fallen@, bands@));
        self.peaks = next;
        out
    }

    /// The peaks.
    pub fn peaks(&self) -> (r: &Vec<u32>)
        requires
            self.inv(),
        ensures
            r@ == self@,
            r@.len() == N_BANDS,
    {
        &self.peaks
    }

    /// Drops all peaks.
    pub fn reset(&mut self)
        requires
            old(self).inv(),
        ensures
            final(self).inv(),
            final(self).rate() == old(self).rate(),
            final(self)@ == Seq::new(N_BANDS as nat, |i: int| 0u32),
    {
        self.peaks = no_peaks();
    }
}

/// Whatever levels come, peaks between zero and one that fall stay between zero and
/// one; none is below its band, and none rises above both its old peak and its band.
pub proof fn law_peaks_bounded(peaks: Seq<u32>, fallen: Seq<u32>, bands: Seq<u32>)
    requires
        forall|i: int| 0 <= i < N_BANDS ==> is_level(#[trigger] peaks[i]),
        forall|i: int| 0 <= i < N_BANDS ==> !greater(#[trigger] fallen[i], peaks[i]),
    ensures
        forall|i: int|
            #![trigger all_held(fallen, bands)[i]]
            0 <= i < N_BANDS ==> {
                let peak = all_held(fallen, bands)[i];
                &&& is_level(peak)
                &&& !greater(sanitized(bands[i]), peak)
                &&& !(greater(peak, peaks[i]) && greater(peak, sanitized(bands[i])))
            },
{
    assert(0u32 & 0x7FFF_FFFF == 0 && 0x3F80_0000u32 & 0x7FFF_FFFF == 0x3F80_0000)
        by (bit_vector);
    assert forall|i: int| #![trigger all_held(fallen, bands)[i]] 0 <= i < N_BANDS implies ({
        let peak = all_held(fallen, bands)[i];
        &&& is_level(peak)
        &&& !greater(sanitized(bands[i]), peak)
        &&& !(greater(peak, peaks[i]) && greater(peak, sanitized(bands[i])))
    }) by {
        assert(is_level(peaks[i]));
        assert(!greater(fallen[i], peaks[i]));
        law_peak_bounds(fallen[i], bands[i]);
    }
}

/// Where no time passes, no peak falls: each is the higher one of its old peak and
/// its band.
pub proof fn law_peaks_stay(peaks: Seq<u32>, bands: Seq<u32>)
    requires
        forall|i: int| 0 <= i < N_BANDS ==> is_level(#[trigger] peaks[i]),
    ensures
        forall|i: int|
            #![trigger all_held(peaks, bands)[i]]
            0 <= i < N_BANDS ==> !greater(peaks[i], all_held(peaks, bands)[i]),
{
}

/// The samples of a ring in the order in which they came, oldest first.
pub open spec fn oldest_first(ring: Seq<u32>, next: int) -> Seq<u32> {
    Seq::new(ring.len(), |i: int| ring[(next + i) % (ring.len() as int)])
}

/// Puts the samples of a ring into the order in which they came.
pub fn unroll(ring: &Vec<u32>, next: usize) -> (out: Vec<u32>)
    requires
        ring.len() == FFT_SIZE,
        next < FFT_SIZE,
    ensures
        out@ == oldest_first(ring@, next as int),
{
    let mut out: Vec<u32> = Vec::new();
    let mut i: usize = 0;
    while i < FFT_SIZE
        invariant
            ring.len() == FFT_SIZE,
            next < FFT_SIZE,
            i <= FFT_SIZE,
            out@ == oldest_first(ring@, next as int).take(i as int),
        decreases FFT_SIZE - i,
    {
        out.push(ring[(next + i) % FFT_SIZE]);
        assert(out@ =~= oldest_first(ring@, next as int).take(i + 1));
        i = i + 1;
    }
    assert(out@ =~= oldest_first(ring@, next as int));
    out
}

/// How many samples a point of the waveform stands for.
pub const WAVEFORM_STEP: usize = 32;

/// The waveform of a window: every so many samples one, over all of it.
pub open spec fn waveform_of(window: Seq<u32>) -> Seq<u32> {
    Seq::new(WAVEFORM_LEN as nat, |i: int| window[i * WAVEFORM_STEP])
}

/// Takes the points of the waveform out of a window.
pub fn waveform(window: &Vec<u32>) -> (points: Vec<u32>)
    requires
        window.len() == FFT_SIZE,
    ensures
        points@ == waveform_of(window@),
{
    let mut points: Vec<u32> = Vec::new();
    let mut i: usize = 0;
    while i < WAVEFORM_LEN
        invariant
            window.len() == FFT_SIZE,
            i <= WAVEFORM_LEN,
            points@ == waveform_of(window@).take(i as int),
        decreases WAVEFORM_LEN - i,
    {
        points.push(window[i * WAVEFORM_STEP]);
        assert(points@ =~= waveform_of(window@).take(i + 1));
        i = i + 1;
    }
    assert(points@ =~= waveform_of(window@));
    points
}

} // verus!
