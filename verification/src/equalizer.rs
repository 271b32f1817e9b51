//! The settings of the ten-band equalizer.

use crate::float::{clamp, clamped, finite, is_finite};
use vstd::prelude::*;

verus! {

/// The number of bands.
pub const EQ_BANDS: usize = 10;

/// The number of equalizers that can work at the same time.
pub const EQ_SLOTS: usize = 8;

/// The lowest gain: the bits of -12 dB.
pub const EQ_GAIN_MIN_DB: u32 = 0xC140_0000;

/// The highest gain: the bits of 12 dB.
pub const EQ_GAIN_MAX_DB: u32 = 0x4140_0000;

/// The settings of one equalizer: a gain in dB for each band.
#[derive(Debug, Clone)]
pub struct EqParams {
    bands: [u32; 10],
    enabled: bool,
}

impl EqParams {
    /// The gains.
    pub closed spec fn gains(&self) -> Seq<u32> {
        self.bands@
    }

    /// Whether it is switched on.
    pub closed spec fn is_enabled(&self) -> bool {
        self.enabled
    }

    /// Whether these are the settings that a new equalizer has: no gain, and
    /// switched on.
    pub open spec fn is_default(&self) -> bool {
        &&& self.gains() == Seq::new(EQ_BANDS as nat, |i: int| 0u32)
        &&& self.is_enabled()
    }

    /// Every gain lies between the limits.
    pub open spec fn inv(&self) -> bool {
        &&& self.gains().len() == EQ_BANDS
        &&& forall|i: int| 0 <= i < EQ_BANDS ==> in_limits(#[trigger] self.gains()[i])
    }

    /// New settings.
    pub fn new() -> (p: EqParams)
        ensures
            p.is_default(),
            p.inv(),
    {
        let p: EqParams = EqParams { bands: [0u32; 10], enabled: true };
        proof {
            lemma_zero_in_limits();
            assert(p.bands@ =~= Seq::new(EQ_BANDS as nat, |i: int| 0u32));
        }
        p
    }

    /// Sets the gain of a band. A band that there is not, or a gain that is no
    /// finite number, is refused.
    pub fn set_band(&mut self, band: usize, gain_db: u32) -> (r: bool)
        requires
            old(self).inv(),
        ensures
            final(self).inv(),
            final(self).is_enabled() == old(self).is_enabled(),
            r == (band < EQ_BANDS && finite(gain_db)),
            final(self).gains() == if r {
                old(self).gains().update(
                    band as int,
                    clamped(gain_db, EQ_GAIN_MIN_DB, EQ_GAIN_MAX_DB),
                )
            } else {
                old(self).gains()
            },
    {
        if band >= EQ_BANDS || !is_finite(gain_db) {
            return false;
        }
        let v: u32 = clamp(gain_db, EQ_GAIN_MIN_DB, EQ_GAIN_MAX_DB);
        proof {
            lemma_limits();
            crate::float::law_clamp_stays(gain_db, EQ_GAIN_MIN_DB, EQ_GAIN_MAX_DB);
        }
        self.bands[band] = v;
        assert(self.bands@ =~= old(self).bands@.update(band as int, v));
        true
    }

    /// The gain of a band; zero for a band that there is not.
    pub fn band(&self, band: usize) -> (gain_db: u32)
        requires
            self.inv(),
        ensures
            gain_db == if band < EQ_BANDS {
                self.gains()[band as int]
            } else {
                0
            },
    {
        if band >= EQ_BANDS {
            return 0;
        }
        self.bands[band]
    }

    /// Switches it on or off.
    pub fn set_enabled(&mut self, on: bool)
        requires
            old(self).inv(),
        ensures
            final(self).inv(),
            final(self).gains() == old(self).gains(),
            final(self).is_enabled() == on,
    {
        self.enabled = on;
    }

    /// Whether it is switched on.
    pub fn enabled(&self) -> (on: bool)
        ensures
            on == self.is_enabled(),
    {
        self.enabled
    }

    /// Goes back to new settings.
    pub fn reset(&mut self)
        ensures
            final(self).is_default(),
            final(self).inv(),
    {
        *self = EqParams::new();
    }
}

impl Default for EqParams {
    fn default() -> (p: EqParams)
        ensures
            p.is_default(),
            p.inv(),
    {
        EqParams::new()
    }
}

/// Whether a gain lies between the limits.
pub open spec fn in_limits(b: u32) -> bool {
    &&& finite(b)
    &&& crate::float::rank(EQ_GAIN_MIN_DB) <= crate::float::rank(b)
    &&& crate::float::rank(b) <= crate::float::rank(EQ_GAIN_MAX_DB)
}

proof fn lemma_limits()
    ensures
        finite(EQ_GAIN_MIN_DB),
        finite(EQ_GAIN_MAX_DB),
        crate::float::rank(EQ_GAIN_MIN_DB) < 0,
        0 < crate::float::rank(EQ_GAIN_MAX_DB),
{
    assert(0xC140_0000u32 & 0x7FFF_FFFF == 0x4140_0000 && 0x4140_0000u32 & 0x7FFF_FFFF
        == 0x4140_0000) by (bit_vector);
}

proof fn lemma_zero_in_limits()
    ensures
        in_limits(0),
{
    lemma_limits();
    assert(0u32 & 0x7FFF_FFFF == 0) by (bit_vector);
}

} // verus!
