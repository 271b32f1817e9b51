//! The settings of the compressor.

use crate::float::{clamp, clamped, finite, is_finite, rank};
use vstd::prelude::*;

verus! {

/// The lowest threshold in dB: the bits of -60.0.
pub const COMP_THRESHOLD_MIN_DB: u32 = 0xC270_0000;

/// The highest threshold in dB: the bits of 0.0.
pub const COMP_THRESHOLD_MAX_DB: u32 = 0x0000_0000;

/// The lowest compression ratio: the bits of 1.0.
pub const COMP_RATIO_MIN: u32 = 0x3F80_0000;

/// The highest compression ratio: the bits of 20.0.
pub const COMP_RATIO_MAX: u32 = 0x41A0_0000;

/// The lowest attack time in ms: the bits of 0.1.
pub const COMP_ATTACK_MIN_MS: u32 = 0x3DCC_CCCD;

/// The highest attack time in ms: the bits of 1000.0.
pub const COMP_ATTACK_MAX_MS: u32 = 0x447A_0000;

/// The lowest release time in ms: the bits of 1.0.
pub const COMP_RELEASE_MIN_MS: u32 = 0x3F80_0000;

/// The highest release time in ms: the bits of 5000.0.
pub const COMP_RELEASE_MAX_MS: u32 = 0x459C_4000;

/// The lowest gain in dB that makes up for compression: the bits of -20.0.
pub const COMP_MAKEUP_MIN_DB: u32 = 0xC1A0_0000;

/// The highest gain in dB that makes up for compression: the bits of 20.0.
pub const COMP_MAKEUP_MAX_DB: u32 = 0x41A0_0000;

/// The number of compressors that can work at the same time.
pub const COMP_SLOTS: usize = 8;

/// What a compressor is set to.
pub struct Settings {
    /// The threshold in dB.
    pub threshold: u32,
    /// The compression ratio; at one nothing is compressed.
    pub ratio: u32,
    /// The attack time in ms.
    pub attack_ms: u32,
    /// The release time in ms.
    pub release_ms: u32,
    /// The gain in dB that makes up for the compression.
    pub makeup: u32,
    /// Whether it is switched on.
    pub enabled: bool,
}

/// What a new compressor is set to: -20 dB, 4:1, 10 ms, 100 ms, no gain, on.
pub open spec fn default_settings() -> Settings {
    Settings {
        threshold: 0xC1A0_0000,
        ratio: 0x4080_0000,
        attack_ms: 0x4120_0000,
        release_ms: 0x42C8_0000,
        makeup: 0x0000_0000,
        enabled: true,
    }
}

/// Whether a number is finite and lies between two others.
pub open spec fn between(v: u32, low: u32, high: u32) -> bool {
    finite(v) && rank(low) <= rank(v) <= rank(high)
}

/// The settings of one compressor.
#[derive(Debug, Clone)]
pub struct CompressorParams {
    threshold: u32,
    ratio: u32,
    attack_ms: u32,
    release_ms: u32,
    makeup: u32,
    enabled: bool,
}

impl View for CompressorParams {
    type V = Settings;

    closed spec fn view(&self) -> Settings {
        Settings {
            threshold: self.threshold,
            ratio: self.ratio,
            attack_ms: self.attack_ms,
            release_ms: self.release_ms,
            makeup: self.makeup,
            enabled: self.enabled,
        }
    }
}

impl CompressorParams {
    /// Every setting is finite and lies between its limits.
    pub open spec fn inv(&self) -> bool {
        &&& between(self@.threshold, COMP_THRESHOLD_MIN_DB, COMP_THRESHOLD_MAX_DB)
        &&& between(self@.ratio, COMP_RATIO_MIN, COMP_RATIO_MAX)
        &&& between(self@.attack_ms, COMP_ATTACK_MIN_MS, COMP_ATTACK_MAX_MS)
        &&& between(self@.release_ms, COMP_RELEASE_MIN_MS, COMP_RELEASE_MAX_MS)
        &&& between(self@.makeup, COMP_MAKEUP_MIN_DB, COMP_MAKEUP_MAX_DB)
    }

    /// New settings.
    pub fn new() -> (p: CompressorParams)
        ensures
            p@ == default_settings(),
            p.inv(),
    {
        proof {
            lemma_limits();
            lemma_defaults();
        }
        CompressorParams {
            threshold: 0xC1A0_0000,
            ratio: 0x4080_0000,
            attack_ms: 0x4120_0000,
            release_ms: 0x42C8_0000,
            makeup: 0x0000_0000,
            enabled: true,
        }
    }

    /// Sets the threshold in dB, brought between its limits. What is no finite
    /// number is refused.
    pub fn set_threshold(&mut self, v: u32) -> (r: bool)
        requires
            old(self).inv(),
        ensures
            final(self).inv(),
            r == finite(v),
            final(self)@ == if r {
                Settings { threshold: clamped(v, COMP_THRESHOLD_MIN_DB, COMP_THRESHOLD_MAX_DB), ..old(self)@ }
            } else {
                old(self)@
            },
    {
        if !is_finite(v) {
            return false;
        }
        proof {
            lemma_limits();
            crate::float::law_clamp_stays(v, COMP_THRESHOLD_MIN_DB, COMP_THRESHOLD_MAX_DB);
        }
        self.threshold = clamp(v, COMP_THRESHOLD_MIN_DB, COMP_THRESHOLD_MAX_DB);
        true
    }

    /// The threshold in dB.
    pub fn threshold(&self) -> (v: u32)
        ensures
            v == self@.threshold,
    {
        self.threshold
    }

    /// Sets the compression ratio, brought between its limits. What is no finite
    /// number is refused.
    pub fn set_ratio(&mut self, v: u32) -> (r: bool)
        requires
            old(self).inv(),
        ensures
            final(self).inv(),
            r == finite(v),
            final(self)@ == if r {
                Settings { ratio: clamped(v, COMP_RATIO_MIN, COMP_RATIO_MAX), ..old(self)@ }
            } else {
                old(self)@
            },
    {
        if !is_finite(v) {
            return false;
        }
        proof {
            lemma_limits();
            crate::float::law_clamp_stays(v, COMP_RATIO_MIN, COMP_RATIO_MAX);
        }
        self.ratio = clamp(v, COMP_RATIO_MIN, COMP_RATIO_MAX);
        true
    }

    /// The compression ratio.
    pub fn ratio(&self) -> (v: u32)
        ensures
            v == self@.ratio,
    {
        self.ratio
    }

    /// Sets the attack time in ms, brought between its limits. What is no finite
    /// number is refused.
    pub fn set_attack_ms(&mut self, v: u32) -> (r: bool)
        requires
            old(self).inv(),
        ensures
            final(self).inv(),
            r == finite(v),
            final(self)@ == if r {
                Settings { attack_ms: clamped(v, COMP_ATTACK_MIN_MS, COMP_ATTACK_MAX_MS), ..old(self)@ }
            } else {
                old(self)@
            },
    {
        if !is_finite(v) {
            return false;
        }
        proof {
            lemma_limits();
            crate::float::law_clamp_stays(v, COMP_ATTACK_MIN_MS, COMP_ATTACK_MAX_MS);
        }
        self.attack_ms = clamp(v, COMP_ATTACK_MIN_MS, COMP_ATTACK_MAX_MS);
        true
    }

    /// The attack time in ms.
    pub fn attack_ms(&self) -> (v: u32)
        ensures
            v == self@.attack_ms,
    {
        self.attack_ms
    }

    /// Sets the release time in ms, brought between its limits. What is no finite
    /// number is refused.
    pub fn set_release_ms(&mut self, v: u32) -> (r: bool)
        requires
            old(self).inv(),
        ensures
            final(self).inv(),
            r == finite(v),
            final(self)@ == if r {
                Settings { release_ms: clamped(v, COMP_RELEASE_MIN_MS, COMP_RELEASE_MAX_MS), ..old(self)@ }
            } else {
                old(self)@
            },
    {
        if !is_finite(v) {
            return false;
        }
        proof {
            lemma_limits();
            crate::float::law_clamp_stays(v, COMP_RELEASE_MIN_MS, COMP_RELEASE_MAX_MS);
        }
        self.release_ms = clamp(v, COMP_RELEASE_MIN_MS, COMP_RELEASE_MAX_MS);
        true
    }

    /// The release time in ms.
    pub fn release_ms(&self) -> (v: u32)
        ensures
            v == self@.release_ms,
    {
        self.release_ms
    }

    /// Sets the gain in dB that makes up for the compression, brought between its limits. What is no finite
    /// number is refused.
    pub fn set_makeup(&mut self, v: u32) -> (r: bool)
        requires
            old(self).inv(),
        ensures
            final(self).inv(),
            r == finite(v),
            final(self)@ == if r {
                Settings { makeup: clamped(v, COMP_MAKEUP_MIN_DB, COMP_MAKEUP_MAX_DB), ..old(self)@ }
            } else {
                old(self)@
            },
    {
        if !is_finite(v) {
            return false;
        }
        proof {
            lemma_limits();
            crate::float::law_clamp_stays(v, COMP_MAKEUP_MIN_DB, COMP_MAKEUP_MAX_DB);
        }
        self.makeup = clamp(v, COMP_MAKEUP_MIN_DB, COMP_MAKEUP_MAX_DB);
        true
    }

    /// The gain in dB that makes up for the compression.
    pub fn makeup(&self) -> (v: u32)
        ensures
            v == self@.makeup,
    {
        self.makeup
    }

    /// Switches it on or off.
    pub fn set_enabled(&mut self, on: bool)
        requires
            old(self).inv(),
        ensures
            final(self).inv(),
            final(self)@ == (Settings { enabled: on, ..old(self)@ }),
    {
        self.enabled = on;
    }

    /// Whether it is switched on.
    pub fn enabled(&self) -> (on: bool)
        ensures
            on == self@.enabled,
    {
        self.enabled
    }

    /// Goes back to new settings.
    pub fn reset(&mut self)
        ensures
            final(self)@ == default_settings(),
            final(self).inv(),
    {
        *self = CompressorParams::new();
    }
}

impl Default for CompressorParams {
    fn default() -> (p: CompressorParams)
        ensures
            p@ == default_settings(),
            p.inv(),
    {
        CompressorParams::new()
    }
}

proof fn lemma_limits()
    ensures
        finite(COMP_THRESHOLD_MIN_DB),
        finite(COMP_THRESHOLD_MAX_DB),
        rank(COMP_THRESHOLD_MIN_DB) <= rank(COMP_THRESHOLD_MAX_DB),
        finite(COMP_RATIO_MIN),
        finite(COMP_RATIO_MAX),
        rank(COMP_RATIO_MIN) <= rank(COMP_RATIO_MAX),
        finite(COMP_ATTACK_MIN_MS),
        finite(COMP_ATTACK_MAX_MS),
        rank(COMP_ATTACK_MIN_MS) <= rank(COMP_ATTACK_MAX_MS),
        finite(COMP_RELEASE_MIN_MS),
        finite(COMP_RELEASE_MAX_MS),
        rank(COMP_RELEASE_MIN_MS) <= rank(COMP_RELEASE_MAX_MS),
        finite(COMP_MAKEUP_MIN_DB),
        finite(COMP_MAKEUP_MAX_DB),
        rank(COMP_MAKEUP_MIN_DB) <= rank(COMP_MAKEUP_MAX_DB),
{
    assert(
        0x0000_0000u32 & 0x7FFF_FFFF == 0x0000_0000
        && 0x3DCC_CCCDu32 & 0x7FFF_FFFF == 0x3DCC_CCCD
        && 0x3F80_0000u32 & 0x7FFF_FFFF == 0x3F80_0000
        && 0x41A0_0000u32 & 0x7FFF_FFFF == 0x41A0_0000
        && 0x447A_0000u32 & 0x7FFF_FFFF == 0x447A_0000
        && 0x459C_4000u32 & 0x7FFF_FFFF == 0x459C_4000
        && 0xC1A0_0000u32 & 0x7FFF_FFFF == 0x41A0_0000
        && 0xC270_0000u32 & 0x7FFF_FFFF == 0x4270_0000
    ) by (bit_vector);
}

proof fn lemma_defaults()
    ensures
        between(0xC1A0_0000, COMP_THRESHOLD_MIN_DB, COMP_THRESHOLD_MAX_DB),
        between(0x4080_0000, COMP_RATIO_MIN, COMP_RATIO_MAX),
        between(0x4120_0000, COMP_ATTACK_MIN_MS, COMP_ATTACK_MAX_MS),
        between(0x42C8_0000, COMP_RELEASE_MIN_MS, COMP_RELEASE_MAX_MS),
        between(0x0000_0000, COMP_MAKEUP_MIN_DB, COMP_MAKEUP_MAX_DB),
{
    lemma_limits();
    assert(
        0x0000_0000u32 & 0x7FFF_FFFF == 0x0000_0000
        && 0x3DCC_CCCDu32 & 0x7FFF_FFFF == 0x3DCC_CCCD
        && 0x3F80_0000u32 & 0x7FFF_FFFF == 0x3F80_0000
        && 0x4080_0000u32 & 0x7FFF_FFFF == 0x4080_0000
        && 0x4120_0000u32 & 0x7FFF_FFFF == 0x4120_0000
        && 0x41A0_0000u32 & 0x7FFF_FFFF == 0x41A0_0000
        && 0x42C8_0000u32 & 0x7FFF_FFFF == 0x42C8_0000
        && 0x447A_0000u32 & 0x7FFF_FFFF == 0x447A_0000
        && 0x459C_4000u32 & 0x7FFF_FFFF == 0x459C_4000
        && 0xC1A0_0000u32 & 0x7FFF_FFFF == 0x41A0_0000
        && 0xC270_0000u32 & 0x7FFF_FFFF == 0x4270_0000
    ) by (bit_vector);
}

} // verus!
