//! What bit patterns of single-precision numbers stand for, and that they are compared and
//! limited by it.

use crate::compressor::{
    COMP_ATTACK_MAX_MS, COMP_MAKEUP_MAX_DB, COMP_MAKEUP_MIN_DB, COMP_RATIO_MAX, COMP_RATIO_MIN,
    COMP_RELEASE_MAX_MS, COMP_RELEASE_MIN_MS, COMP_THRESHOLD_MAX_DB, COMP_THRESHOLD_MIN_DB,
};
use crate::equalizer::{EQ_GAIN_MAX_DB, EQ_GAIN_MIN_DB};
use crate::float::{clamped, finite, greater, magnitude, not_a_number, rank};
use crate::spectrum::{held, sanitized, ONE};
use vstd::arithmetic::power2::{
    lemma2_to64, lemma_pow2_adds, lemma_pow2_pos, lemma_pow2_strictly_increases, lemma_pow2_unfold, pow2,
};
use vstd::prelude::*;

verus! {

/// The size of a number, in units of its smallest: its digits with the hidden one in front,
/// times a power of two.
pub open spec fn size_of(b: u32) -> nat {
    let e = (b / 0x80_0000) % 0x100;
    let f = (b % 0x80_0000) as nat;
    if e == 0 {
        f
    } else {
        (0x80_0000 + f) * pow2((e - 1) as nat)
    }
}

/// The number that a pattern stands for, in units of the smallest one.
pub open spec fn value_of(b: u32) -> int {
    if b < 0x8000_0000 {
        size_of(b) as int
    } else {
        -(size_of(b) as int)
    }
}

proof fn lemma_magnitude(b: u32)
    ensures
        magnitude(b) == b % 0x8000_0000,
{
    assert(b & 0x7FFF_FFFF == b % 0x8000_0000) by (bit_vector);
}

proof fn lemma_size_grows(a: u32, b: u32)
    requires
        a % 0x8000_0000 < b % 0x8000_0000,
    ensures
        size_of(a) < size_of(b),
{
    let ea = (a / 0x80_0000) % 0x100;
    let eb = (b / 0x80_0000) % 0x100;
    let fa = (a % 0x80_0000) as nat;
    let fb = (b % 0x80_0000) as nat;
    assert(a % 0x8000_0000 == 0x80_0000 * ea + fa);
    assert(b % 0x8000_0000 == 0x80_0000 * eb + fb);
    assert(ea < eb || ea == eb && fa < fb);
    if ea == eb {
        if ea > 0 {
            let p = pow2((ea - 1) as nat);
            lemma_pow2_pos((ea - 1) as nat);
            assert((0x80_0000 + fa) * p < (0x80_0000 + fb) * p) by (nonlinear_arith)
                requires
                    fa < fb,
                    p > 0,
            ;
        }
    } else {
        let q = pow2((eb - 1) as nat);
        lemma_pow2_pos((eb - 1) as nat);
        assert((0x80_0000 + fb) * q >= 0x80_0000 * q) by (nonlinear_arith)
            requires
                fb >= 0,
                q > 0,
        ;
        if ea == 0 {
            assert(0x80_0000 * q >= 0x80_0000);
        } else {
            let p = pow2((ea - 1) as nat);
            lemma_pow2_pos((ea - 1) as nat);
            lemma_pow2_unfold(ea as nat);
            if ea < eb - 1 {
                lemma_pow2_strictly_increases(ea as nat, (eb - 1) as nat);
            }
            assert(q >= 2 * p);
            assert((0x80_0000 + fa) * p < 0x100_0000 * p) by (nonlinear_arith)
                requires
                    fa < 0x80_0000,
                    p > 0,
            ;
        }
    }
}

/// Patterns are compared by what they stand for.
pub proof fn law_greater(a: u32, b: u32)
    requires
        finite(a),
        finite(b),
    ensures
        greater(a, b) <==> value_of(a) > value_of(b),
        rank(a) > rank(b) <==> value_of(a) > value_of(b),
{
    lemma_magnitude(a);
    lemma_magnitude(b);
    let x = a % 0x8000_0000;
    let y = b % 0x8000_0000;
    if x < y {
        lemma_size_grows(a, b);
    } else if y < x {
        lemma_size_grows(b, a);
    } else {
        assert((a / 0x80_0000) % 0x100 == x / 0x80_0000);
        assert((b / 0x80_0000) % 0x100 == y / 0x80_0000);
        assert(a % 0x80_0000 == x % 0x80_0000);
        assert(b % 0x80_0000 == y % 0x80_0000);
        assert(size_of(a) == size_of(b));
    }
    if x > 0 {
        lemma_size_grows(0, a);
    }
    if y > 0 {
        lemma_size_grows(0, b);
    }
}

/// A number brought between two limits is the number where it lies between them, and else
/// the limit that it has passed.
pub proof fn law_clamped(v: u32, low: u32, high: u32)
    requires
        finite(v),
        finite(low),
        finite(high),
        value_of(low) <= value_of(high),
    ensures
        value_of(clamped(v, low, high)) == (if value_of(v) < value_of(low) {
            value_of(low)
        } else if value_of(v) > value_of(high) {
            value_of(high)
        } else {
            value_of(v)
        }),
        value_of(low) <= value_of(v) <= value_of(high) ==> clamped(v, low, high) == v,
{
    law_greater(low, v);
    law_greater(v, high);
}

/// What a band of the spectrum shows: its value between zero and one; nothing for what is
/// no number.
pub proof fn law_band_shown(v: u32)
    ensures
        not_a_number(v) ==> sanitized(v) == 0,
        finite(v) ==> value_of(sanitized(v)) == (if value_of(v) < 0 {
            0
        } else if value_of(v) > value_of(ONE) {
            value_of(ONE)
        } else {
            value_of(v)
        }),
        magnitude(v) == 0x7F80_0000 ==> sanitized(v) == (if v < 0x8000_0000 {
            ONE
        } else {
            0
        }),
{
    lemma_magnitude(v);
    lemma_magnitude(0);
    lemma_magnitude(ONE);
    if finite(v) {
        lemma_one();
        law_clamped(v, 0, ONE);
    }
}

proof fn lemma_one()
    ensures
        value_of(0) == 0,
        value_of(ONE) == 0x80_0000 * pow2(126),
        value_of(ONE) > 0,
        finite(ONE),
        finite(0),
{
    lemma_magnitude(0);
    lemma_magnitude(ONE);
    lemma_pow2_pos(126);
    assert((0x3F80_0000u32 / 0x80_0000) % 0x100 == 127);
}

/// A peak that has fallen is held where the band does not exceed it, and else the band
/// lifts it: it is the higher of both.
pub proof fn law_peak_held(fallen: u32, band: u32)
    requires
        finite(fallen),
        finite(band),
    ensures
        value_of(held(fallen, band)) == (if value_of(fallen) > value_of(sanitized(band)) {
            value_of(fallen)
        } else {
            value_of(sanitized(band))
        }),
{
    lemma_one();
    law_greater(fallen, sanitized(band));
}

/// A number times one.
pub open spec fn whole(n: int) -> int {
    n * (0x80_0000 * pow2(126))
}

proof fn lemma_whole(b: u32, e: nat, p: nat, n: int)
    requires
        (b / 0x80_0000) % 0x100 == e,
        127 <= e,
        pow2((e - 127) as nat) == p,
        ((b % 0x80_0000) + 0x80_0000) * p == n * 0x80_0000,
    ensures
        size_of(b) == whole(n),
{
    let f = (b % 0x80_0000) + 0x80_0000;
    let q = pow2(126);
    lemma_pow2_adds((e - 127) as nat, 126);
    assert(f * (p * q) == n * (0x80_0000 * q)) by (nonlinear_arith)
        requires
            f * p == n * 0x80_0000,
    ;
}

/// The limits of settings, in decibels, milliseconds and as ratios.
pub proof fn law_limits()
    ensures
        value_of(COMP_THRESHOLD_MIN_DB) == whole(-60),
        value_of(COMP_THRESHOLD_MAX_DB) == 0,
        value_of(COMP_RATIO_MIN) == whole(1),
        value_of(COMP_RATIO_MAX) == whole(20),
        value_of(COMP_ATTACK_MAX_MS) == whole(1000),
        value_of(COMP_RELEASE_MIN_MS) == whole(1),
        value_of(COMP_RELEASE_MAX_MS) == whole(5000),
        value_of(COMP_MAKEUP_MIN_DB) == whole(-20),
        value_of(COMP_MAKEUP_MAX_DB) == whole(20),
        value_of(EQ_GAIN_MIN_DB) == whole(-12),
        value_of(EQ_GAIN_MAX_DB) == whole(12),
{
    lemma2_to64();
    lemma_whole(COMP_THRESHOLD_MIN_DB, 132, 32, 60);
    lemma_whole(COMP_RATIO_MIN, 127, 1, 1);
    lemma_whole(COMP_RATIO_MAX, 131, 16, 20);
    lemma_whole(COMP_ATTACK_MAX_MS, 136, 512, 1000);
    lemma_whole(COMP_RELEASE_MAX_MS, 139, 4096, 5000);
    lemma_whole(COMP_MAKEUP_MIN_DB, 131, 16, 20);
    lemma_whole(EQ_GAIN_MIN_DB, 130, 8, 12);
    lemma_whole(EQ_GAIN_MAX_DB, 130, 8, 12);
    let one = 0x80_0000 * pow2(126);
    assert((-60) * one == -(60 * one) && (-20) * one == -(20 * one) && (-12) * one == -(12 * one))
        by (nonlinear_arith);
}

} // verus!
