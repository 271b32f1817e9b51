//! Low bits of large samples as they are written beside a block, and floating-point
//! samples.

use super::bitstream::{bit, Cursor};
use super::coded::{
    behind, digit, digits_of, law_low_digits, lemma_behind, lemma_digits, lemma_lies, lemma_low_len, lies,
    low_digits,
};
use super::coded_words::magnitude;
use super::decorr::interleaved;
use super::fixup::{
    float_checksum, float_fixed, float_run, int32_fixed, int_checksum, int_run, low_ones,
    normalized, packed, shl, Fields, FloatInfo, Int32Info,
};
use super::forecast::within;
use super::parts::Wvx;
use super::written_block::{law_shifted, lemma_unsigned};
use crate::error::Fault;
use vstd::arithmetic::power2::{
    lemma2_to64, lemma_pow2_adds, lemma_pow2_pos, lemma_pow2_strictly_increases, lemma_pow2_unfold,
    pow2,
};
use vstd::bits::lemma_u32_shl_is_mul;
use vstd::prelude::*;

verus! {

/// How many low bits of a sample are stored: all that there are, or as many as there is room
/// for behind its digits.
pub open spec fn room(v: int, sent: nat, width: nat) -> nat {
    let d = digits_of(magnitude(v));
    if width == 0 || d + sent <= width {
        sent
    } else if d >= width {
        0
    } else {
        (width - d) as nat
    }
}

proof fn lemma_low_bits(v: i32, l: u32, n: u32)
    requires
        n < 32,
        l < (1u32 << n),
    ensures
        v < 0 ==> !(v as u32) == -v - 1,
        (shl(v, n) | (l as i32)) == shl(v, n) + l,
{
    assert((v < 0 ==> !(v as u32) == -v - 1) && ((((v as u32) << n) as i32) | (l as i32)) == ((
    (v as u32) << n) as i32) + l) by (bit_vector)
        requires
            n < 32,
            l < (1u32 << n),
    ;
}

/// Low bits that are stored are put behind a sample; those that there was no room for are
/// zero.
pub proof fn law_sent_read(info: Int32Info, v: i32, width: nat, c: Cursor, low: nat)
    requires
        0 < info.sent_bits <= 30,
        within(v * pow2(info.sent_bits as nat), 0x3FFF_FFFF),
        low < pow2(room(v as int, info.sent_bits as nat, width)),
        lies(c, low_digits(low, room(v as int, info.sent_bits as nat, width))),
    ensures
        ({
            let n = room(v as int, info.sent_bits as nat, width);
            info.sent(v, width, c) == (
                ((v * pow2(n) + low) * pow2((info.sent_bits - n) as nat)) as i32,
                c.advance(n),
            )
        }),
{
    let s = info.sent_bits as nat;
    let n = room(v as int, s, width);
    lemma2_to64();
    lemma_u32_shl_is_mul(1, 0);
    lemma_low_bits(v, 0, 0);
    lemma_digits(magnitude(v as int));
    lemma_unsigned(v, 0);
    assert(info.stored_bits(v, width) == n);
    law_low_digits(c, low, n);
    let p = pow2(n) as int;
    let q = pow2((s - n) as nat) as int;
    lemma_pow2_adds(n, (s - n) as nat);
    lemma_pow2_pos(n);
    lemma_pow2_pos((s - n) as nat);
    if s < 30 {
        lemma_pow2_strictly_increases(s, 30);
    }
    assert(v * (p * q) == (v * p) * q) by (nonlinear_arith);
    assert(within(v * p, 0x3FFF_FFFF)) by (nonlinear_arith)
        requires
            within((v * p) * q, 0x3FFF_FFFF),
            q >= 1,
    ;
    law_shifted(v, n as u32);
    assert(p <= 0x4000_0000) by (nonlinear_arith)
        requires
            p * q <= 0x4000_0000,
            q >= 1,
            p >= 1,
    ;
    lemma_u32_shl_is_mul(1, n as u32);
    lemma_low_bits(v, low as u32, n as u32);
    let t = v * p + low;
    assert(t * q == (v * p) * q + low * q) by (nonlinear_arith)
        requires
            t == v * p + low,
    ;
    assert(0 <= low * q < 0x4000_0000) by (nonlinear_arith)
        requires
            0 <= low < p,
            p * q <= 0x4000_0000,
            q >= 1,
    ;
    law_shifted(t as i32, (s - n) as u32);
}

proof fn lemma_masks(flags: u8, v: u32)
    ensures
        (flags & 0x01 != 0) == (flags % 2 == 1),
        (flags & 0x02 != 0) == ((flags / 2) % 2 == 1),
        (flags & 0x04 != 0) == ((flags / 4) % 2 == 1),
        (flags & 0x08 != 0) == ((flags / 8) % 2 == 1),
        (flags & 0x10 != 0) == ((flags / 16) % 2 == 1),
        (v & 0x80_0000 != 0) == ((v / 0x80_0000) % 2 == 1),
        v < 0x8000_0000 ==> v << 1 == 2 * v,
{
    assert((flags & 0x01 != 0) == (flags % 2 == 1) && (flags & 0x02 != 0) == ((flags / 2) % 2 == 1)
        && (flags & 0x04 != 0) == ((flags / 4) % 2 == 1) && (flags & 0x08 != 0) == ((flags / 8) % 2
        == 1) && (flags & 0x10 != 0) == ((flags / 16) % 2 == 1) && (v & 0x80_0000 != 0) == ((v
        / 0x80_0000) % 2 == 1) && (v < 0x8000_0000 ==> v << 1 == 2 * v)) by (bit_vector);
}

proof fn lemma_normalized(v: u32, exp: nat, sc: nat, k: nat)
    requires
        k <= 23,
        0x80_0000 <= v * pow2(k) < 0x100_0000,
        exp > k,
    ensures
        normalized(v, exp, sc) == ((v * pow2(k)) as u32, (exp - k) as nat, sc + k),
    decreases k,
{
    lemma_masks(0, v);
    lemma2_to64();
    if k == 0 {
        assert(v * 1 == v);
    } else {
        let p = pow2((k - 1) as nat);
        lemma_pow2_unfold(k);
        lemma_pow2_pos((k - 1) as nat);
        assert(v * (2 * p) == (2 * v) * p) by (nonlinear_arith);
        assert(2 * v < 0x100_0000 && v < 0x80_0000) by (nonlinear_arith)
            requires
                (2 * v) * p < 0x100_0000,
                p >= 1,
        ;
        lemma_normalized((2 * v) as u32, (exp - 1) as nat, sc + 1, (k - 1) as nat);
    }
}

proof fn lemma_joined(q: u32, l: u32, s: u32)
    requires
        s <= 23,
        q * pow2(s as nat) < 0x100_0000,
        l < pow2(s as nat),
    ensures
        ((q * pow2(s as nat)) as u32) | l == q * pow2(s as nat) + l,
        l & low_ones(s as nat) == l,
{
    lemma2_to64();
    lemma_u32_shl_is_mul(1, s);
    lemma_u32_shl_is_mul(q, s);
    lemma_pow2_pos(s as nat);
    assert(q <= q * pow2(s as nat)) by (nonlinear_arith)
        requires
            pow2(s as nat) >= 1,
    ;
    let one = 1u32 << s;
    let mask = (one - 1) as u32;
    assert((q << s) | l == (q << s) + l && l & mask == l) by (bit_vector)
        requires
            s <= 23,
            l < (1u32 << s),
            mask + 1 == (1u32 << s),
            q <= 0xFF_FFFF,
            (q << s) < 0x100_0000,
    ;
}

/// Of `sc` low bits, how many are zero without being stored: as many as are always zero, and
/// those beyond as many as are ever not.
pub open spec fn spared(info: FloatInfo, sc: nat) -> nat {
    let a = if info.min_zeros < sc {
        info.min_zeros as nat
    } else {
        sc
    };
    let b = if info.max_ones != 0 && sc > info.max_ones {
        (sc - info.max_ones) as nat
    } else {
        0
    };
    if a > b {
        a
    } else {
        b
    }
}

/// Whether low bits that were moved out can be had back, and the digits that say which they
/// are: ones are ones; where they are all alike, one digit says so; else they are stored,
/// but for those that are spared; or zero.
pub open spec fn moved_out(info: FloatInfo, sc: nat, low: nat, row: Seq<bool>) -> bool {
    let all = (pow2(sc) - 1) as nat;
    let nz = spared(info, sc);
    if sc == 0 {
        low == 0 && row.len() == 0
    } else if info.flags % 2 == 1 {
        low == all && row.len() == 0
    } else if (info.flags / 2) % 2 == 1 && low == all && row == seq![true] {
        true
    } else {
        let front = if (info.flags / 2) % 2 == 1 {
            seq![false]
        } else {
            Seq::empty()
        };
        if (info.flags / 4) % 2 == 1 && sc > nz {
            &&& low % pow2(nz) == 0
            &&& row == front + low_digits(low / pow2(nz), (sc - nz) as nat)
        } else {
            low == 0 && row == front
        }
    }
}

proof fn lemma_stored(info: FloatInfo, sc: nat, low: nat, c: Cursor)
    requires
        0 < sc <= 23,
        low < pow2(sc),
        low % pow2(spared(info, sc)) == 0,
        sc > spared(info, sc),
        lies(c, low_digits(low / pow2(spared(info, sc)), (sc - spared(info, sc)) as nat)),
    ensures
        ({
            let nz = info.known_zeros(sc);
            let n = (sc - nz) as nat;
            &&& nz == spared(info, sc)
            &&& (c.value(n) as u32) << (nz as u32) == low
        }),
{
    let nz = spared(info, sc);
    let n = (sc - nz) as nat;
    let p = pow2(nz) as int;
    lemma_pow2_pos(nz);
    lemma_pow2_adds(nz, n);
    vstd::arithmetic::div_mod::lemma_fundamental_div_mod(low as int, p);
    let d = low / pow2(nz);
    assert(low == p * d);
    assert(d < pow2(n)) by (nonlinear_arith)
        requires
            p * d < p * pow2(n),
            p > 0,
    ;
    lemma2_to64();
    lemma_pow2_strictly_increases(n, 24);
    lemma_pow2_strictly_increases(sc, 24);
    law_low_digits(c, d, n);
    assert(d * p == p * d) by (nonlinear_arith);
    lemma_u32_shl_is_mul(d as u32, nz as u32);
}

proof fn lemma_filled(info: FloatInfo, q: u32, sc: nat, low: nat, row: Seq<bool>, c: Cursor)
    requires
        sc <= 23,
        q * pow2(sc) < 0x100_0000,
        low < pow2(sc),
        moved_out(info, sc, low, row),
        lies(c, row),
    ensures
        info.filled((q * pow2(sc)) as u32, sc, c) == (
            (q * pow2(sc) + low) as u32,
            behind(c, row.len()),
        ),
{
    lemma_masks(info.flags, 0);
    lemma2_to64();
    lemma_pow2_pos(sc);
    lemma_pow2_strictly_increases(sc, 24);
    if sc > 0 {
        lemma_joined(q, low as u32, sc as u32);
        lemma_joined(q, (pow2(sc) - 1) as u32, sc as u32);
        let same = (info.flags / 2) % 2 == 1;
        if info.flags % 2 == 0 {
            if same {
                assert(row[0] == row[0]);
                assert(bit(c.buf, c.pos + 0int) == digit(row[0]));
            }
            if same && low == pow2(sc) - 1 && row == seq![true] {
            } else {
                let front = if same {
                    seq![false]
                } else {
                    Seq::empty()
                };
                let nz = spared(info, sc);
                if (info.flags / 4) % 2 == 1 && sc > nz {
                    let rest = low_digits(low / pow2(nz), (sc - nz) as nat);
                    lemma_lies(c, front, rest);
                    lemma_low_len(low / pow2(nz), (sc - nz) as nat);
                    lemma_stored(info, sc, low, behind(c, front.len()));
                }
            }
        }
    } else {
        assert(q * 1 == q);
    }
}

/// A floating-point sample is restored: its digits are those of the integer, moved up as far
/// as its exponent lies below the highest, and the low bits that were moved out.
pub proof fn law_float_read(
    info: FloatInfo,
    value: i32,
    f: Fields,
    row: Seq<bool>,
    c: Cursor,
)
    requires
        info.shift < 32,
        1 <= f.exponent <= info.max_exp,
        info.max_exp - f.exponent <= 23,
        f.mantissa < 0x80_0000,
        f.sign <= 1,
        ({
            let sc = (info.max_exp - f.exponent) as nat;
            let whole = (0x80_0000 + f.mantissa) as nat;
            &&& magnitude_of(value) * pow2(info.shift as nat) == whole / pow2(sc)
            &&& value != 0
            &&& f.sign == (if value < 0 {
                1u32
            } else {
                0
            })
            &&& moved_out(info, sc, whole % pow2(sc), row)
        }),
        lies(c, row),
    ensures
        info.sample(value, c) == (f, behind(c, row.len())),
{
    let sc = (info.max_exp - f.exponent) as nat;
    let whole = (0x80_0000 + f.mantissa) as nat;
    let p = pow2(sc) as int;
    lemma2_to64();
    lemma_pow2_pos(sc);
    lemma_pow2_strictly_increases(sc, 24);
    vstd::arithmetic::div_mod::lemma_fundamental_div_mod(whole as int, p);
    vstd::arithmetic::div_mod::lemma_mod_bound(whole as int, p);
    let q = whole as int / p;
    let low = (whole as int % p) as nat;
    assert(q * p == p * q) by (nonlinear_arith);
    assert(q <= whole) by (nonlinear_arith)
        requires
            q * p <= whole,
            p >= 1,
            q >= 0 || q < 0,
    ;
    lemma_magnitude_to(info, value, q);
    lemma_top(whole as int, p, sc, q);
    assert(q > 0) by (nonlinear_arith)
        requires
            q * p >= 0x80_0000,
            p >= 1,
    ;
    lemma_normalized(q as u32, info.max_exp as nat, 0, sc);
    lemma_filled(info, q as u32, sc, low, row, c);
    assert(q * p + low == whole);
    let (v, sign) = info.magnitude(value);
    assert(v == q && sign == f.sign);
    let (nv, exp, moved) = normalized(v, info.max_exp as nat, 0);
    assert(nv == q * p && exp == f.exponent && moved == sc);
    let (fv, next) = info.filled(nv, sc, c);
    assert(fv == whole);
}

proof fn lemma_top(whole: int, p: int, sc: nat, q: int)
    requires
        0x80_0000 <= whole < 0x100_0000,
        sc <= 23,
        p == pow2(sc),
        q == whole / p,
    ensures
        q * p >= 0x80_0000,
{
    let r = pow2((23 - sc) as nat) as int;
    lemma_pow2_adds(sc, (23 - sc) as nat);
    lemma2_to64();
    lemma_pow2_pos(sc);
    assert(p * r == 0x80_0000);
    assert(q >= r) by {
        vstd::arithmetic::div_mod::lemma_div_is_ordered(0x80_0000, whole, p);
        vstd::arithmetic::div_mod::lemma_div_multiples_vanish(r, p);
    }
    assert(q * p >= r * p) by (nonlinear_arith)
        requires
            q >= r,
            p > 0,
    ;
    assert(r * p == p * r) by (nonlinear_arith);
}

/// The size of an integer.
pub open spec fn magnitude_of(v: i32) -> int {
    if v < 0 {
        -v
    } else {
        v as int
    }
}

proof fn lemma_magnitude_to(info: FloatInfo, value: i32, q: int)
    requires
        info.shift < 32,
        magnitude_of(value) * pow2(info.shift as nat) == q,
        0 <= q <= 0x100_0000,
    ensures
        info.magnitude(value) == (
            q as u32,
            if value < 0 && q > 0 {
                1u32
            } else {
                0
            },
        ),
{
    let k = info.shift;
    let p = pow2(k as nat) as int;
    let m = magnitude_of(value);
    assert(value < 0 ==> value * p == -q) by (nonlinear_arith)
        requires
            m * p == q,
            value < 0 ==> m == -value,
    ;
    assert(value >= 0 ==> value * p == q);
    law_shifted(value, k);
    let v = (value as u32) << k;
    lemma_unsigned(shl(value, k), v);
}

/// The bits of a floating-point number: the sign, eight of the exponent and the mantissa.
pub proof fn law_packed(f: Fields)
    requires
        f.sign <= 1,
        f.exponent < 0x100,
        f.mantissa < 0x80_0000,
    ensures
        packed(f) as u32 == f.sign * 0x8000_0000 + f.exponent * 0x80_0000 + f.mantissa,
{
    let s = f.sign;
    let e = f.exponent;
    let m = f.mantissa;
    assert((((s << 31) | (e << 23) | m) as i32) as u32 == s * 0x8000_0000 + e * 0x80_0000 + m)
        by (bit_vector)
        requires
            s <= 1,
            e < 0x100,
            m < 0x80_0000,
    ;
}

/// One digit is read.
proof fn lemma_digit(c: Cursor, d: bool, rest: Seq<bool>)
    requires
        lies(c, seq![d] + rest),
    ensures
        c.head() == digit(d),
        lies(behind(c, 1), rest),
        c.advance(1) == behind(c, 1),
{
    lemma_lies(c, seq![d], rest);
    let one = seq![d];
    assert(bit(c.buf, c.pos + 0int) == digit(one[0]));
}

/// What is no number, or has no limit, is stored as a size that there is no number of: one
/// digit says whether a mantissa follows.
pub proof fn law_float_special(info: FloatInfo, value: i32, mantissa: nat, c: Cursor)
    requires
        info.shift < 32,
        value != 0,
        magnitude_of(value) * pow2(info.shift as nat) == 0x100_0000,
        mantissa < 0x80_0000,
        lies(
            c,
            if mantissa == 0 {
                seq![false]
            } else {
                seq![true] + low_digits(mantissa, 23)
            },
        ),
    ensures
        info.sample(value, c) == (
            Fields {
                sign: if value < 0 {
                    1
                } else {
                    0
                },
                exponent: 255,
                mantissa: mantissa as u32,
            },
            behind(
                c,
                if mantissa == 0 {
                    1
                } else {
                    24
                },
            ),
        ),
{
    lemma2_to64();
    lemma_magnitude_to(info, value, 0x100_0000);
    if mantissa == 0 {
        assert(seq![false] + Seq::<bool>::empty() =~= seq![false]);
        lemma_digit(c, false, Seq::empty());
    } else {
        lemma_digit(c, true, low_digits(mantissa, 23));
        law_low_digits(behind(c, 1), mantissa, 23);
        lemma_behind(c, 1, 23);
    }
}

/// A number that is too small for an integer is stored as a zero: where zeros are followed by
/// what they stand for, one digit says whether its three fields come, and another one may
/// give the sign of a true zero. Small exponents are not stored.
pub proof fn law_float_zero(info: FloatInfo, f: Fields, c: Cursor)
    requires
        f.sign <= 1,
        f.exponent < 0x100,
        f.mantissa < 0x80_0000,
        ({
            let told = (info.flags / 8) % 2 == 1;
            let signed = (info.flags / 16) % 2 == 1;
            let wide = info.max_exp >= 25;
            let none = f.exponent == 0 && f.mantissa == 0;
            if !told {
                none && f.sign == 0
            } else if none && signed {
                lies(c, seq![false] + seq![f.sign == 1])
            } else if none && f.sign == 0 {
                lies(c, seq![false])
            } else {
                &&& wide || f.exponent == 0
                &&& lies(
                    c,
                    seq![true] + (low_digits(f.mantissa as nat, 23) + (if wide {
                        low_digits(f.exponent as nat, 8)
                    } else {
                        Seq::empty()
                    } + seq![f.sign == 1])),
                )
            }
        }),
    ensures
        info.sample(0, c).0 == f,
        info.sample(0, c).1.pos == c.pos + (if (info.flags / 8) % 2 == 0 {
            0int
        } else if f.exponent == 0 && f.mantissa == 0 && (info.flags / 16) % 2 == 1 {
            2
        } else if f.exponent == 0 && f.mantissa == 0 && f.sign == 0 {
            1
        } else if info.max_exp >= 25 {
            33
        } else {
            25
        }),
{
    lemma2_to64();
    lemma_masks(info.flags, 0);
    let told = (info.flags / 8) % 2 == 1;
    let signed = (info.flags / 16) % 2 == 1;
    let wide = info.max_exp >= 25;
    let none = f.exponent == 0 && f.mantissa == 0;
    if told {
        if none && signed {
            lemma_digit(c, false, seq![f.sign == 1]);
            assert(seq![f.sign == 1] + Seq::<bool>::empty() =~= seq![f.sign == 1]);
            lemma_digit(behind(c, 1), f.sign == 1, Seq::empty());
        } else if none && f.sign == 0 {
            assert(seq![false] + Seq::<bool>::empty() =~= seq![false]);
            lemma_digit(c, false, Seq::empty());
        } else {
            let e = if wide {
                low_digits(f.exponent as nat, 8)
            } else {
                Seq::empty()
            };
            let last = seq![f.sign == 1];
            let m = low_digits(f.mantissa as nat, 23);
            lemma_low_len(f.mantissa as nat, 23);
            lemma_low_len(f.exponent as nat, 8);
            lemma_digit(c, true, m + (e + last));
            let c1 = behind(c, 1);
            lemma_lies(c1, m, e + last);
            law_low_digits(c1, f.mantissa as nat, 23);
            let c2 = behind(c1, 23);
            lemma_lies(c2, e, last);
            if wide {
                law_low_digits(c2, f.exponent as nat, 8);
            }
            let c3 = behind(c2, e.len());
            assert(last + Seq::<bool>::empty() =~= last);
            lemma_digit(c3, f.sign == 1, Seq::empty());
        }
    }
}

/// The low bits of samples, one after the other.
pub open spec fn lows_row(info: Int32Info, width: nat, xs: Seq<i32>, lows: Seq<nat>) -> Seq<bool>
    decreases xs.len(),
{
    if xs.len() == 0 {
        Seq::empty()
    } else {
        lows_row(info, width, xs.drop_last(), lows.drop_last()) + low_digits(
            lows.last(),
            room(xs.last() as int, info.sent_bits as nat, width),
        )
    }
}

/// The checksum of large samples: from 32 ones on, nine times that of those before, three
/// times the low half of the sample and its high half, in 32 binary digits.
pub open spec fn large_sum(ys: Seq<i32>) -> int
    decreases ys.len(),
{
    if ys.len() == 0 {
        0xFFFF_FFFF
    } else {
        let whole = ys.last() as int % 0x1_0000_0000;
        (9 * large_sum(ys.drop_last()) + 3 * (whole % 0x1_0000) + whole / 0x1_0000)
            % 0x1_0000_0000
    }
}

/// A sample with its stored low bits.
pub open spec fn with_low(info: Int32Info, width: nat, x: i32, low: nat) -> int {
    let n = room(x as int, info.sent_bits as nat, width);
    (x * pow2(n) + low) * pow2((info.sent_bits - n) as nat)
}

/// Low bits that are stored beside a block are put behind its samples, each behind its own,
/// and those that are known without being stored behind them.
pub proof fn law_lows_read(
    info: Int32Info,
    width: nat,
    xs: Seq<i32>,
    lows: Seq<nat>,
    all: Seq<i32>,
    c: Cursor,
)
    requires
        0 < info.sent_bits <= 30,
        lows.len() == xs.len(),
        xs.len() <= all.len(),
        forall|i: int| 0 <= i < xs.len() ==> #[trigger] all[i] == xs[i],
        forall|i: int|
            #![trigger xs[i]]
            0 <= i < xs.len() ==> within(xs[i] * pow2(info.sent_bits as nat), 0x3FFF_FFFF)
                && lows[i] < pow2(room(xs[i] as int, info.sent_bits as nat, width)),
        lies(c, lows_row(info, width, xs, lows)),
    ensures
        ({
            let (ys, end, crc) = int_run(info, width, all, c, xs.len());
            &&& ys.len() == xs.len()
            &&& crc == large_sum(ys)
            &&& c.loaded <= c.buf.len() ==> end.loaded <= c.buf.len()
            &&& forall|i: int|
                #![trigger ys[i]]
                0 <= i < xs.len() ==> ys[i] == info.expand(
                    with_low(info, width, xs[i], lows[i]) as i32,
                )
            &&& end.pos == c.pos + lows_row(info, width, xs, lows).len()
            &&& end.buf == c.buf
        }),
    decreases xs.len(),
{
    if xs.len() > 0 {
        let bx = xs.drop_last();
        let bl = lows.drop_last();
        let k = xs.len() - 1;
        let n = room(xs[k] as int, info.sent_bits as nat, width);
        let front = lows_row(info, width, bx, bl);
        let last = low_digits(lows[k], n);
        lemma_lies(c, front, last);
        lemma_low_len(lows[k], n);
        assert forall|i: int|
            #![trigger bx[i]]
            0 <= i < bx.len() implies within(bx[i] * pow2(info.sent_bits as nat), 0x3FFF_FFFF)
            && bl[i] < pow2(room(bx[i] as int, info.sent_bits as nat, width)) by {
            assert(bx[i] == xs[i] && bl[i] == lows[i]);
        }
        law_lows_read(info, width, bx, bl, all, c);
        let (ys, at, _) = int_run(info, width, all, c, k as nat);
        assert(lies(at, last)) by {
            let d = behind(c, front.len());
            assert forall|j: int| 0 <= j < last.len() implies bit(at.buf, at.pos + j) == digit(
                #[trigger] last[j],
            ) by {
                assert(bit(d.buf, d.pos + j) == digit(last[j]));
            }
        }
        assert(all[k] == xs[k]);
        assert(within(xs[k] * pow2(info.sent_bits as nat), 0x3FFF_FFFF) && lows[k] < pow2(n));
        law_sent_read(info, xs[k], width, at, lows[k]);
        let (now, end, _) = int_run(info, width, all, c, xs.len());
        assert(now.drop_last() =~= ys);
        law_large_checksum(int_run(info, width, all, c, k as nat).2, now.last());
        assert forall|i: int|
            #![trigger now[i]]
            0 <= i < xs.len() implies now[i] == info.expand(
            with_low(info, width, xs[i], lows[i]) as i32,
        ) by {
            if i < k {
                assert(now[i] == ys[i]);
                assert(bx[i] == xs[i] && bl[i] == lows[i]);
            }
        }
    }
}

/// The checksum of large samples: nine times that of those before, three times the low half
/// of the sample and its high half, in 32 binary digits.
pub proof fn law_large_checksum(crc: u32, y: i32)
    ensures
        ({
            let whole = y as int % 0x1_0000_0000;
            int_checksum(crc, y) == (9 * crc + 3 * (whole % 0x1_0000) + whole / 0x1_0000)
                % 0x1_0000_0000
        }),
{
    lemma_unsigned(y, 0);
}

/// The checksum of floating-point samples: twenty-seven times that of those before, nine
/// times the mantissa, three times the exponent and the sign, in 32 binary digits.
pub proof fn law_float_checksum(crc: u32, f: Fields)
    ensures
        float_checksum(crc, f) == (27 * crc + 9 * f.mantissa + 3 * f.exponent + f.sign)
            % 0x1_0000_0000,
{
}

/// Large samples whose low bits are stored beside a block come out with them; where the
/// checksum is another, they are refused. The width that leaves room for low bits is
/// written in front of them in newer files, and older ones have no limit.
pub proof fn law_large_read(
    xs: Seq<i32>,
    lows: Seq<nat>,
    info: Int32Info,
    width: nat,
    w: Wvx,
    shift: nat,
)
    requires
        0 < info.sent_bits <= 30,
        info.zeros < 32,
        info.ones < 32,
        info.dups < 32,
        width < 32,
        !w.is_new ==> width == 0,
        lows.len() == xs.len(),
        forall|i: int|
            #![trigger xs[i]]
            0 <= i < xs.len() ==> within(xs[i] * pow2(info.sent_bits as nat), 0x3FFF_FFFF)
                && lows[i] < pow2(room(xs[i] as int, info.sent_bits as nat, width)),
        lies(
            Cursor { buf: w.stream, pos: 0, loaded: 0 },
            (if w.is_new {
                low_digits(width, 5)
            } else {
                Seq::empty()
            }) + lows_row(info, width, xs, lows),
        ),
    ensures
        ({
            let b = seq![
                info.sent_bits as u8,
                info.zeros as u8,
                info.ones as u8,
                info.dups as u8,
            ];
            let ys = Seq::new(
                xs.len(),
                |i: int| info.expand(with_low(info, width, xs[i], lows[i]) as i32),
            );
            &&& w.crc == large_sum(ys) ==> int32_fixed(xs, b, Some(w), shift) == Ok::<
                (Seq<i32>, nat),
                Fault,
            >((ys, shift))
            &&& w.crc != large_sum(ys) ==> int32_fixed(xs, b, Some(w), shift) is Err
        }),
{
    let b = seq![info.sent_bits as u8, info.zeros as u8, info.ones as u8, info.dups as u8];
    assert(Int32Info::of(b) == info);
    let start = Cursor { buf: w.stream, pos: 0, loaded: 0 };
    let front = if w.is_new {
        low_digits(width, 5)
    } else {
        Seq::empty()
    };
    let row = lows_row(info, width, xs, lows);
    lemma_lies(start, front, row);
    lemma_low_len(width, 5);
    lemma2_to64();
    if w.is_new {
        law_low_digits(start, width, 5);
    }
    let c = behind(start, front.len());
    law_lows_read(info, width, xs, lows, xs, c);
    let ys = Seq::new(
        xs.len(),
        |i: int| info.expand(with_low(info, width, xs[i], lows[i]) as i32),
    );
    assert(int_run(info, width, xs, c, xs.len()).0 =~= ys);
}

/// Newer files write in front of the low bits of floating-point samples how many of them
/// are zero at least, and how many are not at most; the samples follow with these limits,
/// and are refused where the checksum is another.
pub proof fn law_limits_read(xs: Seq<i32>, info: FloatInfo, w: Wvx, false_stereo: bool)
    requires
        w.is_new,
        info.shift < 32,
        info.max_exp < 256,
        info.min_zeros < 32,
        info.max_ones < 32,
        lies(
            Cursor { buf: w.stream, pos: 0, loaded: 0 },
            low_digits(info.min_zeros as nat, 5) + low_digits(info.max_ones as nat, 5),
        ),
    ensures
        ({
            let b = seq![info.flags, info.shift as u8, info.max_exp as u8];
            let c = Cursor { buf: w.stream, pos: 10, loaded: 2 };
            let (ys, end, crc) = float_run(info, xs, c, xs.len());
            let read = float_fixed(xs, b, Some(w), false_stereo);
            &&& !end.exhausted() && crc == w.crc ==> {
                &&& read matches Ok(zs)
                &&& !false_stereo ==> zs == ys
                &&& false_stereo ==> zs.len() == 2 * ys.len() && forall|i: int|
                    #![trigger ys[i]]
                    0 <= i < ys.len() ==> zs[2 * i] == ys[i] && zs[2 * i + 1] == ys[i]
            }
            &&& end.exhausted() || crc != w.crc ==> read is Err
        }),
{
    let b = seq![info.flags, info.shift as u8, info.max_exp as u8];
    let start = Cursor { buf: w.stream, pos: 0, loaded: 0 };
    let zeros = low_digits(info.min_zeros as nat, 5);
    let ones = low_digits(info.max_ones as nat, 5);
    lemma_low_len(info.min_zeros as nat, 5);
    lemma_low_len(info.max_ones as nat, 5);
    lemma2_to64();
    lemma_lies(start, zeros, ones);
    law_low_digits(start, info.min_zeros as nat, 5);
    law_low_digits(behind(start, 5), info.max_ones as nat, 5);
    assert(FloatInfo::of(b) == (FloatInfo { min_zeros: 0, max_ones: 0, ..info }));
    let c = Cursor { buf: w.stream, pos: 10, loaded: 2 };
    assert(start.advance(5).advance(5) == c);
    assert(start == Cursor::start(w.stream));
    assert(behind(start, 5) == start.advance(5));
    assert(start.value(5) == info.min_zeros && start.advance(5).value(5) == info.max_ones);
    assert(FloatInfo {
        min_zeros: start.value(5) as u32,
        max_ones: start.advance(5).value(5) as u32,
        ..FloatInfo::of(b)
    } == info);
    let ys = float_run(info, xs, c, xs.len()).0;
    assert forall|i: int| #![trigger ys[i]] 0 <= i < ys.len() implies interleaved(ys, ys)[2 * i]
        == ys[i] && interleaved(ys, ys)[2 * i + 1] == ys[i] by {
    }
}

} // verus!
