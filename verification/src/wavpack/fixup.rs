//! The last step of decoding a WavPack block: samples of more than 24 bits and
//! floating-point samples get back the bits that were cut off.

use super::bitstream::{bit_length, bit_length_of, BsReader, Cursor};
use super::decorr::interleaved;
use super::parts::{wvx_of, Wvx, WvxStream};
use crate::error::{DecodeError, Fault};
use vstd::arithmetic::power2::{lemma2_to64, lemma_pow2_strictly_increases, pow2};
use vstd::bits::lemma_u64_shl_is_mul;
use vstd::prelude::*;

verus! {

/// `v` shifted up by `k` bits, which drop out above.
pub open spec fn shl(v: i32, k: u32) -> i32 {
    ((v as u32) << k) as i32
}

/// How the low bits of large integers were cut.
#[derive(Clone, Copy)]
pub struct Int32Info {
    /// Low bits that are stored as they are.
    pub sent_bits: u32,
    /// Low bits that are all zero.
    pub zeros: u32,
    /// Low bits that are all one.
    pub ones: u32,
    /// Low bits that repeat the lowest bit kept.
    pub dups: u32,
}

impl Int32Info {
    /// What the four bytes say.
    pub open spec fn of(b: Seq<u8>) -> Int32Info {
        Int32Info {
            sent_bits: (b[0] % 32) as u32,
            zeros: (b[1] % 32) as u32,
            ones: (b[2] % 32) as u32,
            dups: (b[3] % 32) as u32,
        }
    }

    /// A sample with the low bits that are known without being stored.
    pub open spec fn expand(self, v: i32) -> i32 {
        if self.zeros != 0 {
            shl(v, self.zeros)
        } else if self.ones != 0 {
            shl(v.wrapping_add(1), self.ones).wrapping_sub(1)
        } else if self.dups != 0 {
            let lo = v & 1;
            shl(v.wrapping_add(lo), self.dups).wrapping_sub(lo)
        } else {
            v
        }
    }

    /// The number of stored bits for a sample: fewer where the sample with all
    /// of them would be wider than `max_width`.
    pub open spec fn stored_bits(self, v: i32, max_width: nat) -> nat {
        let magnitude = if v < 0 {
            !(v as u32)
        } else {
            v as u32
        };
        let width = bit_length(magnitude as nat) + self.sent_bits;
        if max_width == 0 || width <= max_width {
            self.sent_bits as nat
        } else if width - max_width > self.sent_bits {
            0
        } else {
            (self.sent_bits - (width - max_width)) as nat
        }
    }

    /// A sample with its stored bits, and the cursor behind them.
    pub open spec fn sent(self, v: i32, max_width: nat, c: Cursor) -> (i32, Cursor) {
        if self.sent_bits == 0 {
            (v, c)
        } else {
            let n = self.stored_bits(v, max_width);
            (
                shl(shl(v, n as u32) | (c.value(n) as i32), (self.sent_bits - n) as u32),
                c.advance(n),
            )
        }
    }
}

/// The checksum of large integers after one more.
pub open spec fn int_checksum(crc: u32, v: i32) -> u32 {
    crc.wrapping_mul(9).wrapping_add(((v as u32) % 0x1_0000).wrapping_mul(3)).wrapping_add(
        (v as u32) / 0x1_0000,
    )
}

/// The first `n` samples with their low bits, the cursor behind those, and
/// their checksum.
pub open spec fn int_run(info: Int32Info, max_width: nat, xs: Seq<i32>, c: Cursor, n: nat) -> (
    Seq<i32>,
    Cursor,
    u32,
)
    decreases n,
{
    if n == 0 {
        (Seq::empty(), c, 0xFFFF_FFFFu32)
    } else {
        let (ys, at, crc) = int_run(info, max_width, xs, c, (n - 1) as nat);
        let (v, next) = info.sent(xs[n - 1], max_width, at);
        let y = info.expand(v);
        (ys.push(y), next, int_checksum(crc, y))
    }
}

/// The samples with their low bits, and how far all of them are shifted in the
/// end.
pub open spec fn int32_fixed(xs: Seq<i32>, b: Seq<u8>, wvx: Option<Wvx>, shift: nat) -> Result<
    (Seq<i32>, nat),
    Fault,
> {
    let info = Int32Info::of(b);
    match wvx {
        Some(w) => {
            let start = Cursor::start(w.stream);
            let (max_width, c) = if w.is_new {
                (start.value(5), start.advance(5))
            } else {
                (0nat, start)
            };
            let (ys, end, crc) = int_run(info, max_width, xs, c, xs.len());
            if end.exhausted() {
                Err(Fault::Decode("WavPack WVX 位流耗尽"@))
            } else if crc != w.crc {
                Err(Fault::Decode("WavPack WVX CRC 校验失败"@))
            } else {
                Ok((ys, shift))
            }
        },
        None => if info.sent_bits == 0 && info.zeros + info.ones + info.dups != 0 {
            Ok((xs.map_values(|v: i32| info.expand(v)), shift))
        } else {
            Ok((xs, shift + (info.zeros + info.sent_bits + info.ones + info.dups) as nat))
        },
    }
}

/// Applies [`shl`].
pub fn shift_up(v: i32, k: u32) -> (r: i32)
    requires
        k < 32,
    ensures
        r == shl(v, k),
{
    ((v as u32) << k) as i32
}

impl Int32Info {
    fn new(b: &[u8; 4]) -> (i: Self)
        ensures
            i == Int32Info::of(b@),
            i.small(),
    {
        Int32Info {
            sent_bits: (b[0] % 32) as u32,
            zeros: (b[1] % 32) as u32,
            ones: (b[2] % 32) as u32,
            dups: (b[3] % 32) as u32,
        }
    }

    spec fn small(self) -> bool {
        self.sent_bits < 32 && self.zeros < 32 && self.ones < 32 && self.dups < 32
    }

    fn expand_one(&self, v: i32) -> (r: i32)
        requires
            self.small(),
        ensures
            r == self.expand(v),
    {
        if self.zeros != 0 {
            shift_up(v, self.zeros)
        } else if self.ones != 0 {
            shift_up(v.wrapping_add(1), self.ones).wrapping_sub(1)
        } else if self.dups != 0 {
            let lo: i32 = v & 1;
            shift_up(v.wrapping_add(lo), self.dups).wrapping_sub(lo)
        } else {
            v
        }
    }

    fn read_sent(&self, v: i32, max_width: u32, r: &mut BsReader) -> (y: i32)
        requires
            self.small(),
            max_width < 32,
            old(r).inv(),
        ensures
            final(r).inv(),
            (y, final(r).cursor()) == self.sent(v, max_width as nat, old(r).cursor()),
    {
        if self.sent_bits == 0 {
            return v;
        }
        let magnitude: u32 = if v < 0 {
            !(v as u32)
        } else {
            v as u32
        };
        let width: u32 = bit_length_of(magnitude) + self.sent_bits;
        let n: u32 = if max_width == 0 || width <= max_width {
            self.sent_bits
        } else if width - max_width > self.sent_bits {
            0
        } else {
            self.sent_bits - (width - max_width)
        };
        let data: u32 = r.getbits(n);
        shift_up(shift_up(v, n) | (data as i32), self.sent_bits - n)
    }
}

/// Gives samples of more than 24 bits their low bits; the second value is how
/// far all of them are shifted in the end.
pub fn int32_fixup(buffer: Vec<i32>, info: &[u8; 4], wvx: Option<WvxStream>, shift: u32) -> (r:
    Result<(Vec<i32>, u32), DecodeError>)
    requires
        shift < 32,
    ensures
        match int32_fixed(buffer@, info@, wvx_of(wvx), shift as nat) {
            Ok((ys, s)) => r matches Ok(p) && p.0@ == ys && p.1 == s && p.1 < 192,
            Err(f) => r matches Err(e) && e@ == f,
        },
{
    let ghost xs = buffer@;
    let info = Int32Info::new(info);
    let mut buffer = buffer;
    match wvx {
        Some(w) => {
            let mut r = BsReader::new(w.stream);
            let max_width: u32 = if w.is_new {
                r.getbits(5)
            } else {
                0
            };
            proof {
                lemma2_to64();
            }
            let ghost c = r.cursor();
            let mut crc: u32 = 0xFFFF_FFFF;
            let mut i: usize = 0;
            while i < buffer.len()
                invariant
                    info.small(),
                    max_width < 32,
                    r.inv(),
                    i <= buffer@.len(),
                    buffer@.len() == xs.len(),
                    forall|j: int| i <= j < xs.len() ==> buffer@[j] == xs[j],
                    int_run(info, max_width as nat, xs, c, i as nat) == (
                        buffer@.take(i as int),
                        r.cursor(),
                        crc,
                    ),
                decreases buffer@.len() - i,
            {
                let ghost before = buffer@;
                let v: i32 = info.read_sent(buffer[i], max_width, &mut r);
                let y: i32 = info.expand_one(v);
                buffer[i] = y;
                crc = crc.wrapping_mul(9).wrapping_add(
                    ((y as u32) % 0x1_0000).wrapping_mul(3),
                ).wrapping_add((y as u32) / 0x1_0000);
                i = i + 1;
                assert(buffer@.take(i as int) =~= before.take(i - 1).push(y));
            }
            assert(buffer@.take(i as int) =~= buffer@);
            if r.exhausted() {
                return Err(DecodeError::decode("WavPack WVX 位流耗尽"));
            }
            if crc != w.crc {
                return Err(DecodeError::decode("WavPack WVX CRC 校验失败"));
            }
            Ok((buffer, shift))
        },
        None => {
            if info.sent_bits == 0 && info.zeros + info.ones + info.dups != 0 {
                let mut i: usize = 0;
                while i < buffer.len()
                    invariant
                        info.small(),
                        i <= buffer@.len(),
                        buffer@.len() == xs.len(),
                        forall|j: int| 0 <= j < i ==> buffer@[j] == info.expand(xs[j]),
                        forall|j: int| i <= j < xs.len() ==> buffer@[j] == xs[j],
                    decreases buffer@.len() - i,
                {
                    buffer[i] = info.expand_one(buffer[i]);
                    i = i + 1;
                }
                assert(buffer@ =~= xs.map_values(|v: i32| info.expand(v)));
                Ok((buffer, shift))
            } else {
                Ok((buffer, shift + (info.zeros + info.sent_bits + info.ones + info.dups)))
            }
        },
    }
}

/// The low bits moved out while normalising are ones.
pub const SHIFT_ONES: u8 = 0x01;

/// They are all alike, and one bit says which.
pub const SHIFT_SAME: u8 = 0x02;

/// They are stored.
pub const SHIFT_SENT: u8 = 0x04;

/// Zeros are followed by what they stand for.
pub const ZEROS_SENT: u8 = 0x08;

/// Zeros have a sign.
pub const NEG_ZEROS: u8 = 0x10;

/// How floating-point samples were cut.
#[derive(Clone, Copy)]
pub struct FloatInfo {
    /// What the low bits are.
    pub flags: u8,
    /// How far the integers are shifted first.
    pub shift: u32,
    /// The largest exponent.
    pub max_exp: u32,
    /// Of stored low bits, how many are zero at least.
    pub min_zeros: u32,
    /// Of stored low bits, how many are not zero at most; no limit for zero.
    pub max_ones: u32,
}

/// A floating-point number in its three fields.
pub struct Fields {
    /// The sign bit.
    pub sign: u32,
    /// The exponent.
    pub exponent: u32,
    /// The mantissa.
    pub mantissa: u32,
}

/// The bits of a floating-point number.
pub open spec fn packed(f: Fields) -> i32 {
    ((f.sign << 31) | (f.exponent << 23) | f.mantissa) as i32
}

/// A number shifted up until bit 23 is set or the exponent is used up; the
/// exponent left, and how far the number was shifted.
pub open spec fn normalized(v: u32, exp: nat, sc: nat) -> (u32, nat, nat)
    decreases exp,
{
    if exp == 0 || v & 0x80_0000 != 0 {
        (v, exp, sc)
    } else if exp == 1 {
        (v, 0, sc)
    } else {
        normalized(v << 1, (exp - 1) as nat, sc + 1)
    }
}

/// A number shifted down until bits 24 to 27 are clear, and its exponent.
pub open spec fn reduced(v: u32, exp: u32) -> (u32, u32)
    decreases v,
{
    if v & 0x0F00_0000 == 0 {
        (v, exp)
    } else {
        proof {
            assert(v > 0) by (bit_vector)
                requires
                    v & 0x0F00_0000 != 0,
            ;
        }
        reduced(v / 2, exp.wrapping_add(1))
    }
}

/// The `k` lowest bits set.
pub open spec fn low_ones(k: nat) -> u32 {
    (pow2(k) - 1) as u32
}

impl FloatInfo {
    /// What the four bytes say, without the limits of stored bits.
    pub open spec fn of(b: Seq<u8>) -> FloatInfo {
        FloatInfo {
            flags: b[0],
            shift: (b[1] % 32) as u32,
            max_exp: b[2] as u32,
            min_zeros: 0,
            max_ones: 0,
        }
    }

    /// The magnitude of a sample after the first shift, and its sign.
    pub open spec fn magnitude(self, value: i32) -> (u32, u32) {
        let v = (value as u32) << self.shift;
        if v >= 0x8000_0000 {
            (0u32.wrapping_sub(v), 1)
        } else {
            (v, 0)
        }
    }

    /// Of `sc` stored low bits, how many are known to be zero.
    pub open spec fn known_zeros(self, sc: nat) -> nat {
        let over = if self.max_ones != 0 && sc > self.max_ones {
            (sc - self.max_ones) as nat
        } else {
            0
        };
        if self.min_zeros > over {
            if self.min_zeros < sc {
                self.min_zeros as nat
            } else {
                sc
            }
        } else {
            over
        }
    }

    /// A number with the `sc` low bits that normalising made room for, and the
    /// cursor behind what was stored of them.
    pub open spec fn filled(self, v: u32, sc: nat, c: Cursor) -> (u32, Cursor) {
        if sc == 0 {
            (v, c)
        } else if self.flags & SHIFT_ONES != 0 {
            (v | low_ones(sc), c)
        } else {
            let same = self.flags & SHIFT_SAME != 0;
            let c1 = if same {
                c.advance(1)
            } else {
                c
            };
            if same && c.head() != 0 {
                (v | low_ones(sc), c1)
            } else if self.flags & SHIFT_SENT != 0 && sc > self.known_zeros(sc) {
                let nz = self.known_zeros(sc);
                let n = (sc - nz) as nat;
                (v | (((c1.value(n) as u32) << (nz as u32)) & low_ones(sc)), c1.advance(n))
            } else {
                (v, c1)
            }
        }
    }

    /// What a zero stands for, and the cursor behind it.
    pub open spec fn zero(self, c: Cursor) -> (Fields, Cursor) {
        if self.flags & ZEROS_SENT == 0 {
            (Fields { sign: 0, exponent: 0, mantissa: 0 }, c)
        } else if c.head() != 0 {
            let c1 = c.advance(1);
            let c2 = c1.advance(23);
            let c3 = if self.max_exp >= 25 {
                c2.advance(8)
            } else {
                c2
            };
            (
                Fields {
                    sign: c3.head() as u32,
                    exponent: if self.max_exp >= 25 {
                        c2.value(8) as u32
                    } else {
                        0
                    },
                    mantissa: c1.value(23) as u32,
                },
                c3.advance(1),
            )
        } else if self.flags & NEG_ZEROS != 0 {
            (
                Fields { sign: c.advance(1).head() as u32, exponent: 0, mantissa: 0 },
                c.advance(1).advance(1),
            )
        } else {
            (Fields { sign: 0, exponent: 0, mantissa: 0 }, c.advance(1))
        }
    }

    /// What a sample stands for, and the cursor behind what was stored of it.
    pub open spec fn sample(self, value: i32, c: Cursor) -> (Fields, Cursor) {
        if value == 0 {
            self.zero(c)
        } else {
            let (v, sign) = self.magnitude(value);
            if v == 0x0100_0000 {
                if c.head() != 0 {
                    (
                        Fields {
                            sign,
                            exponent: 255,
                            mantissa: c.advance(1).value(23) as u32,
                        },
                        c.advance(1).advance(23),
                    )
                } else {
                    (Fields { sign, exponent: 255, mantissa: 0 }, c.advance(1))
                }
            } else {
                let (nv, exp, sc) = normalized(v, self.max_exp as nat, 0);
                let (fv, next) = self.filled(nv, sc % 32, c);
                (Fields { sign, exponent: exp as u32, mantissa: fv % 0x80_0000 }, next)
            }
        }
    }

    /// What a sample stands for where nothing is stored beside it.
    pub open spec fn plain(self, value: i32) -> Fields {
        if value == 0 {
            Fields { sign: 0, exponent: 0, mantissa: 0 }
        } else {
            let (v, sign) = self.magnitude(value);
            if v >= 0x0100_0000 {
                let (rv, exp) = reduced(v, self.max_exp);
                Fields { sign, exponent: exp, mantissa: rv % 0x80_0000 }
            } else {
                let (nv, exp, sc) = normalized(v, self.max_exp as nat, 0);
                let fv = if sc % 32 != 0 && self.flags & SHIFT_ONES != 0 {
                    nv | low_ones(sc % 32)
                } else {
                    nv
                };
                Fields { sign, exponent: exp as u32, mantissa: fv % 0x80_0000 }
            }
        }
    }
}

/// The checksum of floating-point samples after one more.
pub open spec fn float_checksum(crc: u32, f: Fields) -> u32 {
    crc.wrapping_mul(27).wrapping_add(f.mantissa.wrapping_mul(9)).wrapping_add(
        f.exponent.wrapping_mul(3),
    ).wrapping_add(f.sign)
}

/// The first `n` samples, the cursor behind what was stored of them, and their
/// checksum.
pub open spec fn float_run(info: FloatInfo, xs: Seq<i32>, c: Cursor, n: nat) -> (
    Seq<i32>,
    Cursor,
    u32,
)
    decreases n,
{
    if n == 0 {
        (Seq::empty(), c, 0xFFFF_FFFFu32)
    } else {
        let (ys, at, crc) = float_run(info, xs, c, (n - 1) as nat);
        let (f, next) = info.sample(xs[n - 1], at);
        (ys.push(packed(f)), next, float_checksum(crc, f))
    }
}

/// Samples, each twice where one channel stands for two equal ones.
pub open spec fn spread(xs: Seq<i32>, false_stereo: bool) -> Seq<i32> {
    if false_stereo {
        interleaved(xs, xs)
    } else {
        xs
    }
}

/// The floating-point samples as their bits.
pub open spec fn float_fixed(xs: Seq<i32>, b: Seq<u8>, wvx: Option<Wvx>, false_stereo: bool) -> Result<
    Seq<i32>,
    Fault,
> {
    let info = FloatInfo::of(b);
    match wvx {
        Some(w) => {
            let start = Cursor::start(w.stream);
            let (limited, c) = if w.is_new {
                (
                    FloatInfo {
                        min_zeros: start.value(5) as u32,
                        max_ones: start.advance(5).value(5) as u32,
                        ..info
                    },
                    start.advance(5).advance(5),
                )
            } else {
                (info, start)
            };
            let (ys, end, crc) = float_run(limited, xs, c, xs.len());
            if end.exhausted() {
                Err(Fault::Decode("WavPack WVX 位流耗尽"@))
            } else if crc != w.crc {
                Err(Fault::Decode("WavPack WVX CRC 校验失败"@))
            } else {
                Ok(spread(ys, false_stereo))
            }
        },
        None => Ok(spread(xs.map_values(|v: i32| packed(info.plain(v))), false_stereo)),
    }
}

/// The `k` lowest bits set.
fn low_ones_of(k: u32) -> (m: u32)
    requires
        k < 32,
    ensures
        m == low_ones(k as nat),
{
    proof {
        lemma2_to64();
        lemma_pow2_strictly_increases(k as nat, 32);
        lemma_u64_shl_is_mul(1, k as u64);
    }
    ((1u64 << k) - 1) as u32
}

/// Packs the fields of a floating-point number.
fn pack(f: &Fields) -> (v: i32)
    ensures
        v == packed(*f),
{
    ((f.sign << 31) | (f.exponent << 23) | f.mantissa) as i32
}

/// Shifts a number up until bit 23 is set or the exponent is used up.
fn normalize(v: u32, exp: u32) -> (r: (u32, u32, u32))
    requires
        exp <= 255,
    ensures
        (r.0, r.1 as nat, r.2 as nat) == normalized(v, exp as nat, 0),
        r.1 <= 255,
{
    let mut n: u32 = v;
    let mut e: u32 = exp;
    let mut sc: u32 = 0;
    while e > 1 && n & 0x80_0000 == 0
        invariant
            e <= exp <= 255,
            sc + e == exp,
            normalized(v, exp as nat, 0) == normalized(n, e as nat, sc as nat),
        decreases e,
    {
        n = n << 1;
        e = e - 1;
        sc = sc + 1;
    }
    if e == 1 && n & 0x80_0000 == 0 {
        e = 0;
    }
    (n, e, sc)
}

/// Shifts a number down until bits 24 to 27 are clear.
fn reduce(v: u32, exp: u32) -> (r: (u32, u32))
    ensures
        r == reduced(v, exp),
{
    let mut n: u32 = v;
    let mut e: u32 = exp;
    while n & 0x0F00_0000 != 0
        invariant
            reduced(v, exp) == reduced(n, e),
        decreases n,
    {
        assert(n > 0) by (bit_vector)
            requires
                n & 0x0F00_0000 != 0,
        ;
        n = n / 2;
        e = e.wrapping_add(1);
    }
    (n, e)
}

impl FloatInfo {
    spec fn small(self) -> bool {
        self.shift < 32 && self.max_exp <= 255 && self.min_zeros < 32 && self.max_ones < 32
    }

    fn new(b: &[u8; 4]) -> (i: Self)
        ensures
            i == FloatInfo::of(b@),
            i.small(),
    {
        FloatInfo {
            flags: b[0],
            shift: (b[1] % 32) as u32,
            max_exp: b[2] as u32,
            min_zeros: 0,
            max_ones: 0,
        }
    }

    fn magnitude_of(&self, value: i32) -> (r: (u32, u32))
        requires
            self.small(),
        ensures
            r == self.magnitude(value),
    {
        let v: u32 = (value as u32) << self.shift;
        if v >= 0x8000_0000 {
            (0u32.wrapping_sub(v), 1)
        } else {
            (v, 0)
        }
    }

    fn fill_low(&self, v: u32, sc: u32, r: &mut BsReader) -> (y: u32)
        requires
            self.small(),
            sc < 32,
            old(r).inv(),
        ensures
            final(r).inv(),
            (y, final(r).cursor()) == self.filled(v, sc as nat, old(r).cursor()),
    {
        if sc == 0 {
            return v;
        }
        if self.flags & SHIFT_ONES != 0 {
            return v | low_ones_of(sc);
        }
        if self.flags & SHIFT_SAME != 0 {
            let b: u32 = r.getbit();
            if b != 0 {
                return v | low_ones_of(sc);
            }
        }
        if self.flags & SHIFT_SENT != 0 {
            let mut zeros: u32 = 0;
            if self.max_ones != 0 && sc > self.max_ones {
                zeros = sc - self.max_ones;
            }
            if self.min_zeros > zeros {
                zeros = if self.min_zeros < sc {
                    self.min_zeros
                } else {
                    sc
                };
            }
            if sc > zeros {
                let data: u32 = r.getbits(sc - zeros);
                return v | ((data << zeros) & low_ones_of(sc));
            }
        }
        v
    }

    fn read_zero(&self, r: &mut BsReader) -> (f: Fields)
        requires
            old(r).inv(),
        ensures
            final(r).inv(),
            (f, final(r).cursor()) == self.zero(old(r).cursor()),
    {
        let mut f = Fields { sign: 0, exponent: 0, mantissa: 0 };
        if self.flags & ZEROS_SENT != 0 {
            let b: u32 = r.getbit();
            if b != 0 {
                f.mantissa = r.getbits(23);
                if self.max_exp >= 25 {
                    f.exponent = r.getbits(8);
                }
                f.sign = r.getbit();
            } else if self.flags & NEG_ZEROS != 0 {
                f.sign = r.getbit();
            }
        }
        f
    }

    fn read_sample(&self, value: i32, r: &mut BsReader) -> (f: Fields)
        requires
            self.small(),
            old(r).inv(),
        ensures
            final(r).inv(),
            (f, final(r).cursor()) == self.sample(value, old(r).cursor()),
    {
        if value == 0 {
            return self.read_zero(r);
        }
        let (v, sign) = self.magnitude_of(value);
        if v == 0x0100_0000 {
            let b: u32 = r.getbit();
            let mantissa: u32 = if b != 0 {
                r.getbits(23)
            } else {
                0
            };
            return Fields { sign, exponent: 255, mantissa };
        }
        let (nv, exponent, sc) = normalize(v, self.max_exp);
        let fv: u32 = self.fill_low(nv, sc % 32, r);
        Fields { sign, exponent, mantissa: fv % 0x80_0000 }
    }

    fn plain_sample(&self, value: i32) -> (f: Fields)
        requires
            self.small(),
        ensures
            f == self.plain(value),
    {
        if value == 0 {
            return Fields { sign: 0, exponent: 0, mantissa: 0 };
        }
        let (v, sign) = self.magnitude_of(value);
        if v >= 0x0100_0000 {
            let (rv, exponent) = reduce(v, self.max_exp);
            return Fields { sign, exponent, mantissa: rv % 0x80_0000 };
        }
        let (nv, exponent, sc) = normalize(v, self.max_exp);
        let fv: u32 = if sc % 32 != 0 && self.flags & SHIFT_ONES != 0 {
            nv | low_ones_of(sc % 32)
        } else {
            nv
        };
        Fields { sign, exponent, mantissa: fv % 0x80_0000 }
    }
}

/// Doubles every sample where one channel stands for two equal ones.
pub fn spread_channels(xs: Vec<i32>, false_stereo: bool) -> (ys: Vec<i32>)
    ensures
        ys@ == spread(xs@, false_stereo),
{
    if !false_stereo {
        return xs;
    }
    let mut ys: Vec<i32> = Vec::new();
    let mut i: usize = 0;
    while i < xs.len()
        invariant
            i <= xs@.len(),
            ys@ == interleaved(xs@.take(i as int), xs@.take(i as int)),
        decreases xs@.len() - i,
    {
        let v: i32 = xs[i];
        let ghost before = ys@;
        ys.push(v);
        ys.push(v);
        i = i + 1;
        assert(ys@ =~= interleaved(xs@.take(i as int), xs@.take(i as int)));
    }
    assert(xs@.take(i as int) =~= xs@);
    ys
}

/// Gives floating-point samples back as their bits.
pub fn float_fixup(
    buffer: &Vec<i32>,
    info: &[u8; 4],
    wvx: Option<WvxStream>,
    false_stereo: bool,
) -> (r: Result<Vec<i32>, DecodeError>)
    ensures
        match float_fixed(buffer@, info@, wvx_of(wvx), false_stereo) {
            Ok(ys) => r matches Ok(v) && v@ == ys,
            Err(f) => r matches Err(e) && e@ == f,
        },
{
    let mut info = FloatInfo::new(info);
    let ghost xs = buffer@;
    let mut out: Vec<i32> = Vec::new();
    match wvx {
        Some(w) => {
            let mut r = BsReader::new(w.stream);
            proof {
                lemma2_to64();
            }
            if w.is_new {
                info.min_zeros = r.getbits(5);
                info.max_ones = r.getbits(5);
            }
            let ghost c = r.cursor();
            let mut crc: u32 = 0xFFFF_FFFF;
            let mut i: usize = 0;
            while i < buffer.len()
                invariant
                    info.small(),
                    r.inv(),
                    i <= buffer@.len(),
                    xs == buffer@,
                    float_run(info, xs, c, i as nat) == (out@, r.cursor(), crc),
                decreases buffer@.len() - i,
            {
                let f: Fields = info.read_sample(buffer[i], &mut r);
                crc = crc.wrapping_mul(27).wrapping_add(f.mantissa.wrapping_mul(9)).wrapping_add(
                    f.exponent.wrapping_mul(3),
                ).wrapping_add(f.sign);
                out.push(pack(&f));
                i = i + 1;
            }
            if r.exhausted() {
                return Err(DecodeError::decode("WavPack WVX 位流耗尽"));
            }
            if crc != w.crc {
                return Err(DecodeError::decode("WavPack WVX CRC 校验失败"));
            }
        },
        None => {
            let mut i: usize = 0;
            while i < buffer.len()
                invariant
                    info.small(),
                    i <= buffer@.len(),
                    xs == buffer@,
                    out@.len() == i,
                    forall|j: int| 0 <= j < i ==> out@[j] == packed(info.plain(xs[j])),
                decreases buffer@.len() - i,
            {
                let f: Fields = info.plain_sample(buffer[i]);
                out.push(pack(&f));
                i = i + 1;
            }
            assert(out@ =~= xs.map_values(|v: i32| packed(info.plain(v))));
        },
    }
    Ok(spread_channels(out, false_stereo))
}

} // verus!
