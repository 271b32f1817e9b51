//! The bit stream of a FLAC file: bits are taken from each byte most
//! significant first.

use super::crc::{crc16_of, crc8_of, CrcTables};
use crate::error::{DecodeError, Fault};
use vstd::arithmetic::div_mod::lemma_fundamental_div_mod_converse;
use vstd::arithmetic::power2::{
    lemma2_to64, lemma2_to64_rest, lemma_pow2_pos, lemma_pow2_strictly_increases,
    lemma_pow2_unfold, pow2,
};
use vstd::bits::{lemma_u8_shr_is_div, lemma_u64_shl_is_mul};
use vstd::prelude::*;

verus! {

/// Bit `i` of the data.
pub open spec fn bit(data: Seq<u8>, i: int) -> nat {
    ((data[i / 8] >> ((7 - i % 8) as u8)) & 1) as nat
}

/// The number whose binary digits, highest first, are the `n` bits from `pos`.
pub open spec fn bits_value(data: Seq<u8>, pos: int, n: nat) -> nat
    decreases n,
{
    if n == 0 {
        0
    } else {
        2 * bits_value(data, pos, (n - 1) as nat) + bit(data, pos + n - 1)
    }
}

/// What is said where the data ends too early.
pub open spec fn cut_off() -> Fault {
    Fault::Decode("帧中途到达文件尾（截断）"@)
}

/// What is said of a run of zeros that no stream has.
pub open spec fn endless() -> Fault {
    Fault::Decode("一元编码超长（流损坏）"@)
}

/// The longest run of zeros.
pub const MAX_UNARY: u32 = 1_000_000;

/// Data, and the number of bits taken from it.
pub struct Bits {
    /// The bytes.
    pub data: Seq<u8>,
    /// The bits taken.
    pub pos: nat,
}

impl Bits {
    /// The next `n` bits as a number. Where they are not there, nothing is
    /// taken.
    pub open spec fn read(self, n: nat) -> (Result<nat, Fault>, Bits) {
        if n > 0 && self.pos + n > 8 * self.data.len() {
            (Err(cut_off()), self)
        } else {
            (
                Ok(bits_value(self.data, self.pos as int, n)),
                Bits { pos: self.pos + n, ..self },
            )
        }
    }

    /// The next `n` bits as a number in two's complement.
    pub open spec fn read_signed(self, n: nat) -> (Result<int, Fault>, Bits) {
        match self.read(n) {
            (Err(f), rest) => (Err(f), rest),
            (Ok(v), rest) => (Ok(signed(v, n)), rest),
        }
    }

    /// A run of zeros and the one that ends it, behind `q` zeros already
    /// counted.
    pub open spec fn unary(self, q: nat) -> (Result<nat, Fault>, Bits)
        decreases MAX_UNARY + 1 - q,
    {
        match self.read(1) {
            (Err(f), rest) => (Err(f), rest),
            (Ok(b), rest) => if b == 1 {
                (Ok(q), rest)
            } else if q >= MAX_UNARY {
                (Err(endless()), rest)
            } else {
                rest.unary(q + 1)
            },
        }
    }

    /// The bits up to the next byte dropped.
    pub open spec fn align(self) -> Bits {
        Bits { pos: (self.pos + 7) / 8 * 8, ..self }
    }

    /// The number of bytes taken to their last bit.
    pub open spec fn whole_bytes(self) -> int {
        (self.pos / 8) as int
    }
}

/// A number of `n` bits read as two's complement.
pub open spec fn signed(v: nat, n: nat) -> int {
    if n > 0 && v >= pow2((n - 1) as nat) {
        v - pow2(n)
    } else {
        v as int
    }
}

/// The value of `a + b` bits is that of the first `a` and, below them, that of
/// the next `b`.
pub proof fn lemma_bits_split(data: Seq<u8>, pos: int, a: nat, b: nat)
    ensures
        bits_value(data, pos, a + b) == bits_value(data, pos, a) * pow2(b) + bits_value(
            data,
            pos + a,
            b,
        ),
    decreases b,
{
    if b == 0 {
        lemma2_to64();
        assert(bits_value(data, pos, a) * pow2(0) == bits_value(data, pos, a)) by {
            assert(pow2(0) == 1);
        }
    } else {
        lemma_bits_split(data, pos, a, (b - 1) as nat);
        lemma_pow2_unfold(b);
        let x = bits_value(data, pos, a);
        assert(2 * (x * pow2((b - 1) as nat)) == x * pow2(b)) by (nonlinear_arith)
            requires
                pow2(b) == 2 * pow2((b - 1) as nat),
        ;
        assert(pos + (a + b) - 1 == pos + a + b - 1);
    }
}

/// `n` bits make a number below `pow2(n)`.
pub proof fn lemma_bits_bound(data: Seq<u8>, pos: int, n: nat)
    ensures
        bits_value(data, pos, n) < pow2(n),
    decreases n,
{
    if n == 0 {
        lemma2_to64();
    } else {
        lemma_bits_bound(data, pos, (n - 1) as nat);
        lemma_pow2_unfold(n);
        let b = data[(pos + n - 1) / 8] >> ((7 - (pos + n - 1) % 8) as u8);
        assert(b & 1 <= 1) by (bit_vector);
    }
}

/// The first `j` bits of a byte are the byte without the others.
proof fn lemma_byte_front(data: Seq<u8>, k: int, j: nat)
    requires
        0 <= k < data.len(),
        j <= 8,
    ensures
        bits_value(data, 8 * k, j) == data[k] as int / pow2((8 - j) as nat) as int,
    decreases j,
{
    let b = data[k];
    lemma2_to64();
    if j == 0 {
        vstd::arithmetic::div_mod::lemma_basic_div(b as int, pow2(8) as int);
    } else {
        lemma_byte_front(data, k, (j - 1) as nat);
        let s = (8 - j) as u8;
        assert((8 * k + j - 1) / 8 == k);
        assert((8 * k + j - 1) % 8 == j - 1);
        lemma_pow2_unfold((9 - j) as nat);
        lemma_pow2_pos((8 - j) as nat);
        lemma_u8_shr_is_div(b, s);
        let q = b >> s;
        assert(q & 1 == q % 2) by (bit_vector);
        let p = pow2((8 - j) as nat) as int;
        assert(b as int / (2 * p) == (b as int / p) / 2) by {
            vstd::arithmetic::div_mod::lemma_div_denominator(b as int, p, 2);
            assert(2 * p == p * 2);
        }
        assert((8 - (j - 1)) as nat == (9 - j) as nat);
        assert(bits_value(data, 8 * k, (j - 1) as nat) == q as int / 2);
        assert(bit(data, 8 * k + j - 1) == q as int % 2);
        assert(bits_value(data, 8 * k, j) == 2 * bits_value(data, 8 * k, (j - 1) as nat) + bit(
            data,
            8 * k + j - 1,
        ));
    }
}

/// Some bits inside a byte.
pub proof fn lemma_byte_middle(data: Seq<u8>, k: int, off: nat, take: nat)
    requires
        0 <= k < data.len(),
        off + take <= 8,
    ensures
        bits_value(data, 8 * k + off, take) == (data[k] as int / pow2((8 - off - take) as nat) as int)
            % (pow2(take) as int),
{
    lemma_byte_front(data, k, off);
    lemma_byte_front(data, k, off + take);
    lemma_bits_split(data, 8 * k, off, take);
    lemma_bits_bound(data, 8 * k + off, take);
    lemma_pow2_pos(take);
    lemma_fundamental_div_mod_converse(
        bits_value(data, 8 * k, off + take) as int,
        pow2(take) as int,
        bits_value(data, 8 * k, off) as int,
        bits_value(data, 8 * k + off, take) as int,
    );
}

/// Reads the bits of a FLAC file and keeps the checksums of the bytes taken
/// since the start of the frame.
pub struct BitReader {
    data: Vec<u8>,
    byte: usize,
    off: u32,
    fcrc8: u8,
    fcrc16: u16,
    start: Ghost<int>,
    tables: CrcTables,
}

impl BitReader {
    /// Where the reader is.
    pub closed spec fn bits(&self) -> Bits {
        Bits { data: self.data@, pos: (8 * self.byte + self.off) as nat }
    }

    /// The byte at which the frame starts.
    pub closed spec fn frame_start(&self) -> int {
        self.start@
    }

    /// The position lies inside the data, and the checksums are those of the
    /// bytes from the start of the frame.
    pub closed spec fn inv(&self) -> bool {
        &&& self.tables.inv()
        &&& self.off < 8
        &&& self.byte <= self.data.len()
        &&& self.byte == self.data@.len() ==> self.off == 0
        &&& 0 <= self.start@ <= self.byte
        &&& self.fcrc8 == crc8_of(self.data@.subrange(self.start@, self.byte as int))
        &&& self.fcrc16 == crc16_of(self.data@.subrange(self.start@, self.byte as int))
    }

    /// A reader at byte `pos`, or at the end where that lies behind it.
    pub fn new(data: Vec<u8>, pos: u64) -> (r: Self)
        ensures
            r.inv(),
            r.bits() == (Bits { data: data@, pos: 8 * byte_position(data@, pos) }),
            r.frame_start() == byte_position(data@, pos),
    {
        let byte: usize = if pos < data.len() as u64 {
            pos as usize
        } else {
            data.len()
        };
        assert(data@.subrange(byte as int, byte as int) =~= Seq::empty());
        BitReader {
            data,
            byte,
            off: 0,
            fcrc8: 0,
            fcrc16: 0,
            start: Ghost(byte as int),
            tables: CrcTables::new(),
        }
    }

    /// The number of bytes.
    pub fn len(&self) -> (n: usize)
        ensures
            n == self.bits().data.len(),
    {
        self.data.len()
    }

    /// Moves to byte `pos`, or to the end where that lies behind it.
    pub fn reset_to(&mut self, pos: u64)
        requires
            old(self).inv(),
        ensures
            final(self).inv(),
            final(self).bits() == (Bits {
                pos: 8 * byte_position(old(self).bits().data, pos),
                ..old(self).bits()
            }),
            final(self).frame_start() == byte_position(old(self).bits().data, pos),
    {
        self.byte = if pos < self.data.len() as u64 {
            pos as usize
        } else {
            self.data.len()
        };
        self.off = 0;
        self.start_frame();
    }

    /// Starts a frame: the checksums begin with the byte that comes next.
    pub fn start_frame(&mut self)
        requires
            old(self).inv_place(),
        ensures
            final(self).inv(),
            final(self).bits() == old(self).bits(),
            final(self).frame_start() == old(self).bits().whole_bytes(),
    {
        self.fcrc8 = 0;
        self.fcrc16 = 0;
        self.start = Ghost(self.byte as int);
        assert(self.data@.subrange(self.byte as int, self.byte as int) =~= Seq::empty());
    }

    /// The position lies inside the data.
    pub closed spec fn inv_place(&self) -> bool {
        &&& self.tables.inv()
        &&& self.off < 8
        &&& self.byte <= self.data.len()
        &&& self.byte == self.data@.len() ==> self.off == 0
    }

    /// Every reader is inside its data.
    pub proof fn lemma_inv_place(&self)
        requires
            self.inv(),
        ensures
            self.inv_place(),
    {
    }

    /// The first checksum.
    pub fn crc8(&self) -> (c: u8)
        requires
            self.inv(),
        ensures
            c == crc8_of(
                self.bits().data.subrange(self.frame_start(), self.bits().whole_bytes()),
            ),
    {
        self.fcrc8
    }

    /// The second checksum.
    pub fn crc16(&self) -> (c: u16)
        requires
            self.inv(),
        ensures
            c == crc16_of(
                self.bits().data.subrange(self.frame_start(), self.bits().whole_bytes()),
            ),
    {
        self.fcrc16
    }

    /// Takes `take` bits of the current byte.
    fn consume(&mut self, take: u32)
        requires
            old(self).inv(),
            old(self).byte < old(self).data@.len(),
            old(self).off + take <= 8,
        ensures
            final(self).inv(),
            final(self).data == old(self).data,
            final(self).start == old(self).start,
            8 * final(self).byte + final(self).off == 8 * old(self).byte + old(self).off + take,
    {
        let off: u32 = self.off + take;
        if off == 8 {
            let b: u8 = self.data[self.byte];
            self.fcrc8 = self.tables.crc8_update(self.fcrc8, b);
            self.fcrc16 = self.tables.crc16_update(self.fcrc16, b);
            self.byte = self.byte + 1;
            self.off = 0;
            proof {
                let taken = self.data@.subrange(self.start@, self.byte as int);
                assert(taken.drop_last() =~= self.data@.subrange(self.start@, self.byte - 1));
            }
        } else {
            self.off = off;
        }
    }

    /// Reads up to 64 bits.
    pub fn read_bits64(&mut self, n: u32) -> (r: Result<u64, DecodeError>)
        requires
            old(self).inv(),
            n <= 64,
        ensures
            final(self).inv(),
            final(self).frame_start() == old(self).frame_start(),
            match old(self).bits().read(n as nat) {
                (Ok(v), rest) => r matches Ok(w) && w == v && final(self).bits() == rest && v < pow2(
                    n as nat,
                ),
                (Err(f), rest) => r matches Err(e) && e@ == f && final(self).bits() == rest,
            },
    {
        let ghost from = self.bits();
        let room: usize = self.data.len() - self.byte;
        if n > 0 && (room < 9 && (room as u32) * 8 - self.off < n) {
            return Err(DecodeError::decode("帧中途到达文件尾（截断）"));
        }
        let mut v: u64 = 0;
        let mut left: u32 = n;
        proof {
            lemma2_to64();
            lemma2_to64_rest();
        }
        while left > 0
            invariant
                self.inv(),
                left <= n <= 64,
                self.data@ == from.data,
                self.start == old(self).start,
                n > 0 ==> from.pos + n <= 8 * from.data.len(),
                8 * self.byte + self.off == from.pos + (n - left),
                v == bits_value(from.data, from.pos as int, (n - left) as nat),
                v < pow2((n - left) as nat),
            decreases left,
        {
            let free: u32 = 8 - self.off;
            let take: u32 = if left < free {
                left
            } else {
                free
            };
            let ghost done = (n - left) as nat;
            proof {
                lemma_byte_middle(from.data, self.byte as int, self.off as nat, take as nat);
                lemma_bits_split(from.data, from.pos as int, done, take as nat);
                lemma_bits_bound(from.data, from.pos as int, done + take as nat);
                lemma_u8_shr_is_div(
                    self.data@[self.byte as int],
                    (8 - self.off - take) as u8,
                );
                lemma2_to64();
                if take < 8 {
                    lemma_pow2_strictly_increases(take as nat, 8);
                }
                lemma_u64_shl_is_mul(1, take as u64);
                if done + take < 64 {
                    lemma_pow2_strictly_increases((done + take) as nat, 64);
                }
            }
            let scale: u64 = 1u64 << take;
            let part: u64 = (self.data[self.byte] >> ((8 - self.off - take) as u8)) as u64 % scale;
            proof {
                lemma2_to64_rest();
                assert(v * scale + part == bits_value(
                    from.data,
                    from.pos as int,
                    done + take as nat,
                ));
            }
            v = v * scale + part;
            self.consume(take);
            left = left - take;
        }
        Ok(v)
    }

    /// Reads up to 32 bits.
    pub fn read_bits(&mut self, n: u32) -> (r: Result<u32, DecodeError>)
        requires
            old(self).inv(),
            n <= 32,
        ensures
            final(self).inv(),
            final(self).frame_start() == old(self).frame_start(),
            match old(self).bits().read(n as nat) {
                (Ok(v), rest) => r matches Ok(w) && w == v && final(self).bits() == rest && v < pow2(
                    n as nat,
                ),
                (Err(f), rest) => r matches Err(e) && e@ == f && final(self).bits() == rest,
            },
    {
        match self.read_bits64(n) {
            Ok(v) => {
                proof {
                    lemma2_to64();
                    if n < 32 {
                        lemma_pow2_strictly_increases(n as nat, 32);
                    }
                }
                Ok(v as u32)
            },
            Err(e) => Err(e),
        }
    }
}

impl BitReader {
    /// Reads up to 63 bits in two's complement.
    pub fn read_signed(&mut self, n: u32) -> (r: Result<i64, DecodeError>)
        requires
            old(self).inv(),
            n <= 63,
        ensures
            final(self).inv(),
            final(self).frame_start() == old(self).frame_start(),
            match old(self).bits().read_signed(n as nat) {
                (Ok(v), rest) => r matches Ok(w) && w == v && final(self).bits() == rest,
                (Err(f), rest) => r matches Err(e) && e@ == f && final(self).bits() == rest,
            },
    {
        match self.read_bits64(n) {
            Ok(v) => {
                if n == 0 {
                    proof {
                        lemma2_to64();
                    }
                    return Ok(0);
                }
                proof {
                    lemma2_to64_rest();
                    lemma_pow2_unfold(n as nat);
                    if n < 63 {
                        lemma_pow2_strictly_increases(n as nat, 63);
                    }
                    lemma_pow2_unfold(63);
                    lemma_pow2_strictly_increases(n as nat, 64);
                    lemma_u64_shl_is_mul(1, n as u64);
                    lemma_u64_shl_is_mul(1, (n - 1) as u64);
                }
                if v >= (1u64 << (n - 1)) {
                    let below: u64 = (1u64 << n) - v;
                    Ok(-(below as i64))
                } else {
                    Ok(v as i64)
                }
            },
            Err(e) => Err(e),
        }
    }

    /// Reads a run of zeros and the one that ends it.
    pub fn read_unary(&mut self) -> (r: Result<u32, DecodeError>)
        requires
            old(self).inv(),
        ensures
            final(self).inv(),
            final(self).frame_start() == old(self).frame_start(),
            match old(self).bits().unary(0) {
                (Ok(q), rest) => r matches Ok(w) && w == q && w <= MAX_UNARY && final(self).bits()
                    == rest,
                (Err(f), rest) => r matches Err(e) && e@ == f && final(self).bits() == rest,
            },
    {
        let mut q: u32 = 0;
        loop
            invariant
                self.inv(),
                self.frame_start() == old(self).frame_start(),
                q <= MAX_UNARY,
                old(self).bits().unary(0) == self.bits().unary(q as nat),
            decreases MAX_UNARY + 1 - q,
        {
            match self.read_bits(1) {
                Ok(b) => {
                    if b == 1 {
                        return Ok(q);
                    }
                    if q >= MAX_UNARY {
                        return Err(DecodeError::decode("一元编码超长（流损坏）"));
                    }
                    q = q + 1;
                },
                Err(e) => {
                    return Err(e);
                },
            }
        }
    }

    /// Drops the bits up to the next byte.
    pub fn align_byte(&mut self)
        requires
            old(self).inv(),
        ensures
            final(self).inv(),
            final(self).frame_start() == old(self).frame_start(),
            final(self).bits() == old(self).bits().align(),
    {
        if self.off > 0 {
            let rest: u32 = 8 - self.off;
            self.consume(rest);
        }
    }
}

/// A byte position, at most the end of the data.
pub open spec fn byte_position(data: Seq<u8>, pos: u64) -> nat {
    if pos < data.len() {
        pos as nat
    } else {
        data.len()
    }
}

} // verus!
