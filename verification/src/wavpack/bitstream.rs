//! The bit stream of a WavPack block: bits are taken from each byte least
//! significant first, and zero bits follow the last byte.

use vstd::arithmetic::div_mod::lemma_fundamental_div_mod_converse;
use vstd::arithmetic::power2::{
    lemma2_to64, lemma2_to64_rest, lemma_pow2_adds, lemma_pow2_pos, lemma_pow2_strictly_increases,
    lemma_pow2_unfold, pow2,
};
use vstd::bits::{lemma_u64_pow2_no_overflow, lemma_u64_shl_is_mul, lemma_u64_shr_is_div};
use vstd::prelude::*;

verus! {

/// Bit `i` of the stream held by `buf`; zero behind its end.
pub open spec fn bit(buf: Seq<u8>, i: int) -> nat {
    if 0 <= i && i / 8 < buf.len() {
        ((buf[i / 8] >> ((i % 8) as u8)) & 1) as nat
    } else {
        0
    }
}

/// The number whose binary digits, lowest first, are the `n` bits from `pos`.
pub open spec fn bits_value(buf: Seq<u8>, pos: int, n: nat) -> nat
    decreases n,
{
    if n == 0 {
        0
    } else {
        bit(buf, pos) + 2 * bits_value(buf, pos + 1, (n - 1) as nat)
    }
}

/// The number of bytes that hold the first `n` bits.
pub open spec fn bytes_for(n: nat) -> nat {
    (n + 7) / 8
}

/// The number of binary digits of `x`.
pub open spec fn bit_length(x: nat) -> nat
    decreases x,
{
    if x == 0 {
        0
    } else {
        1 + bit_length(x / 2)
    }
}

/// A place in a bit stream: the bits already taken and the bytes already
/// fetched for them, counting the zero bytes made up behind the end.
pub struct Cursor {
    /// The bytes of the stream.
    pub buf: Seq<u8>,
    /// The number of bits taken.
    pub pos: nat,
    /// The number of bytes fetched.
    pub loaded: nat,
}

impl Cursor {
    /// The start of a stream.
    pub open spec fn start(buf: Seq<u8>) -> Cursor {
        Cursor { buf, pos: 0, loaded: 0 }
    }

    /// Whether a byte behind the end was fetched.
    pub open spec fn exhausted(self) -> bool {
        self.loaded > self.buf.len()
    }

    /// The cursor after the bytes that hold the next `n` bits are fetched.
    pub open spec fn prefetch(self, n: nat) -> Cursor {
        let need = bytes_for(self.pos + n);
        Cursor { loaded: if self.loaded < need { need } else { self.loaded }, ..self }
    }

    /// The cursor after the next `n` bits are taken.
    pub open spec fn advance(self, n: nat) -> Cursor {
        Cursor { pos: self.pos + n, ..self.prefetch(n) }
    }

    /// The value of the next `n` bits.
    pub open spec fn value(self, n: nat) -> nat {
        bits_value(self.buf, self.pos as int, n)
    }

    /// The next bit.
    pub open spec fn head(self) -> nat {
        bit(self.buf, self.pos as int)
    }

    /// A run of one bits, at most `max` of them, and the zero that ends a
    /// shorter run: its length, and the cursor behind it.
    pub open spec fn ones(self, max: nat) -> (nat, Cursor)
        decreases max,
    {
        if max == 0 {
            (0, self)
        } else if self.head() == 0 {
            (0, self.advance(1))
        } else {
            let (n, rest) = self.advance(1).ones((max - 1) as nat);
            (n + 1, rest)
        }
    }

    /// A truncated binary code for a number from 0 to `maxcode`. A code of
    /// full length is fetched before its length is known.
    pub open spec fn code(self, maxcode: nat) -> (nat, Cursor) {
        if maxcode == 0 {
            (0, self)
        } else if maxcode == 1 {
            (self.head(), self.advance(1))
        } else {
            let bitcount = bit_length(maxcode);
            let extras = pow2(bitcount) - maxcode - 1;
            let short = self.value((bitcount - 1) as nat);
            if short < extras {
                (short, self.prefetch(bitcount).advance((bitcount - 1) as nat))
            } else {
                (
                    (2 * short - extras + bit(self.buf, self.pos + bitcount - 1)) as nat,
                    self.advance(bitcount),
                )
            }
        }
    }

    /// A count in the Elias gamma style: a run of `k` ones, then for `k` of two
    /// or more the low `k - 1` bits of a number of `k` digits. A run of 33 is
    /// the end of the stream.
    pub open spec fn gamma(self) -> (Option<nat>, Cursor) {
        let (k, rest) = self.ones(33);
        if k == 33 {
            (None, rest)
        } else if k < 2 {
            (Some(k), rest)
        } else {
            (
                Some(rest.value((k - 1) as nat) + pow2((k - 1) as nat)),
                rest.advance((k - 1) as nat),
            )
        }
    }

    /// A unary count; a run of `limit` ones is continued by a gamma count, and
    /// a longer one is the end of the stream. The sum wraps at 32 bits.
    pub open spec fn ones_count(self, limit: nat) -> (Option<u32>, Cursor) {
        let (n, rest) = self.ones(limit + 1);
        if n == limit + 1 {
            (None, rest)
        } else if n == limit {
            match rest.gamma() {
                (None, end) => (None, end),
                (Some(d), end) => (Some((d as u32).wrapping_add(limit as u32)), end),
            }
        } else {
            (Some(n as u32), rest)
        }
    }
}

/// A number of `b` digits lies between two powers of two.
pub proof fn lemma_bit_length(x: nat)
    ensures
        x < pow2(bit_length(x)),
        x > 0 ==> bit_length(x) > 0 && pow2((bit_length(x) - 1) as nat) <= x,
    decreases x,
{
    if x == 0 {
        lemma_pow2_pos(0);
    } else {
        lemma_bit_length(x / 2);
        lemma_pow2_unfold(bit_length(x));
        if x == 1 {
            assert(bit_length(0) == 0);
            lemma2_to64();
        } else {
            lemma_pow2_unfold(bit_length(x / 2));
        }
    }
}

/// A number below `pow2(b)` has at most `b` digits.
pub proof fn lemma_bit_length_bound(x: nat, b: nat)
    requires
        x < pow2(b),
    ensures
        bit_length(x) <= b,
    decreases x,
{
    if x > 0 {
        if b == 0 {
            lemma2_to64();
        } else {
            lemma_pow2_unfold(b);
            lemma_bit_length_bound(x / 2, (b - 1) as nat);
        }
    }
}

/// The value of `a + b` bits is that of the first `a` and, above them, that of
/// the next `b`.
pub proof fn lemma_bits_split(buf: Seq<u8>, pos: int, a: nat, b: nat)
    ensures
        bits_value(buf, pos, a + b) == bits_value(buf, pos, a) + pow2(a) * bits_value(
            buf,
            pos + a,
            b,
        ),
    decreases a,
{
    if a == 0 {
        lemma2_to64();
        assert(pow2(0) * bits_value(buf, pos + 0, b) == bits_value(buf, pos, b)) by {
            assert(pow2(0) == 1);
        }
    } else {
        lemma_bits_split(buf, pos + 1, (a - 1) as nat, b);
        lemma_pow2_unfold(a);
        let x = bits_value(buf, pos + a, b);
        assert(pos + 1 + (a - 1) == pos + a);
        assert(2 * (pow2((a - 1) as nat) * x) == pow2(a) * x) by (nonlinear_arith)
            requires
                pow2(a) == 2 * pow2((a - 1) as nat),
        ;
    }
}

/// `n` bits make a number below `pow2(n)`.
pub proof fn lemma_bits_bound(buf: Seq<u8>, pos: int, n: nat)
    ensures
        bits_value(buf, pos, n) < pow2(n),
    decreases n,
{
    if n == 0 {
        lemma2_to64();
    } else {
        lemma_bits_bound(buf, pos + 1, (n - 1) as nat);
        lemma_pow2_unfold(n);
        lemma_bit_bound(buf, pos);
    }
}

/// A bit is zero or one.
pub proof fn lemma_bit_bound(buf: Seq<u8>, i: int)
    ensures
        bit(buf, i) <= 1,
{
    if 0 <= i && i / 8 < buf.len() {
        let b = buf[i / 8] >> ((i % 8) as u8);
        assert(b & 1 <= 1) by (bit_vector);
    }
}

/// The eight bits of a byte make the byte; behind the end they make zero.
proof fn lemma_byte_value(buf: Seq<u8>, k: int)
    requires
        0 <= k,
    ensures
        bits_value(buf, 8 * k, 8) == (if k < buf.len() { buf[k] as nat } else { 0 }),
{
    let p = 8 * k;
    reveal_with_fuel(bits_value, 9);
    assert(bits_value(buf, p, 8) == bit(buf, p) + 2 * (bit(buf, p + 1) + 2 * (bit(buf, p + 2) + 2
        * (bit(buf, p + 3) + 2 * (bit(buf, p + 4) + 2 * (bit(buf, p + 5) + 2 * (bit(buf, p + 6) + 2
        * bit(buf, p + 7))))))));
    if k < buf.len() {
        let b = buf[k];
        assert(b == (b >> 0 & 1) + 2 * ((b >> 1 & 1) + 2 * ((b >> 2 & 1) + 2 * ((b >> 3 & 1) + 2 * ((
        b >> 4 & 1) + 2 * ((b >> 5 & 1) + 2 * ((b >> 6 & 1) + 2 * (b >> 7 & 1)))))))) by (bit_vector);
    }
}

/// What [`BsReader::fill`] adds: a byte above the bits already held.
proof fn lemma_add_byte(local: u64, bc: u32, byte: u64)
    requires
        bc <= 40,
        byte < 256,
        local < pow2(bc as nat),
    ensures
        local | (byte << bc) == local + pow2(bc as nat) * byte,
        local + pow2(bc as nat) * byte < pow2((bc + 8) as nat),
{
    lemma2_to64();
    lemma2_to64_rest();
    lemma_pow2_adds(bc as nat, 8);
    lemma_u64_pow2_no_overflow(bc as nat);
    assert(pow2(bc as nat) * byte <= pow2(bc as nat) * 255) by (nonlinear_arith)
        requires
            byte < 256,
    ;
    assert(pow2(bc as nat) * 256 == pow2(bc as nat) * 255 + pow2(bc as nat)) by (nonlinear_arith);
    if bc < 40 {
        lemma_pow2_strictly_increases(bc as nat, 40);
    }
    assert(byte * pow2(bc as nat) <= u64::MAX) by (nonlinear_arith)
        requires
            pow2(bc as nat) <= 0x100_0000_0000,
            byte < 256,
    ;
    let bc64 = bc as u64;
    lemma_u64_shl_is_mul(byte, bc64);
    assert(byte << bc == byte << bc64);
    lemma_u64_shl_is_mul(1, bc64);
    assert((1u64 << bc64) == pow2(bc as nat)) by {
        assert(1 * pow2(bc as nat) == pow2(bc as nat));
    }
    assert((local | (byte << bc64)) == local + (byte << bc64)) by (bit_vector)
        requires
            local < (1u64 << bc64),
            bc64 <= 40,
            byte < 256,
    ;
    assert(byte * pow2(bc as nat) == pow2(bc as nat) * byte) by (nonlinear_arith);
    lemma_pow2_strictly_increases((bc + 8) as nat, 64);
}

/// The low `n` bits and the rest of a number made of `bc` bits.
proof fn lemma_take_bits(buf: Seq<u8>, pos: int, local: u64, bc: nat, n: u32)
    requires
        n <= bc <= 63,
        local == bits_value(buf, pos, bc),
    ensures
        local % pow2(n as nat) as u64 == bits_value(buf, pos, n as nat),
        local >> n == bits_value(buf, pos + n, (bc - n) as nat),
        pow2(n as nat) <= u64::MAX,
{
    let m = (bc - n) as nat;
    lemma_bits_split(buf, pos, n as nat, m);
    lemma_bits_bound(buf, pos, n as nat);
    lemma_u64_pow2_no_overflow(n as nat);
    lemma_u64_shr_is_div(local, n as u64);
    assert(local >> n == local >> (n as u64));
    let d = pow2(n as nat) as int;
    let q = bits_value(buf, pos + n, m) as int;
    let r = bits_value(buf, pos, n as nat) as int;
    assert(d * q == q * d) by (nonlinear_arith);
    lemma_fundamental_div_mod_converse(local as int, d, q, r);
}

/// Reads the bits of a block. Bits behind the end of the stream are zero, and
/// taking one of them is remembered in `error`.
pub struct BsReader<'a> {
    buf: &'a [u8],
    next: usize,
    sr: u32,
    bc: u32,
    error: bool,
    loaded: Ghost<nat>,
}

impl<'a> BsReader<'a> {
    /// Where the reader is.
    pub closed spec fn cursor(&self) -> Cursor {
        Cursor {
            buf: self.buf@,
            pos: (8 * self.loaded@ - self.bc) as nat,
            loaded: self.loaded@,
        }
    }

    /// The fields other than the bits held agree.
    closed spec fn shape(&self) -> bool {
        &&& self.bc <= 8 * self.loaded@
        &&& self.bc <= 40
        &&& self.next == (if self.loaded@ < self.buf@.len() {
            self.loaded@
        } else {
            self.buf@.len()
        })
        &&& self.error == (self.loaded@ > self.buf@.len())
    }

    /// The fields agree with each other.
    pub closed spec fn inv(&self) -> bool {
        &&& self.shape()
        &&& self.bc <= 8
        &&& self.sr == self.cursor().value(self.bc as nat)
    }

    /// A reader at the start of `buf`.
    pub fn new(buf: &'a [u8]) -> (r: Self)
        ensures
            r.inv(),
            r.cursor() == Cursor::start(buf@),
    {
        BsReader { buf, next: 0, sr: 0, bc: 0, error: false, loaded: Ghost(0) }
    }

    /// Whether a bit behind the end was fetched.
    pub fn exhausted(&self) -> (b: bool)
        requires
            self.inv(),
        ensures
            b == self.cursor().exhausted(),
    {
        self.error
    }

    /// Fetches the next byte, zero behind the end.
    fn load_byte(&mut self) -> (b: u32)
        requires
            old(self).shape(),
        ensures
            final(self).next == (if old(self).loaded@ + 1 < old(self).buf@.len() {
                old(self).loaded@ + 1
            } else {
                old(self).buf@.len()
            }),
            final(self).loaded@ == old(self).loaded@ + 1,
            final(self).error == (old(self).loaded@ + 1 > old(self).buf@.len()),
            final(self).buf == old(self).buf,
            final(self).bc == old(self).bc,
            final(self).sr == old(self).sr,
            b == bits_value(old(self).buf@, 8 * old(self).loaded@ as int, 8),
            b < 256,
    {
        proof {
            lemma_byte_value(self.buf@, self.loaded@ as int);
        }
        self.loaded = Ghost(self.loaded@ + 1);
        if self.next < self.buf.len() {
            let b: u8 = self.buf[self.next];
            self.next = self.next + 1;
            b as u32
        } else {
            self.error = true;
            0
        }
    }

    /// Fetches bytes until `n` bits are held, and returns all the bits held.
    fn fill(&mut self, n: u32) -> (local: u64)
        requires
            old(self).inv(),
            n <= 32,
        ensures
            final(self).shape(),
            n <= final(self).bc,
            final(self).bc <= 8 || final(self).bc < n + 8,
            final(self).cursor() == old(self).cursor().prefetch(n as nat),
            local == final(self).cursor().value(final(self).bc as nat),
    {
        let ghost start = self.cursor();
        let mut local: u64 = self.sr as u64;
        while self.bc < n
            invariant
                n <= 32,
                start.pos + self.bc == 8 * self.loaded@,
                start.loaded <= self.loaded@,
                self.shape(),
                self.bc <= 8 || self.bc < n + 8,
                self.loaded@ > start.loaded ==> self.bc < n + 8 && self.bc >= 8,
                self.loaded@ > start.loaded ==> start.pos + n > 8 * (self.loaded@ - 1),
                self.buf@ == start.buf,
                self.cursor().pos == start.pos,
                local == bits_value(start.buf, start.pos as int, self.bc as nat),
            decreases n + 8 - self.bc,
        {
            let ghost held = self.bc;
            let ghost before = local;
            let byte: u64 = self.load_byte() as u64;
            proof {
                lemma_bits_bound(start.buf, start.pos as int, held as nat);
                lemma_add_byte(local, held, byte);
                lemma_bits_split(start.buf, start.pos as int, held as nat, 8);
            }
            local = local | (byte << self.bc);
            self.bc = self.bc + 8;
        }
        local
    }

    /// Takes `n` of the bits held.
    fn take(&mut self, local: u64, n: u32)
        requires
            old(self).shape(),
            local == old(self).cursor().value(old(self).bc as nat),
            n <= old(self).bc <= n + 8,
        ensures
            final(self).inv(),
            final(self).cursor() == (Cursor {
                pos: old(self).cursor().pos + n as nat,
                ..old(self).cursor()
            }),
    {
        proof {
            let c = self.cursor();
            lemma_take_bits(c.buf, c.pos as int, local, self.bc as nat, n);
            lemma_bits_bound(c.buf, c.pos + n, (self.bc - n) as nat);
            lemma2_to64();
            if self.bc - n < 8 {
                lemma_pow2_strictly_increases((self.bc - n) as nat, 8);
            }
        }
        self.bc = self.bc - n;
        self.sr = (local >> n) as u32;
    }

    /// Takes one bit.
    pub fn getbit(&mut self) -> (b: u32)
        requires
            old(self).inv(),
        ensures
            final(self).inv(),
            b == old(self).cursor().head(),
            b <= 1,
            final(self).cursor() == old(self).cursor().advance(1),
    {
        let ghost c = self.cursor();
        proof {
            lemma_bit_bound(c.buf, c.pos as int);
            reveal_with_fuel(bits_value, 2);
        }
        let local: u64 = self.fill(1);
        proof {
            lemma_take_bits(c.buf, c.pos as int, local, self.bc as nat, 1);
            lemma2_to64();
        }
        let b: u32 = (local % 2) as u32;
        self.take(local, 1);
        b
    }

    /// Takes `n` bits; the first is the lowest digit of the value.
    pub fn getbits(&mut self, n: u32) -> (v: u32)
        requires
            old(self).inv(),
            n <= 32,
        ensures
            final(self).inv(),
            v == old(self).cursor().value(n as nat),
            v < pow2(n as nat),
            final(self).cursor() == old(self).cursor().advance(n as nat),
    {
        let ghost c = self.cursor();
        let local: u64 = self.fill(n);
        proof {
            lemma_take_bits(c.buf, c.pos as int, local, self.bc as nat, n);
            lemma_bits_bound(c.buf, c.pos as int, n as nat);
            lemma2_to64();
            if n < 32 {
                lemma_pow2_strictly_increases(n as nat, 32);
            }
            lemma_u64_shl_is_mul(1, n as u64);
        }
        let v: u32 = (local % (1u64 << n)) as u32;
        self.take(local, n);
        v
    }

    /// Takes a truncated binary code for a number from 0 to `maxcode`. The
    /// bits taken first are the high ones.
    pub fn read_code(&mut self, maxcode: u32) -> (v: u32)
        requires
            old(self).inv(),
            maxcode <= 0x7FFF_FFFF,
        ensures
            final(self).inv(),
            (v as nat, final(self).cursor()) == old(self).cursor().code(maxcode as nat),
            v <= maxcode,
    {
        let ghost c = self.cursor();
        if maxcode < 2 {
            return if maxcode == 1 {
                self.getbit()
            } else {
                0
            };
        }
        let bitcount: u32 = bit_length_of(maxcode);
        let ghost b = bitcount as nat;
        proof {
            lemma2_to64();
            lemma_bit_length(maxcode as nat);
            lemma_bit_length_bound(maxcode as nat, 31);
            lemma_pow2_unfold(b);
            if b < 31 {
                lemma_pow2_strictly_increases(b, 31);
            }
            if b < 2 {
                assert(b == 1);
                assert(false);
            }
            lemma_u64_shl_is_mul(1, bitcount as u64);
            lemma_u64_shl_is_mul(1, (bitcount - 1) as u64);
        }
        let extras: u32 = ((1u64 << bitcount) - maxcode as u64 - 1) as u32;
        let local: u64 = self.fill(bitcount);
        proof {
            lemma_take_bits(c.buf, c.pos as int, local, self.bc as nat, (bitcount - 1) as u32);
            lemma_bits_bound(c.buf, c.pos as int, (b - 1) as nat);
        }
        let short: u32 = (local % (1u64 << (bitcount - 1))) as u32;
        if short >= extras {
            proof {
                let rest = local >> ((bitcount - 1) as u32);
                lemma_bits_split(c.buf, c.pos + b - 1, 1, (self.bc - b) as nat);
                reveal_with_fuel(bits_value, 2);
                lemma_bit_bound(c.buf, c.pos + b - 1);
                assert(rest % 2 == bit(c.buf, c.pos + b - 1));
            }
            let top: u32 = ((local >> (bitcount - 1)) % 2) as u32;
            let code: u32 = 2 * short - extras + top;
            self.take(local, bitcount);
            code
        } else {
            self.take(local, bitcount - 1);
            short
        }
    }

    /// Takes a run of one bits, at most `max` of them, and the zero that ends
    /// a shorter run.
    fn read_run(&mut self, max: u32) -> (n: u32)
        requires
            old(self).inv(),
        ensures
            final(self).inv(),
            (n as nat, final(self).cursor()) == old(self).cursor().ones(max as nat),
            n <= max,
    {
        let ghost c = self.cursor();
        let mut n: u32 = 0;
        while n < max
            invariant_except_break
                c.ones(max as nat).0 == n + self.cursor().ones((max - n) as nat).0,
                c.ones(max as nat).1 == self.cursor().ones((max - n) as nat).1,
            invariant
                self.inv(),
                n <= max,
            ensures
                (n as nat, self.cursor()) == c.ones(max as nat),
            decreases max - n,
        {
            let b: u32 = self.getbit();
            if b == 0 {
                break;
            }
            n = n + 1;
        }
        n
    }

    /// Takes a count in the Elias gamma style; `None` at the end of the stream.
    pub fn read_egc_count(&mut self) -> (r: Option<u32>)
        requires
            old(self).inv(),
        ensures
            final(self).inv(),
            old(self).cursor().gamma() == (
                match r {
                    Some(v) => Some(v as nat),
                    None => None,
                },
                final(self).cursor(),
            ),
    {
        let cbits: u32 = self.read_run(33);
        if cbits == 33 {
            return None;
        }
        if cbits < 2 {
            return Some(cbits);
        }
        let ghost c = self.cursor();
        proof {
            lemma2_to64();
            if cbits < 32 {
                lemma_pow2_strictly_increases(cbits as nat, 32);
            }
            lemma_pow2_unfold(cbits as nat);
            lemma_u64_shl_is_mul(1, (cbits - 1) as u64);
        }
        let low: u32 = self.getbits(cbits - 1);
        let high: u32 = (1u64 << (cbits - 1)) as u32;
        Some(low + high)
    }

    /// Takes a unary count; a run of `limit` ones is continued by a gamma
    /// count, a longer one is the end of the stream.
    pub fn read_ones_count(&mut self, limit: u32) -> (r: Option<u32>)
        requires
            old(self).inv(),
            limit < u32::MAX,
        ensures
            final(self).inv(),
            (r, final(self).cursor()) == old(self).cursor().ones_count(limit as nat),
    {
        let n: u32 = self.read_run(limit + 1);
        if n == limit + 1 {
            return None;
        }
        if n == limit {
            return match self.read_egc_count() {
                None => None,
                Some(d) => Some(d.wrapping_add(limit)),
            };
        }
        Some(n)
    }
}

/// The number of binary digits of `x`.
pub fn bit_length_of(x: u32) -> (n: u32)
    ensures
        n == bit_length(x as nat),
        n <= 32,
{
    let mut rest: u32 = x;
    let mut n: u32 = 0;
    proof {
        lemma2_to64();
        lemma_bit_length_bound(x as nat, 32);
    }
    while rest > 0
        invariant
            bit_length(x as nat) == n + bit_length(rest as nat),
            bit_length(x as nat) <= 32,
        decreases rest,
    {
        rest = rest / 2;
        n = n + 1;
    }
    n
}

/// A truncated binary code never exceeds the largest number it was made for.
pub proof fn law_code_within_range(c: Cursor, maxcode: nat)
    ensures
        c.code(maxcode).0 <= maxcode,
{
    lemma_bit_bound(c.buf, c.pos as int);
    if maxcode >= 2 {
        let b = bit_length(maxcode);
        lemma_bit_length(maxcode);
        lemma_pow2_unfold(b);
        lemma_bits_bound(c.buf, c.pos as int, (b - 1) as nat);
        lemma_bit_bound(c.buf, c.pos + b - 1);
    }
}

} // verus!
