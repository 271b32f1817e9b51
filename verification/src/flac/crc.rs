//! The two checksums of a FLAC frame.

use vstd::prelude::*;

verus! {

/// One bit of the division by x^8 + x^2 + x + 1.
pub open spec fn crc8_bit(v: u8) -> u8 {
    if v & 0x80 != 0 {
        (v << 1) ^ 0x07
    } else {
        v << 1
    }
}

/// Eight bits of it.
pub open spec fn crc8_bits(v: u8) -> u8 {
    crc8_bit(crc8_bit(crc8_bit(crc8_bit(crc8_bit(crc8_bit(crc8_bit(crc8_bit(v))))))))
}

/// The checksum after one more byte.
pub open spec fn crc8_next(crc: u8, byte: u8) -> u8 {
    crc8_bits(crc ^ byte)
}

/// The checksum of bytes.
pub open spec fn crc8_of(bytes: Seq<u8>) -> u8
    decreases bytes.len(),
{
    if bytes.len() == 0 {
        0
    } else {
        crc8_next(crc8_of(bytes.drop_last()), bytes.last())
    }
}

/// One bit of the division by x^16 + x^15 + x^2 + 1.
pub open spec fn crc16_bit(v: u16) -> u16 {
    if v & 0x8000 != 0 {
        (v << 1) ^ 0x8005
    } else {
        v << 1
    }
}

/// Eight bits of it.
pub open spec fn crc16_bits(v: u16) -> u16 {
    crc16_bit(crc16_bit(crc16_bit(crc16_bit(crc16_bit(crc16_bit(crc16_bit(crc16_bit(v))))))))
}

/// The checksum after one more byte.
pub open spec fn crc16_next(crc: u16, byte: u8) -> u16 {
    crc16_bits(crc ^ ((byte as u16) << 8))
}

/// The checksum of bytes.
pub open spec fn crc16_of(bytes: Seq<u8>) -> u16
    decreases bytes.len(),
{
    if bytes.len() == 0 {
        0
    } else {
        crc16_next(crc16_of(bytes.drop_last()), bytes.last())
    }
}

/// The division byte by byte: what it does to the high byte can be looked up.
proof fn lemma_crc16_table(crc: u16, byte: u8)
    ensures
        crc16_bits((((crc >> 8) ^ (byte as u16)) & 0xFF) << 8) ^ (crc << 8) == crc16_next(crc, byte),
{
    assert(crc16_bits((((crc >> 8) ^ (byte as u16)) & 0xFF) << 8) ^ (crc << 8) == crc16_bits(
        crc ^ ((byte as u16) << 8),
    )) by (bit_vector);
}

fn crc8_shift(v: u8) -> (r: u8)
    ensures
        r == crc8_bit(v),
{
    if v & 0x80 != 0 {
        (v << 1) ^ 0x07
    } else {
        v << 1
    }
}

fn crc16_shift(v: u16) -> (r: u16)
    ensures
        r == crc16_bit(v),
{
    if v & 0x8000 != 0 {
        (v << 1) ^ 0x8005
    } else {
        v << 1
    }
}

/// The checksum of every single byte, for the first checksum.
pub fn make_crc8_table() -> (t: [u8; 256])
    ensures
        forall|i: int| 0 <= i < 256 ==> t@[i] == crc8_bits(i as u8),
{
    let mut t: [u8; 256] = [0;256];
    let mut i: usize = 0;
    while i < 256
        invariant
            i <= 256,
            forall|j: int| 0 <= j < i ==> t@[j] == crc8_bits(j as u8),
        decreases 256 - i,
    {
        let a: u8 = crc8_shift(crc8_shift(crc8_shift(crc8_shift(i as u8))));
        t[i] = crc8_shift(crc8_shift(crc8_shift(crc8_shift(a))));
        i = i + 1;
    }
    t
}

/// The checksum of every single byte, for the second checksum.
pub fn make_crc16_table() -> (t: [u16; 256])
    ensures
        forall|i: int| 0 <= i < 256 ==> t@[i] == crc16_bits((i as u16) << 8),
{
    let mut t: [u16; 256] = [0;256];
    let mut i: usize = 0;
    while i < 256
        invariant
            i <= 256,
            forall|j: int| 0 <= j < i ==> t@[j] == crc16_bits((j as u16) << 8),
        decreases 256 - i,
    {
        let a: u16 = crc16_shift(crc16_shift(crc16_shift(crc16_shift((i as u16) << 8))));
        t[i] = crc16_shift(crc16_shift(crc16_shift(crc16_shift(a))));
        i = i + 1;
    }
    t
}

/// The checksums of all single bytes.
pub struct CrcTables {
    t8: [u8; 256],
    t16: [u16; 256],
}

impl CrcTables {
    /// The tables hold what they should.
    pub closed spec fn inv(&self) -> bool {
        &&& forall|i: int| 0 <= i < 256 ==> self.t8@[i] == crc8_bits(i as u8)
        &&& forall|i: int| 0 <= i < 256 ==> self.t16@[i] == crc16_bits((i as u16) << 8)
    }

    /// Builds the tables.
    pub fn new() -> (t: Self)
        ensures
            t.inv(),
    {
        CrcTables { t8: make_crc8_table(), t16: make_crc16_table() }
    }

    /// Takes one byte into the first checksum.
    pub fn crc8_update(&self, crc: u8, byte: u8) -> (r: u8)
        requires
            self.inv(),
        ensures
            r == crc8_next(crc, byte),
    {
        self.t8[(crc ^ byte) as usize]
    }

    /// Takes one byte into the second checksum.
    pub fn crc16_update(&self, crc: u16, byte: u8) -> (r: u16)
        requires
            self.inv(),
        ensures
            r == crc16_next(crc, byte),
    {
        let at: u16 = ((crc >> 8) ^ (byte as u16)) & 0xFF;
        proof {
            lemma_crc16_table(crc, byte);
            assert(((crc >> 8) ^ (byte as u16)) & 0xFF < 256) by (bit_vector);
        }
        self.t16[at as usize] ^ (crc << 8)
    }
}

/// Appending the checksum to bytes makes their checksum zero.
pub proof fn law_crc8_closes(bytes: Seq<u8>)
    ensures
        crc8_of(bytes.push(crc8_of(bytes))) == 0,
{
    let c = crc8_of(bytes);
    assert(bytes.push(c).drop_last() =~= bytes);
    assert(crc8_bits(c ^ c) == 0) by (bit_vector);
}

/// Appending the second checksum to bytes, its high byte first, makes their
/// checksum zero.
pub proof fn law_crc16_closes(bytes: Seq<u8>)
    ensures
        crc16_of(
            bytes.push((crc16_of(bytes) >> 8) as u8).push((crc16_of(bytes) & 0xFF) as u8),
        ) == 0,
{
    let c = crc16_of(bytes);
    let hi = (c >> 8) as u8;
    let lo = (c & 0xFF) as u8;
    assert(bytes.push(hi).drop_last() =~= bytes);
    assert(bytes.push(hi).push(lo).drop_last() =~= bytes.push(hi));
    let low = c & 0xFF;
    assert(c ^ ((((c >> 8) as u8) as u16) << 8) == c & 0xFF) by (bit_vector);
    assert(low < 256) by (bit_vector)
        requires
            low == c & 0xFF,
    ;
    assert(crc16_bits(low) == low << 8) by (bit_vector)
        requires
            low < 256,
    ;
    assert((((c & 0xFF) as u8) as u16) == c & 0xFF && (low << 8) ^ (low << 8) == 0) by (bit_vector);
    assert(crc16_bits(0) == 0) by (bit_vector);
    assert(crc16_of(bytes.push(hi)) == crc16_next(c, hi));
    assert(crc16_next(c, hi) == low << 8);
    assert(crc16_next(low << 8, lo) == 0);
}

} // verus!
