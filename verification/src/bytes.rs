//! Integers stored as bytes.

use vstd::prelude::*;

verus! {

/// The 16-bit little-endian integer at `i`.
pub open spec fn le16(b: Seq<u8>, i: int) -> nat {
    b[i] as nat + 0x100 * b[i + 1] as nat
}

/// The 24-bit little-endian integer at `i`.
pub open spec fn le24(b: Seq<u8>, i: int) -> nat {
    le16(b, i) + 0x1_0000 * b[i + 2] as nat
}

/// The 32-bit little-endian integer at `i`.
pub open spec fn le32(b: Seq<u8>, i: int) -> nat {
    le24(b, i) + 0x100_0000 * b[i + 3] as nat
}

/// The 64-bit little-endian integer at `i`.
pub open spec fn le64(b: Seq<u8>, i: int) -> nat {
    le32(b, i) + 0x1_0000_0000 * le32(b, i + 4)
}

/// Reads a 16-bit little-endian integer.
pub fn read_le16(b: &[u8], i: usize) -> (v: u16)
    requires
        i + 2 <= b.len(),
    ensures
        v == le16(b@, i as int),
{
    b[i] as u16 + 0x100 * b[i + 1] as u16
}

/// Reads a 24-bit little-endian integer.
pub fn read_le24(b: &[u8], i: usize) -> (v: u32)
    requires
        i + 3 <= b.len(),
    ensures
        v == le24(b@, i as int),
{
    read_le16(b, i) as u32 + 0x1_0000 * b[i + 2] as u32
}

/// Reads a 32-bit little-endian integer.
pub fn read_le32(b: &[u8], i: usize) -> (v: u32)
    requires
        i + 4 <= b.len(),
    ensures
        v == le32(b@, i as int),
{
    read_le24(b, i) + 0x100_0000 * b[i + 3] as u32
}

/// Reads a 64-bit little-endian integer.
pub fn read_le64(b: &[u8], i: usize) -> (v: u64)
    requires
        i + 8 <= b.len(),
    ensures
        v == le64(b@, i as int),
{
    read_le32(b, i) as u64 + 0x1_0000_0000 * read_le32(b, i + 4) as u64
}

/// The 16-bit big-endian integer at `i`.
pub open spec fn be16(b: Seq<u8>, i: int) -> nat {
    0x100 * b[i] as nat + b[i + 1] as nat
}

/// The 24-bit big-endian integer at `i`.
pub open spec fn be24(b: Seq<u8>, i: int) -> nat {
    0x100 * be16(b, i) + b[i + 2] as nat
}

/// The 32-bit big-endian integer at `i`.
pub open spec fn be32(b: Seq<u8>, i: int) -> nat {
    0x100 * be24(b, i) + b[i + 3] as nat
}

/// The 64-bit big-endian integer at `i`.
pub open spec fn be64(b: Seq<u8>, i: int) -> nat {
    0x1_0000_0000 * be32(b, i) + be32(b, i + 4)
}

/// Reads a 24-bit big-endian integer.
pub fn read_be24(b: &[u8], i: usize) -> (v: u32)
    requires
        i + 3 <= b.len(),
    ensures
        v == be24(b@, i as int),
        v < 0x100_0000,
{
    0x1_0000 * b[i] as u32 + 0x100 * b[i + 1] as u32 + b[i + 2] as u32
}

/// Reads a 32-bit big-endian integer.
pub fn read_be32(b: &[u8], i: usize) -> (v: u32)
    requires
        i + 4 <= b.len(),
    ensures
        v == be32(b@, i as int),
{
    0x100 * read_be24(b, i) + b[i + 3] as u32
}

/// Reads a 64-bit big-endian integer.
pub fn read_be64(b: &[u8], i: usize) -> (v: u64)
    requires
        i + 8 <= b.len(),
    ensures
        v == be64(b@, i as int),
{
    0x1_0000_0000 * read_be32(b, i) as u64 + read_be32(b, i + 4) as u64
}

/// Whether the bytes from `i` on begin with `pat`.
pub open spec fn has_at(b: Seq<u8>, i: int, pat: Seq<u8>) -> bool {
    &&& 0 <= i
    &&& i + pat.len() <= b.len()
    &&& b.subrange(i, i + pat.len()) == pat
}

/// Tests for a pattern at `i`.
pub fn matches_at(b: &[u8], i: usize, pat: &[u8]) -> (r: bool)
    ensures
        r == has_at(b@, i as int, pat@),
{
    if i > b.len() || pat.len() > b.len() - i {
        return false;
    }
    let mut k: usize = 0;
    while k < pat.len()
        invariant
            k <= pat@.len(),
            i + pat@.len() <= b.len(),
            forall|j: int| 0 <= j < k ==> b@[i + j] == pat@[j],
        decreases pat@.len() - k,
    {
        if b[i + k] != pat[k] {
            assert(b@.subrange(i as int, i + pat@.len())[k as int] != pat@[k as int]);
            return false;
        }
        k = k + 1;
    }
    assert(b@.subrange(i as int, i + pat@.len()) =~= pat@);
    true
}

/// A number written in `n` bytes, the lowest first.
pub open spec fn low_first(v: nat, n: nat) -> Seq<u8>
    decreases n,
{
    if n == 0 {
        Seq::empty()
    } else {
        seq![(v % 256) as u8] + low_first(v / 256, (n - 1) as nat)
    }
}

/// A number written in `n` bytes, the highest first.
pub open spec fn high_first(v: nat, n: nat) -> Seq<u8>
    decreases n,
{
    if n == 0 {
        Seq::empty()
    } else {
        high_first(v / 256, (n - 1) as nat).push((v % 256) as u8)
    }
}

/// Whether bytes stand at a place.
pub open spec fn stands(b: Seq<u8>, i: int, bytes: Seq<u8>) -> bool {
    &&& 0 <= i
    &&& i + bytes.len() <= b.len()
    &&& forall|j: int| 0 <= j < bytes.len() ==> b[i + j] == #[trigger] bytes[j]
}

/// What stands at a place stands there in parts.
pub proof fn lemma_stands_parts(b: Seq<u8>, i: int, x: Seq<u8>, y: Seq<u8>)
    requires
        stands(b, i, x + y),
    ensures
        stands(b, i, x),
        stands(b, i + x.len(), y),
{
    let all = x + y;
    assert forall|j: int| 0 <= j < x.len() implies b[i + j] == #[trigger] x[j] by {
        assert(all[j] == x[j]);
    }
    assert forall|j: int| 0 <= j < y.len() implies b[i + x.len() + j] == #[trigger] y[j] by {
        assert(all[x.len() + j] == y[j]);
    }
}

proof fn lemma_low(b: Seq<u8>, i: int, v: nat, n: nat)
    requires
        n > 0,
        stands(b, i, low_first(v, n)),
    ensures
        b[i] == v % 256,
        stands(b, i + 1, low_first(v / 256, (n - 1) as nat)),
        low_first(v, n).len() == 1 + low_first(v / 256, (n - 1) as nat).len(),
{
    let first = seq![(v % 256) as u8];
    lemma_stands_parts(b, i, first, low_first(v / 256, (n - 1) as nat));
    assert(b[i + 0] == first[0]);
}

proof fn lemma_high_len(v: nat, n: nat)
    ensures
        high_first(v, n).len() == n,
    decreases n,
{
    if n > 0 {
        lemma_high_len(v / 256, (n - 1) as nat);
    }
}

proof fn lemma_high(b: Seq<u8>, i: int, v: nat, n: nat)
    requires
        n > 0,
        stands(b, i, high_first(v, n)),
    ensures
        b[i + n - 1] == v % 256,
        stands(b, i, high_first(v / 256, (n - 1) as nat)),
{
    let front = high_first(v / 256, (n - 1) as nat);
    let all = high_first(v, n);
    lemma_high_len(v / 256, (n - 1) as nat);
    assert forall|j: int| 0 <= j < front.len() implies b[i + j] == #[trigger] front[j] by {
        assert(all[j] == front[j]);
    }
    assert(all[n - 1] == v % 256);
    assert(b[i + (n - 1)] == all[n - 1]);
}

/// Numbers that are written lowest byte first are read.
pub proof fn law_low_first_read(b: Seq<u8>, i: int, v: nat)
    ensures
        v < 0x1_0000 && stands(b, i, low_first(v, 2)) ==> le16(b, i) == v,
        v < 0x100_0000 && stands(b, i, low_first(v, 3)) ==> le24(b, i) == v,
        v < 0x1_0000_0000 && stands(b, i, low_first(v, 4)) ==> le32(b, i) == v,
        v < 0x1_0000_0000_0000_0000 && stands(b, i, low_first(v, 8)) ==> le64(b, i) == v,
        low_first(v, 2).len() == 2,
        low_first(v, 3).len() == 3,
        low_first(v, 4).len() == 4,
        low_first(v, 8).len() == 8,
{
    let v1 = v / 256;
    let v2 = v1 / 256;
    let v3 = v2 / 256;
    let v4 = v3 / 256;
    let v5 = v4 / 256;
    let v6 = v5 / 256;
    let v7 = v6 / 256;
    reveal_with_fuel(low_first, 9);
    if stands(b, i, low_first(v, 2)) {
        lemma_low(b, i, v, 2);
        lemma_low(b, i + 1, v1, 1);
    }
    if stands(b, i, low_first(v, 3)) {
        lemma_low(b, i, v, 3);
        lemma_low(b, i + 1, v1, 2);
        lemma_low(b, i + 2, v2, 1);
    }
    if stands(b, i, low_first(v, 4)) {
        lemma_low(b, i, v, 4);
        lemma_low(b, i + 1, v1, 3);
        lemma_low(b, i + 2, v2, 2);
        lemma_low(b, i + 3, v3, 1);
    }
    if stands(b, i, low_first(v, 8)) {
        lemma_low(b, i, v, 8);
        lemma_low(b, i + 1, v1, 7);
        lemma_low(b, i + 2, v2, 6);
        lemma_low(b, i + 3, v3, 5);
        lemma_low(b, i + 4, v4, 4);
        lemma_low(b, i + 5, v5, 3);
        lemma_low(b, i + 6, v6, 2);
        lemma_low(b, i + 7, v7, 1);
    }
}

/// Numbers that are written highest byte first are read.
pub proof fn law_high_first_read(b: Seq<u8>, i: int, v: nat)
    ensures
        v < 0x1_0000 && stands(b, i, high_first(v, 2)) ==> be16(b, i) == v,
        v < 0x100_0000 && stands(b, i, high_first(v, 3)) ==> be24(b, i) == v,
        v < 0x1_0000_0000 && stands(b, i, high_first(v, 4)) ==> be32(b, i) == v,
        v < 0x1_0000_0000_0000_0000 && stands(b, i, high_first(v, 8)) ==> be64(b, i) == v,
        high_first(v, 2).len() == 2,
        high_first(v, 3).len() == 3,
        high_first(v, 4).len() == 4,
        high_first(v, 8).len() == 8,
{
    let v1 = v / 256;
    let v2 = v1 / 256;
    let v3 = v2 / 256;
    let v4 = v3 / 256;
    let v5 = v4 / 256;
    let v6 = v5 / 256;
    let v7 = v6 / 256;
    lemma_high_len(v, 2);
    lemma_high_len(v, 3);
    lemma_high_len(v, 4);
    lemma_high_len(v, 8);
    if stands(b, i, high_first(v, 2)) {
        lemma_high(b, i, v, 2);
        lemma_high(b, i, v1, 1);
    }
    if stands(b, i, high_first(v, 3)) {
        lemma_high(b, i, v, 3);
        lemma_high(b, i, v1, 2);
        lemma_high(b, i, v2, 1);
    }
    if stands(b, i, high_first(v, 4)) {
        lemma_high(b, i, v, 4);
        lemma_high(b, i, v1, 3);
        lemma_high(b, i, v2, 2);
        lemma_high(b, i, v3, 1);
    }
    if stands(b, i, high_first(v, 8)) {
        lemma_high(b, i, v, 8);
        lemma_high(b, i, v1, 7);
        lemma_high(b, i, v2, 6);
        lemma_high(b, i, v3, 5);
        lemma_high(b, i, v4, 4);
        lemma_high(b, i, v5, 3);
        lemma_high(b, i, v6, 2);
        lemma_high(b, i, v7, 1);
    }
}

} // verus!
