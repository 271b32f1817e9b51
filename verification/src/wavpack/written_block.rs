//! Whole WavPack blocks as an encoder writes them: decoding gives the samples back.

use super::bitstream::Cursor;
use super::coded::lies;
use super::coded_words::{law_stream_read, magnitude, Coder, Levels};
use super::decorr::{exp2s, Pass};
use super::fixup::{shl, spread, Int32Info};
use super::forecast::within;
use super::header::{block_magic, header_of, sub_at, subs_fault, subs_from, BlockHeader, Sub, SubAt};
use super::parts::{gather, gathered, parts_of, Raw, Wvx};
use super::stream::{any_too_loud, block_of, checksum, finished, restored_block, too_loud};
use super::words::{residual_count, WordsDecoder};
use super::written::{
    all_codable, joint, law_history_read, law_joint_undone, law_medians_read, law_passes_restore,
    medians_row, pass_keeps, samples_row, storable, terms_row, undone, weights_row, Kept,
};
use crate::bytes::{law_low_first_read, lemma_stands_parts, low_first, stands};
use crate::error::Fault;
use crate::flac::laws::lemma_shift_up;
use vstd::arithmetic::power2::{lemma2_to64, lemma_pow2_pos, lemma_pow2_strictly_increases, pow2};
use vstd::prelude::*;

verus! {

/// How a sub-block begins: its id, whether its length is odd, whether it is large, and its
/// length in words of two bytes.
pub open spec fn sub_head(id: nat, len: nat) -> Seq<u8> {
    let words = (len + 1) / 2;
    let odd = 64 * (len % 2);
    if words < 256 {
        seq![(id + odd) as u8, words as u8]
    } else {
        seq![(id + odd + 128) as u8] + low_first(words, 3)
    }
}

/// A sub-block as it is written: an odd one is filled up.
pub open spec fn sub_row(s: Sub) -> Seq<u8> {
    sub_head(s.id as nat, s.data.len()) + (s.data + Seq::new(s.data.len() % 2, |i: int| 0u8))
}

/// Whether a sub-block can be written.
pub open spec fn sub_fits(s: Sub) -> bool {
    s.id < 64 && s.data.len() < 0x100_0000
}

proof fn lemma_sub_head(meta: Seq<u8>, pos: int, id: nat, len: nat)
    requires
        id < 64,
        len < 0x100_0000,
        stands(meta, pos, sub_head(id, len)),
    ensures
        meta[pos] % 64 == id,
        (meta[pos] & 0x40 != 0) <==> len % 2 == 1,
        meta[pos] >= 0x80 <==> (len + 1) / 2 >= 256,
        (len + 1) / 2 < 256 ==> sub_head(id, len).len() == 2 && meta[pos + 1] == (len + 1) / 2,
        (len + 1) / 2 >= 256 ==> sub_head(id, len).len() == 4 && crate::bytes::le24(
            meta,
            pos + 1,
        ) == (len + 1) / 2,
{
    let words = (len + 1) / 2;
    let row = sub_head(id, len);
    law_low_first_read(meta, pos + 1, words);
    assert(meta[pos + 0] == row[0]);
    let b = meta[pos];
    assert((b & 0x40 != 0) == ((b / 64) % 2 == 1)) by (bit_vector);
    if words < 256 {
        assert(meta[pos + 1] == row[1]);
    } else {
        lemma_stands_parts(
            meta,
            pos,
            seq![(id + 64 * (len % 2) + 128) as u8],
            low_first(words, 3),
        );
    }
}

/// A sub-block that is written is read, and the next one is looked for behind it.
pub proof fn law_sub_read(meta: Seq<u8>, pos: int, s: Sub)
    requires
        0 <= pos,
        sub_fits(s),
        stands(meta, pos, sub_row(s)),
    ensures
        sub_at(meta, pos) == SubAt::Block(s, pos + sub_row(s).len()),
        sub_row(s).len() >= 2,
{
    let n = s.data.len();
    let head = sub_head(s.id as nat, n);
    let pad = Seq::new(n % 2, |i: int| 0u8);
    lemma_stands_parts(meta, pos, head, s.data + pad);
    lemma_sub_head(meta, pos, s.id as nat, n);
    let start = pos + head.len();
    lemma_stands_parts(meta, start, s.data, pad);
    assert forall|j: int| 0 <= j < n implies meta.subrange(start, start + n)[j] == s.data[j] by {
        assert(meta[start + j] == s.data[j]);
    }
    assert(meta.subrange(start, start + n) =~= s.data);
}

/// Sub-blocks, one behind the other.
pub open spec fn subs_row(subs: Seq<Sub>) -> Seq<u8>
    decreases subs.len(),
{
    if subs.len() == 0 {
        Seq::empty()
    } else {
        sub_row(subs[0]) + subs_row(subs.drop_first())
    }
}

proof fn lemma_subs(meta: Seq<u8>, pos: int, subs: Seq<Sub>)
    requires
        0 <= pos,
        stands(meta, pos, subs_row(subs)),
        pos + subs_row(subs).len() == meta.len(),
        forall|i: int| 0 <= i < subs.len() ==> sub_fits(#[trigger] subs[i]),
    ensures
        subs_from(meta, pos) == subs,
        subs_fault(meta, pos) is None,
    decreases subs.len(),
{
    if subs.len() == 0 {
        assert(subs =~= Seq::empty());
    } else {
        let later = subs.drop_first();
        lemma_stands_parts(meta, pos, sub_row(subs[0]), subs_row(later));
        assert(sub_fits(subs[0]));
        law_sub_read(meta, pos, subs[0]);
        assert forall|i: int| 0 <= i < later.len() implies sub_fits(#[trigger] later[i]) by {
            assert(later[i] == subs[i + 1]);
        }
        lemma_subs(meta, pos + sub_row(subs[0]).len(), later);
        assert(seq![subs[0]] + later =~= subs);
    }
}

/// Sub-blocks that are written are read, all of them and in order.
pub proof fn law_subs_read(subs: Seq<Sub>)
    requires
        forall|i: int| 0 <= i < subs.len() ==> sub_fits(#[trigger] subs[i]),
    ensures
        subs_from(subs_row(subs), 0) == subs,
        subs_fault(subs_row(subs), 0) is None,
{
    lemma_subs(subs_row(subs), 0, subs);
}

/// A number shifted up is the number times a power of two, where that fits.
pub proof fn law_shifted(v: i32, k: u32)
    requires
        k < 32,
        within(v * pow2(k as nat), 0x7FFF_FFFF),
    ensures
        shl(v, k) == v * pow2(k as nat),
{
    let wide = (v as i64) << k;
    lemma_shift_up(v as i64, k);
    assert((((v as u32) << k) as i32) as i64 == wide) by (bit_vector)
        requires
            k < 32,
            wide == (v as i64) << k,
            -0x8000_0000 <= wide < 0x8000_0000,
    ;
}

/// The low bits that are known without being stored: zeros, ones, or as many as there are
/// of the lowest bit that is kept.
pub proof fn law_known_bits(info: Int32Info, v: i32)
    requires
        info.zeros + info.ones + info.dups <= 30,
        within(v * pow2((info.zeros + info.ones + info.dups) as nat), 0x3FFF_FFFF),
        info.zeros > 0 ==> info.ones == 0 && info.dups == 0,
        info.ones > 0 ==> info.dups == 0,
    ensures
        ({
            let p = pow2((info.zeros + info.ones + info.dups) as nat) as int;
            info.expand(v) == v * p + (if info.ones > 0 || info.dups > 0 && v % 2 == 1 {
                p - 1
            } else {
                0
            })
        }),
{
    let k = (info.zeros + info.ones + info.dups) as u32;
    let p = pow2(k as nat) as int;
    lemma2_to64();
    lemma_pow2_pos(k as nat);
    if k < 30 {
        lemma_pow2_strictly_increases(k as nat, 30);
    }
    assert((v + 1) * p == v * p + p) by (nonlinear_arith);
    assert(within(v as int, 0x3FFF_FFFF)) by (nonlinear_arith)
        requires
            within(v * p, 0x3FFF_FFFF),
            p >= 1,
    ;
    if info.zeros != 0 {
        law_shifted(v, info.zeros);
    } else if info.ones != 0 {
        law_shifted((v + 1) as i32, info.ones);
    } else if info.dups != 0 {
        let lo = v & 1;
        assert(lo == v % 2) by (bit_vector)
            requires
                lo == v & 1,
        ;
        law_shifted((v + lo) as i32, info.dups);
    } else {
        assert(p == 1);
        assert(v * 1 == v);
    }
}

/// What the flags of a block say, one binary digit for each.
pub proof fn law_flags(h: BlockHeader)
    ensures
        h.mono_stored() <==> (h.flags / 0x4) % 2 == 1,
        h.joint_stereo() <==> (h.flags / 0x10) % 2 == 1,
        h.float_data() <==> (h.flags / 0x80) % 2 == 1,
        h.int32_data() <==> (h.flags / 0x100) % 2 == 1,
        h.false_stereo() <==> (h.flags / 0x4000_0000) % 2 == 1,
{
    let f = h.flags;
    assert((f & 0x4 != 0) == ((f / 0x4) % 2 == 1) && (f & 0x10 != 0) == ((f / 0x10) % 2 == 1) && (f
        & 0x80 != 0) == ((f / 0x80) % 2 == 1) && (f & 0x100 != 0) == ((f / 0x100) % 2 == 1) && (f
        & 0x4000_0000 != 0) == ((f / 0x4000_0000) % 2 == 1)) by (bit_vector);
}

/// Whether flags ask for nothing that is lost in coding.
pub open spec fn lossless(flags: u32) -> bool {
    &&& flags < 0x8000_0000
    &&& (flags / 0x8) % 2 == 0
    &&& (flags / 0x40) % 2 == 0
    &&& (flags / 0x200) % 2 == 0
    &&& (flags / 0x400) % 2 == 0
    &&& (flags / 0x2000_0000) % 2 == 0
}

/// The header of a block as it is written.
pub open spec fn header_row(h: BlockHeader, version: nat, index: Seq<u8>) -> Seq<u8> {
    seq![0x77u8, 0x76u8, 0x70u8, 0x6Bu8] + (low_first((h.block_len - 8) as nat, 4) + (low_first(
        version,
        2,
    ) + (index + (low_first(h.block_samples as nat, 4) + (low_first(h.flags as nat, 4) + low_first(
        h.crc as nat,
        4,
    ))))))
}

/// The header that is written is read. One of a length, a version or a number of frames
/// that there are no blocks of is refused, and so is one that asks for what is lost.
pub proof fn law_header_read(buf: Seq<u8>, h: BlockHeader, version: nat, index: Seq<u8>)
    requires
        stands(buf, 0, header_row(h, version, index)),
        index.len() == 10,
        8 <= h.block_len < 0x1_0000_0000,
        version < 0x1_0000,
    ensures
        if 32 <= h.block_len <= 0x10_0000 && 0x402 <= version <= 0x410 && h.block_samples <= 131072
            && lossless(h.flags) {
            header_of(buf) == Ok::<BlockHeader, Fault>(h)
        } else {
            header_of(buf) is Err
        },
{
    let magic = seq![0x77u8, 0x76u8, 0x70u8, 0x6Bu8];
    let size = low_first((h.block_len - 8) as nat, 4);
    let r5 = low_first(h.crc as nat, 4);
    let r4 = low_first(h.flags as nat, 4) + r5;
    let r3 = low_first(h.block_samples as nat, 4) + r4;
    let r2 = index + r3;
    let r1 = low_first(version, 2) + r2;
    law_low_first_read(buf, 4, (h.block_len - 8) as nat);
    law_low_first_read(buf, 8, version);
    law_low_first_read(buf, 20, h.block_samples as nat);
    law_low_first_read(buf, 24, h.flags as nat);
    law_low_first_read(buf, 28, h.crc as nat);
    lemma_stands_parts(buf, 0, magic, size + r1);
    lemma_stands_parts(buf, 4, size, r1);
    lemma_stands_parts(buf, 8, low_first(version, 2), r2);
    lemma_stands_parts(buf, 10, index, r3);
    lemma_stands_parts(buf, 20, low_first(h.block_samples as nat, 4), r4);
    lemma_stands_parts(buf, 24, low_first(h.flags as nat, 4), r5);
    assert forall|j: int| 0 <= j < 4 implies buf.subrange(0, 4)[j] == block_magic()[j] by {
        assert(buf[0 + j] == magic[j]);
    }
    assert(buf.subrange(0, 4) =~= block_magic());
    let f = h.flags;
    assert((f & 0x2000_0648 == 0) == ((f / 0x8) % 2 == 0 && (f / 0x40) % 2 == 0 && (f / 0x200) % 2
        == 0 && (f / 0x400) % 2 == 0 && (f / 0x2000_0000) % 2 == 0)) by (bit_vector);
}

/// What a block is coded with.
pub struct Coding {
    /// The passes, in the order in which they are undone.
    pub passes: Seq<Pass>,
    /// Their weights in bytes.
    pub weights: Seq<(i8, i8)>,
    /// What they keep, in logarithms.
    pub kept: Seq<Kept>,
    /// The medians of the first channel, in logarithms.
    pub first: (nat, nat, nat),
    /// The medians of the second channel, in logarithms.
    pub second: (nat, nat, nat),
    /// The residuals.
    pub stream: Seq<u8>,
}

/// The medians that logarithms stand for.
pub open spec fn levels_of(l: (nat, nat, nat)) -> Levels {
    Levels {
        a: (exp2s(l.0 as i32) as u32) as nat,
        b: (exp2s(l.1 as i32) as u32) as nat,
        c: (exp2s(l.2 as i32) as u32) as nat,
    }
}

impl Coding {
    /// The sub-blocks.
    pub open spec fn subs(self, mono: bool) -> Seq<Sub> {
        let a = medians_row(self.first.0, self.first.1, self.first.2);
        let b = medians_row(self.second.0, self.second.1, self.second.2);
        seq![
            Sub { id: 2, data: terms_row(self.passes) },
            Sub { id: 3, data: weights_row(self.weights, mono) },
            Sub { id: 4, data: samples_row(self.passes, self.kept, mono) },
            Sub {
                id: 5,
                data: if mono {
                    a
                } else {
                    a + b
                },
            },
            Sub { id: 10, data: self.stream },
        ]
    }

    /// Whether all of it can be written.
    pub open spec fn writable(self, mono: bool) -> bool {
        &&& self.passes.len() <= 16
        &&& self.weights.len() == self.passes.len()
        &&& self.kept.len() == self.passes.len()
        &&& forall|i: int|
            0 <= i < self.passes.len() ==> storable(
                #[trigger] self.passes[i],
                self.weights[i],
                mono,
            ) && pass_keeps(self.passes[i], self.kept[i], mono)
        &&& self.first.0 < 0x1_0000
        &&& self.first.1 < 0x1_0000
        &&& self.first.2 < 0x1_0000
        &&& self.second.0 < 0x1_0000
        &&& self.second.1 < 0x1_0000
        &&& self.second.2 < 0x1_0000
        &&& forall|i: int| 0 <= i < 5 ==> sub_fits(#[trigger] self.subs(mono)[i])
    }

    /// The state of the encoder at the start.
    pub open spec fn coder(self, mono: bool) -> Coder {
        Coder::start(
            levels_of(self.first),
            if mono {
                Levels::none()
            } else {
                levels_of(self.second)
            },
        )
    }
}

#[verifier::spinoff_prover]
#[verifier::rlimit(80)]
proof fn lemma_gather(k: Coding, mono: bool)
    requires
        k.writable(mono),
    ensures
        gathered(subs_row(k.subs(mono))) == Ok::<Raw, Fault>(
            Raw {
                terms: Some(k.subs(mono)[0].data),
                weights: Some(k.subs(mono)[1].data),
                samples: Some(k.subs(mono)[2].data),
                entropy: Some(k.subs(mono)[3].data),
                stream: Some(k.subs(mono)[4].data),
                ..Raw::empty()
            },
        ),
{
    let subs = k.subs(mono);
    law_subs_read(subs);
    let s1 = subs.drop_first();
    let s2 = s1.drop_first();
    let s3 = s2.drop_first();
    let s4 = s3.drop_first();
    let s5 = s4.drop_first();
    assert(s1[0] == subs[1] && s2[0] == subs[2] && s3[0] == subs[3] && s4[0] == subs[4]);
    assert(s5.len() == 0);
    let r0 = Raw::empty();
    let r1 = Raw { terms: Some(subs[0].data), ..r0 };
    let r2 = Raw { weights: Some(subs[1].data), ..r1 };
    let r3 = Raw { samples: Some(subs[2].data), ..r2 };
    let r4 = Raw { entropy: Some(subs[3].data), ..r3 };
    let r5 = Raw { stream: Some(subs[4].data), ..r4 };
    lemma_absorb(r0, subs[0].data);
    lemma_absorb(r1, subs[1].data);
    lemma_absorb(r2, subs[2].data);
    lemma_absorb(r3, subs[3].data);
    lemma_absorb(r4, subs[4].data);
    lemma_gather_one(r0, subs, r1);
    lemma_gather_one(r1, s1, r2);
    lemma_gather_one(r2, s2, r3);
    lemma_gather_one(r3, s3, r4);
    lemma_gather_one(r4, s4, r5);
    assert(gather(r5, s5) == Ok::<Raw, Fault>(r5));
}

/// Sub-blocks on what does not fit in the samples are taken up: how large integers and
/// floating-point numbers were cut, and the low bits, behind their checksum.
pub proof fn law_extras_taken(raw: Raw, info: Seq<u8>, crc: u32, stream: Seq<u8>)
    requires
        info.len() == 4,
        stream.len() > 0,
        stream.len() % 2 == 0,
    ensures
        raw.absorb(Sub { id: 9, data: info }) == Ok::<Raw, Fault>(
            Raw { int32_info: Some(info), ..raw },
        ),
        raw.absorb(Sub { id: 8, data: info }) == Ok::<Raw, Fault>(
            Raw { float_info: Some(info), ..raw },
        ),
        raw.absorb(Sub { id: 12, data: low_first(crc as nat, 4) + stream }) == Ok::<Raw, Fault>(
            Raw { wvx: Some(Wvx { crc, stream, is_new: false }), ..raw },
        ),
        raw.absorb(Sub { id: 44, data: low_first(crc as nat, 4) + stream }) == Ok::<Raw, Fault>(
            Raw { wvx: Some(Wvx { crc, stream, is_new: true }), ..raw },
        ),
{
    let data = low_first(crc as nat, 4) + stream;
    assert(stands(data, 0, data));
    law_low_first_read(data, 0, crc as nat);
    lemma_stands_parts(data, 0, low_first(crc as nat, 4), stream);
    assert(data.subrange(4, data.len() as int) =~= stream);
}

proof fn lemma_gather_one(raw: Raw, subs: Seq<Sub>, next: Raw)
    requires
        subs.len() > 0,
        raw.absorb(subs[0]) == Ok::<Raw, Fault>(next),
    ensures
        gather(raw, subs) == gather(next, subs.drop_first()),
{
}

proof fn lemma_absorb(raw: Raw, data: Seq<u8>)
    ensures
        raw.absorb(Sub { id: 2, data }) == Ok::<Raw, Fault>(Raw { terms: Some(data), ..raw }),
        raw.terms is Some ==> raw.absorb(Sub { id: 3, data }) == Ok::<Raw, Fault>(
            Raw { weights: Some(data), ..raw },
        ),
        raw.terms is Some ==> raw.absorb(Sub { id: 4, data }) == Ok::<Raw, Fault>(
            Raw { samples: Some(data), ..raw },
        ),
        raw.absorb(Sub { id: 5, data }) == Ok::<Raw, Fault>(Raw { entropy: Some(data), ..raw }),
        raw.absorb(Sub { id: 10, data }) == Ok::<Raw, Fault>(Raw { stream: Some(data), ..raw }),
{
}

/// What a block is decoded with is what it was coded with.
pub proof fn law_parts_read(header: BlockHeader, k: Coding)
    requires
        k.writable(header.mono_data()),
        header.block_samples > 0,
    ensures
        ({
            let mono = header.mono_data();
            let e = k.coder(mono);
            &&& parts_of(header, subs_row(k.subs(mono))) matches Ok(Some(parts))
            &&& parts.passes == k.passes
            &&& e.first.are(parts.m0)
            &&& e.second.are(parts.m1)
            &&& parts.stream == k.stream
            &&& parts.int32_info is None
            &&& parts.float_info is None
            &&& parts.wvx is None
        }),
{
    let mono = header.mono_data();
    lemma_gather(k, mono);
    law_history_read(k.passes, k.weights, k.kept, mono);
    let a = medians_row(k.first.0, k.first.1, k.first.2);
    let b = medians_row(k.second.0, k.second.1, k.second.2);
    let data = k.subs(mono)[3].data;
    assert(stands(data, 0, a)) by {
        if !mono {
            assert(stands(a + b, 0, a + b));
            lemma_stands_parts(a + b, 0, a, b);
        }
    }
    law_medians_read(data, 0, k.first.0, k.first.1, k.first.2);
    if !mono {
        assert(stands(a + b, 0, a + b));
        lemma_stands_parts(a + b, 0, a, b);
        law_medians_read(data, 6, k.second.0, k.second.1, k.second.2);
    }
    assert(terms_row(k.passes).len() == k.passes.len());
}

/// The checksum of samples: three times that of those before and the sample, in 32 binary
/// digits, from all ones on.
pub open spec fn sum_of(ys: Seq<i32>) -> int
    decreases ys.len(),
{
    if ys.len() == 0 {
        0xFFFF_FFFF
    } else {
        (3 * sum_of(ys.drop_last()) + ys.last()) % 0x1_0000_0000
    }
}

/// A number in 32 binary digits, and back.
pub proof fn lemma_unsigned(x: i32, v: u32)
    ensures
        x as u32 == (if x < 0 {
            x + 0x1_0000_0000
        } else {
            x as int
        }),
        (v as i32) as u32 == v,
{
    assert(x as u32 == (if x < 0 {
        x + 0x1_0000_0000
    } else {
        x as int
    }) && (v as i32) as u32 == v) by (bit_vector);
}

/// The checksum is that of the samples in 32 binary digits.
pub proof fn law_checksum(ys: Seq<i32>, n: nat)
    requires
        n <= ys.len(),
    ensures
        checksum(ys, n) == sum_of(ys.take(n as int)),
    decreases n,
{
    if n > 0 {
        law_checksum(ys, (n - 1) as nat);
        let t = ys.take(n as int);
        assert(t.drop_last() =~= ys.take(n - 1));
        lemma_unsigned(ys[n - 1], 0);
    } else {
        assert(ys.take(0) =~= Seq::empty());
    }
}

/// Whether the residuals of samples are those of a stream.
pub open spec fn streamed(k: Coding, xs: Seq<i32>, mono: bool) -> bool {
    &&& k.coder(mono).calm(xs, 0, mono)
    &&& lies(Cursor { buf: k.stream, pos: 0, loaded: 0 }, k.coder(mono).row(xs, 0, mono))
    &&& forall|i: int| 0 <= i < xs.len() ==> magnitude(#[trigger] xs[i] as int) < 0x2000_0000
}

/// Whether no sample is larger than a block declares, with two to spare.
pub open spec fn quiet_enough(header: BlockHeader, ys: Seq<i32>) -> bool {
    forall|i: int|
        0 <= i < ys.len() ==> within(
            #[trigger] ys[i] as int,
            pow2(header.magnitude() as nat) as int + 2,
        )
}

/// A block that is written is decoded to its samples: through the medians and the digits
/// of the residuals, the passes with their weights and kept samples, and joint stereo.
/// They are shifted up as the header says, and one channel that stands for two is given
/// twice. A block with samples that are larger than it declares, or with another checksum
/// than theirs, is refused.
#[verifier::rlimit(40)]
pub proof fn law_block_read(header: BlockHeader, k: Coding, ys: Seq<i32>)
    requires
        k.writable(header.mono_data()),
        0 < header.block_samples <= 131072,
        !header.float_data(),
        !header.int32_data(),
        ys.len() == header.block_samples * (if header.mono_data() {
            1int
        } else {
            2
        }),
        forall|i: int| 0 <= i < ys.len() ==> within(#[trigger] ys[i] as int, 0x3FFF_FFFF),
        forall|i: int|
            0 <= i < ys.len() ==> within(
                #[trigger] ys[i] * pow2(header.output_shift() as nat),
                0x7FFF_FFFF,
            ),
        ({
            let mono = header.mono_data();
            let zs = if !mono && header.joint_stereo() {
                joint(ys)
            } else {
                ys
            };
            &&& all_codable(k.passes, zs, mono, k.passes.len())
            &&& streamed(k, undone(k.passes, zs, mono, k.passes.len()), mono)
        }),
    ensures
        header.crc != sum_of(ys) || !quiet_enough(header, ys) ==> block_of(
            header,
            subs_row(k.subs(header.mono_data())),
        ) is Err,
        header.crc == sum_of(ys) && quiet_enough(header, ys) ==> (block_of(
            header,
            subs_row(k.subs(header.mono_data())),
        ) matches Ok(out) && {
            let p = pow2(header.output_shift() as nat);
            if header.false_stereo() {
                &&& out.len() == 2 * ys.len()
                &&& forall|i: int|
                    #![trigger ys[i]]
                    0 <= i < ys.len() ==> out[2 * i] == ys[i] * p && out[2 * i + 1] == ys[i] * p
            } else {
                &&& out.len() == ys.len()
                &&& forall|i: int| 0 <= i < ys.len() ==> #[trigger] out[i] == ys[i] * p
            }
        }),
{
    let mono = header.mono_data();
    let meta = subs_row(k.subs(mono));
    let zs = if !mono && header.joint_stereo() {
        joint(ys)
    } else {
        ys
    };
    let n = k.passes.len();
    let xs = undone(k.passes, zs, mono, n);
    law_parts_read(header, k);
    let parts = parts_of(header, meta)->Ok_0.unwrap();
    law_passes_restore(k.passes, zs, mono, n);
    law_stream_read(parts.m0, parts.m1, k.stream, xs, mono);
    if !mono && header.joint_stereo() {
        law_joint_undone(ys);
    }
    assert(xs.len() == residual_count(header.block_samples, mono));
    assert(any_too_loud(ys, header.magnitude() as nat) <==> !quiet_enough(header, ys)) by {
        if !quiet_enough(header, ys) {
            let i = choose|i: int|
                0 <= i < ys.len() && !within(
                    #[trigger] ys[i] as int,
                    pow2(header.magnitude() as nat) as int + 2,
                );
            assert(too_loud(ys[i], header.magnitude() as nat));
        }
    }
    law_checksum(ys, ys.len());
    assert(ys.take(ys.len() as int) =~= ys);
    let restored = restored_block(
        header,
        parts.passes,
        WordsDecoder::start(parts.m0, parts.m1),
        parts.stream,
    );
    if header.crc == sum_of(ys) && quiet_enough(header, ys) {
        assert(restored == Ok::<Seq<i32>, Fault>(ys));
        lemma_finished(header, ys);
    } else {
        assert(restored is Err);
    }
}

proof fn lemma_finished(header: BlockHeader, ys: Seq<i32>)
    requires
        !header.float_data(),
        !header.int32_data(),
        forall|i: int|
            0 <= i < ys.len() ==> within(
                #[trigger] ys[i] * pow2(header.output_shift() as nat),
                0x7FFF_FFFF,
            ),
    ensures
        finished(header, None, None, None, ys) matches Ok(out) && {
            let p = pow2(header.output_shift() as nat);
            if header.false_stereo() {
                &&& out.len() == 2 * ys.len()
                &&& forall|i: int|
                    #![trigger ys[i]]
                    0 <= i < ys.len() ==> out[2 * i] == ys[i] * p && out[2 * i + 1] == ys[i] * p
            } else {
                &&& out.len() == ys.len()
                &&& forall|i: int| 0 <= i < ys.len() ==> #[trigger] out[i] == ys[i] * p
            }
        },
{
    let shift = header.output_shift();
    let p = pow2(shift as nat);
    let moved = if shift % 32 != 0 {
        ys.map_values(|v: i32| shl(v, (shift % 32) as u32))
    } else {
        ys
    };
    lemma2_to64();
    assert forall|i: int| 0 <= i < ys.len() implies #[trigger] moved[i] == ys[i] * p by {
        if shift % 32 != 0 {
            law_shifted(ys[i], shift);
        } else {
            assert(ys[i] * 1 == ys[i]);
        }
    }
    assert forall|i: int|
        #![trigger ys[i]]
        0 <= i < ys.len() && header.false_stereo() implies spread(moved, true)[2 * i] == ys[i] * p
        && spread(moved, true)[2 * i + 1] == ys[i] * p by {
        assert(moved[i] == ys[i] * p);
        assert((2 * i) % 2 == 0 && (2 * i) / 2 == i && (2 * i + 1) % 2 == 1 && (2 * i + 1) / 2
            == i);
    }
}

} // verus!
