//! WAV files as they are written: reading gives back what they say and their samples.

use crate::bytes::{law_low_first_read, le32, lemma_stands_parts, low_first, stands};
use crate::error::Fault;
use crate::wav::{
    chunks_from, data_id, fmt_at, fmt_id, frames_between, frames_there, header_of,
    promised_frames, riff, sample_value, wave, Fmt, SampleFormat, WavHeader,
};
use vstd::arithmetic::div_mod::lemma_fundamental_div_mod_converse;
use vstd::prelude::*;

verus! {

/// How many bytes a sample takes.
pub open spec fn size_of(f: SampleFormat) -> nat {
    match f {
        SampleFormat::PcmU8 => 1,
        SampleFormat::Pcm16 => 2,
        SampleFormat::Pcm24 => 3,
        SampleFormat::Pcm32 => 4,
        SampleFormat::Float32 => 4,
        SampleFormat::Float64 => 8,
    }
}

/// The numbers that a format can hold: signed ones, but the bits of a short
/// floating-point number.
pub open spec fn holds(f: SampleFormat, v: int) -> bool {
    match f {
        SampleFormat::PcmU8 => -0x80 <= v < 0x80,
        SampleFormat::Pcm16 => -0x8000 <= v < 0x8000,
        SampleFormat::Pcm24 => -0x80_0000 <= v < 0x80_0000,
        SampleFormat::Pcm32 => -0x8000_0000 <= v < 0x8000_0000,
        SampleFormat::Float32 => 0 <= v < 0x1_0000_0000,
        SampleFormat::Float64 => -0x8000_0000_0000_0000 <= v < 0x8000_0000_0000_0000,
    }
}

/// A number in `n` bytes, in two's complement.
pub open spec fn signed_row(v: int, n: nat, range: int) -> Seq<u8> {
    low_first(
        (if v < 0 {
            v + range
        } else {
            v
        }) as nat,
        n,
    )
}

/// A sample as it is written: in one byte above 128, else in two's complement.
pub open spec fn sample_row(f: SampleFormat, v: int) -> Seq<u8> {
    match f {
        SampleFormat::PcmU8 => seq![(v + 128) as u8],
        SampleFormat::Pcm16 => signed_row(v, 2, 0x1_0000),
        SampleFormat::Pcm24 => signed_row(v, 3, 0x100_0000),
        SampleFormat::Pcm32 => signed_row(v, 4, 0x1_0000_0000),
        SampleFormat::Float32 => low_first(v as nat, 4),
        SampleFormat::Float64 => signed_row(v, 8, 0x1_0000_0000_0000_0000),
    }
}

/// A sample that is written is read.
pub proof fn law_sample_read(f: SampleFormat, b: Seq<u8>, at: int, v: int)
    requires
        holds(f, v),
        stands(b, at, sample_row(f, v)),
    ensures
        sample_value(f, b, at) == v,
        sample_row(f, v).len() == size_of(f),
{
    let range: int = match f {
        SampleFormat::PcmU8 => 0x100,
        SampleFormat::Pcm16 => 0x1_0000,
        SampleFormat::Pcm24 => 0x100_0000,
        SampleFormat::Pcm32 => 0x1_0000_0000,
        SampleFormat::Float32 => 0x1_0000_0000,
        SampleFormat::Float64 => 0x1_0000_0000_0000_0000,
    };
    law_low_first_read(
        b,
        at,
        (if v < 0 {
            v + range
        } else {
            v
        }) as nat,
    );
    if f == SampleFormat::PcmU8 {
        assert(b[at + 0] == sample_row(f, v)[0]);
    }
}

/// The samples of a frame, one for each channel.
pub open spec fn frame_row(f: SampleFormat, vs: Seq<int>) -> Seq<u8>
    decreases vs.len(),
{
    if vs.len() == 0 {
        Seq::empty()
    } else {
        frame_row(f, vs.drop_last()) + sample_row(f, vs.last())
    }
}

proof fn lemma_frame(f: SampleFormat, b: Seq<u8>, at: int, vs: Seq<int>, c: int)
    requires
        stands(b, at, frame_row(f, vs)),
        forall|k: int| 0 <= k < vs.len() ==> holds(f, #[trigger] vs[k]),
        0 <= c < vs.len(),
    ensures
        sample_value(f, b, at + c * size_of(f)) == vs[c],
    decreases vs.len(),
{
    let before = vs.drop_last();
    lemma_frame_len(f, before);
    let front = frame_row(f, before);
    lemma_stands_parts(b, at, front, sample_row(f, vs.last()));
    if c < before.len() {
        assert forall|k: int| 0 <= k < before.len() implies holds(f, #[trigger] before[k]) by {
            assert(before[k] == vs[k]);
        }
        lemma_frame(f, b, at, before, c);
    } else {
        assert(holds(f, vs[c]));
        assert(c * size_of(f) == front.len()) by (nonlinear_arith)
            requires
                c == before.len(),
                front.len() == before.len() * size_of(f),
        ;
        law_sample_read(f, b, at + front.len(), vs[c]);
    }
}

proof fn lemma_frame_len(f: SampleFormat, vs: Seq<int>)
    ensures
        frame_row(f, vs).len() == vs.len() * size_of(f),
    decreases vs.len(),
{
    if vs.len() > 0 {
        let before = vs.drop_last();
        lemma_frame_len(f, before);
        let v = vs.last();
        let none = Seq::<u8>::empty();
        let x = if v < 0 {
            v + 0x1_0000
        } else {
            v
        };
        law_low_first_read(none, 0, x as nat);
        law_low_first_read(
            none,
            0,
            (if v < 0 {
                v + 0x100_0000
            } else {
                v
            }) as nat,
        );
        law_low_first_read(
            none,
            0,
            (if v < 0 {
                v + 0x1_0000_0000
            } else {
                v
            }) as nat,
        );
        law_low_first_read(none, 0, v as nat);
        law_low_first_read(
            none,
            0,
            (if v < 0 {
                v + 0x1_0000_0000_0000_0000
            } else {
                v
            }) as nat,
        );
        assert(sample_row(f, v).len() == size_of(f));
        assert(before.len() * size_of(f) + size_of(f) == vs.len() * size_of(f))
            by (nonlinear_arith)
            requires
                vs.len() == before.len() + 1,
        ;
    }
}

/// Frames that are written are read: those from `from` up to `to`, each with its channels
/// in order, however much room is left between frames.
pub proof fn law_frames_read(
    b: Seq<u8>,
    h: WavHeader,
    frames: Seq<Seq<int>>,
    from: int,
    to: int,
    i: int,
    c: int,
)
    requires
        forall|k: int|
            #![trigger frames[k]]
            0 <= k < frames.len() ==> {
                &&& frames[k].len() == h.channels
                &&& stands(b, h.data_start + k * h.block_align, frame_row(h.format, frames[k]))
                &&& forall|j: int|
                    0 <= j < h.channels ==> holds(h.format, #[trigger] frames[k][j])
            },
        0 <= from <= i < to <= frames.len(),
        0 <= c < h.channels,
    ensures
        frames_between(b, h, from, to).len() == (to - from) * h.channels,
        frames_between(b, h, from, to)[(i - from) * h.channels + c] == frames[i][c],
{
    let ch = h.channels as int;
    let k = (i - from) * ch + c;
    assert(0 <= k < (to - from) * ch) by (nonlinear_arith)
        requires
            k == (i - from) * ch + c,
            0 <= c < ch,
            from <= i < to,
    ;
    lemma_fundamental_div_mod_converse(k, ch, i - from, c);
    assert(frames[i].len() == h.channels);
    lemma_frame(h.format, b, h.data_start + i * h.block_align, frames[i], c);
    assert(h.format.bytes() == size_of(h.format));
}

/// The head of a chunk: its name and its length.
pub open spec fn chunk_head(id: Seq<u8>, len: nat) -> Seq<u8> {
    id + low_first(len, 4)
}

/// What a chunk on the format holds; a long one names the coding in its second half.
pub open spec fn fmt_row(f: Fmt, byte_rate: nat, long: Option<Seq<u8>>) -> Seq<u8> {
    low_first(
        if long is Some {
            0xFFFE
        } else {
            f.tag as nat
        },
        2,
    ) + (low_first(f.channels as nat, 2) + (low_first(f.sample_rate as nat, 4) + (low_first(
        byte_rate,
        4,
    ) + (low_first(f.block_align as nat, 2) + (low_first(f.bits as nat, 2) + (match long {
        Some(mid) => mid + (low_first(f.tag as nat, 2) + Seq::new(14, |i: int| 0u8)),
        None => Seq::empty(),
    }))))))
}

/// A format that is written is read, in both lengths.
pub proof fn law_fmt_read(b: Seq<u8>, at: int, f: Fmt, byte_rate: nat, long: Option<Seq<u8>>)
    requires
        stands(b, at, fmt_row(f, byte_rate, long)),
        long matches Some(mid) ==> mid.len() == 8,
        long is None ==> f.tag != 0xFFFE,
    ensures
        fmt_at(b, at, fmt_row(f, byte_rate, long).len() as int) == f,
        fmt_row(f, byte_rate, long).len() == (if long is Some {
            40nat
        } else {
            16
        }),
{
    let first = if long is Some {
        0xFFFEnat
    } else {
        f.tag as nat
    };
    let last = match long {
        Some(mid) => mid + (low_first(f.tag as nat, 2) + Seq::new(14, |i: int| 0u8)),
        None => Seq::empty(),
    };
    let r5 = low_first(f.bits as nat, 2) + last;
    let r4 = low_first(f.block_align as nat, 2) + r5;
    let r3 = low_first(byte_rate, 4) + r4;
    let r2 = low_first(f.sample_rate as nat, 4) + r3;
    let r1 = low_first(f.channels as nat, 2) + r2;
    law_low_first_read(b, at, first);
    law_low_first_read(b, at + 2, f.channels as nat);
    law_low_first_read(b, at + 4, f.sample_rate as nat);
    law_low_first_read(b, at + 8, byte_rate);
    law_low_first_read(b, at + 12, f.block_align as nat);
    law_low_first_read(b, at + 14, f.bits as nat);
    law_low_first_read(b, at + 24, f.tag as nat);
    lemma_stands_parts(b, at, low_first(first, 2), r1);
    lemma_stands_parts(b, at + 2, low_first(f.channels as nat, 2), r2);
    lemma_stands_parts(b, at + 4, low_first(f.sample_rate as nat, 4), r3);
    lemma_stands_parts(b, at + 8, low_first(byte_rate, 4), r4);
    lemma_stands_parts(b, at + 12, low_first(f.block_align as nat, 2), r5);
    lemma_stands_parts(b, at + 14, low_first(f.bits as nat, 2), last);
    if let Some(mid) = long {
        let tail = low_first(f.tag as nat, 2) + Seq::new(14, |i: int| 0u8);
        lemma_stands_parts(b, at + 16, mid, tail);
        lemma_stands_parts(b, at + 24, low_first(f.tag as nat, 2), Seq::new(14, |i: int| 0u8));
    }
}

proof fn lemma_head(b: Seq<u8>, pos: int, id: Seq<u8>, len: nat)
    requires
        0 <= pos,
        stands(b, pos, chunk_head(id, len)),
        id.len() == 4,
        len < 0x1_0000_0000,
    ensures
        b.subrange(pos, pos + 4) == id,
        le32(b, pos + 4) == len,
        pos + 8 <= b.len(),
{
    law_low_first_read(b, pos + 4, len);
    lemma_stands_parts(b, pos, id, low_first(len, 4));
    assert forall|j: int| 0 <= j < 4 implies b.subrange(pos, pos + 4)[j] == id[j] by {
        assert(b[pos + j] == id[j]);
    }
    assert(b.subrange(pos, pos + 4) =~= id);
}

/// Other chunks: their names and lengths.
pub open spec fn others_stand(b: Seq<u8>, pos: int, cs: Seq<(Seq<u8>, nat)>) -> bool
    decreases cs.len(),
{
    cs.len() > 0 ==> {
        let (id, len) = cs[0];
        &&& id.len() == 4
        &&& id != seq![0x66u8, 0x6Du8, 0x74u8, 0x20u8]
        &&& id != seq![0x64u8, 0x61u8, 0x74u8, 0x61u8]
        &&& len < 0x1_0000_0000
        &&& stands(b, pos, chunk_head(id, len))
        &&& others_stand(b, pos + 8 + len + len % 2, cs.drop_first())
    }
}

/// Where other chunks end: each starts at an even distance behind the one before.
pub open spec fn others_end(pos: int, cs: Seq<(Seq<u8>, nat)>) -> int
    decreases cs.len(),
{
    if cs.len() == 0 {
        pos
    } else {
        others_end(pos + 8 + cs[0].1 + cs[0].1 % 2, cs.drop_first())
    }
}

proof fn lemma_others(
    b: Seq<u8>,
    pos: int,
    cs: Seq<(Seq<u8>, nat)>,
    fmt: Option<Fmt>,
    data: Option<(u64, u64)>,
)
    requires
        0 <= pos,
        others_stand(b, pos, cs),
        !(fmt is Some && data is Some),
    ensures
        chunks_from(b, pos, fmt, data) == chunks_from(b, others_end(pos, cs), fmt, data),
        others_end(pos, cs) >= pos,
    decreases cs.len(),
{
    if cs.len() > 0 {
        let (id, len) = cs[0];
        lemma_head(b, pos, id, len);
        assert(fmt_id() =~= seq![0x66u8, 0x6Du8, 0x74u8, 0x20u8]);
        assert(data_id() =~= seq![0x64u8, 0x61u8, 0x74u8, 0x61u8]);
        lemma_others(b, pos + 8 + len + len % 2, cs.drop_first(), fmt, data);
    }
}

/// How samples are coded: whole numbers or floating-point ones, and in how many bits.
pub open spec fn coding(f: SampleFormat) -> (u16, u16) {
    match f {
        SampleFormat::PcmU8 => (1, 8),
        SampleFormat::Pcm16 => (1, 16),
        SampleFormat::Pcm24 => (1, 24),
        SampleFormat::Pcm32 => (1, 32),
        SampleFormat::Float32 => (3, 32),
        SampleFormat::Float64 => (3, 64),
    }
}

/// The header of a file that is written is read, whatever other chunks stand before the
/// format and between it and the samples. One without channels or without a rate is
/// refused, and one whose frames are too short for their samples.
pub proof fn law_header_read(
    b: Seq<u8>,
    h: WavHeader,
    byte_rate: nat,
    long: Option<Seq<u8>>,
    size: nat,
    before: Seq<(Seq<u8>, nat)>,
    between: Seq<(Seq<u8>, nat)>,
)
    requires
        stands(b, 0, seq![0x52u8, 0x49u8, 0x46u8, 0x46u8] + (low_first(size, 4)
            + seq![0x57u8, 0x41u8, 0x56u8, 0x45u8])),
        long matches Some(mid) ==> mid.len() == 8,
        h.bits_per_sample == coding(h.format).1,
        h.data_len < 0x1_0000_0000,
        b.len() < 0x8000_0000_0000_0000,
        others_stand(b, 12, before),
        ({
            let f = Fmt {
                tag: coding(h.format).0,
                channels: h.channels,
                sample_rate: h.sample_rate,
                block_align: h.block_align,
                bits: coding(h.format).1,
            };
            let row = fmt_row(f, byte_rate, long);
            let at = others_end(12, before);
            let next = at + 8 + row.len();
            &&& stands(
                b,
                at,
                chunk_head(seq![0x66u8, 0x6Du8, 0x74u8, 0x20u8], row.len()) + row,
            )
            &&& others_stand(b, next, between)
            &&& stands(
                b,
                others_end(next, between),
                chunk_head(seq![0x64u8, 0x61u8, 0x74u8, 0x61u8], h.data_len as nat),
            )
            &&& h.data_start == others_end(next, between) + 8
        }),
    ensures
        if h.channels >= 1 && h.sample_rate >= 1 && h.channels * size_of(h.format)
            <= h.block_align {
            header_of(b) == Ok::<WavHeader, Fault>(h)
        } else {
            header_of(b) is Err
        },
{
    let f = Fmt {
        tag: coding(h.format).0,
        channels: h.channels,
        sample_rate: h.sample_rate,
        block_align: h.block_align,
        bits: coding(h.format).1,
    };
    let row = fmt_row(f, byte_rate, long);
    let r = seq![0x52u8, 0x49u8, 0x46u8, 0x46u8];
    let w = seq![0x57u8, 0x41u8, 0x56u8, 0x45u8];
    law_low_first_read(b, 4, size);
    lemma_stands_parts(b, 0, r, low_first(size, 4) + w);
    lemma_stands_parts(b, 4, low_first(size, 4), w);
    assert forall|j: int| 0 <= j < 4 implies b.subrange(0, 4)[j] == riff()[j] by {
        assert(b[0 + j] == r[j]);
    }
    assert forall|j: int| 0 <= j < 4 implies b.subrange(8, 12)[j] == wave()[j] by {
        assert(b[8 + j] == w[j]);
    }
    assert(b.subrange(0, 4) =~= riff());
    assert(b.subrange(8, 12) =~= wave());
    let name = seq![0x66u8, 0x6Du8, 0x74u8, 0x20u8];
    let at = others_end(12, before);
    lemma_others(b, 12, before, None, None);
    lemma_stands_parts(b, at, chunk_head(name, row.len()), row);
    law_low_first_read(b, at + 4, row.len());
    law_fmt_read(b, at + 8, f, byte_rate, long);
    lemma_head(b, at, name, row.len());
    assert(fmt_id() =~= name);
    let next = at + 8 + row.len();
    lemma_others(b, next, between, Some(f), None);
    let end = others_end(next, between);
    let second = seq![0x64u8, 0x61u8, 0x74u8, 0x61u8];
    lemma_head(b, end, second, h.data_len as nat);
    assert(data_id() =~= second);
    assert(!(second =~= name)) by {
        assert(second[0] != name[0]);
    }
    assert(chunks_from(b, 12, None, None) == chunks_from(b, next, Some(f), None));
    let len = h.data_len as int;
    let d = Some((h.data_start, h.data_len));
    assert(chunks_from(b, end, Some(f), None) == chunks_from(
        b,
        end + 8 + (len + len % 2),
        Some(f),
        d,
    ));
    assert(h.format.bytes() == size_of(h.format));
}

/// As many frames are promised as fit in the samples that the header promises; as many are
/// there as fit in those of them that the file has.
pub proof fn law_frames_fit(b: Seq<u8>, h: WavHeader, there: int)
    requires
        h.block_align >= 1,
        there == (if h.data_start >= b.len() {
            0
        } else if b.len() - h.data_start < h.data_len {
            b.len() - h.data_start
        } else {
            h.data_len as int
        }),
    ensures
        promised_frames(h) * h.block_align <= h.data_len < (promised_frames(h) + 1) * h.block_align,
        frames_there(b, h) * h.block_align <= there < (frames_there(b, h) + 1) * h.block_align,
{
    let a = h.block_align as int;
    lemma_fit(h.data_len as int, a);
    lemma_fit(there, a);
    if there == 0 {
        assert(0int / a == 0) by (nonlinear_arith)
            requires
                a >= 1,
        ;
    }
}

proof fn lemma_fit(x: int, a: int)
    requires
        x >= 0,
        a >= 1,
    ensures
        (x / a) * a <= x < (x / a + 1) * a,
{
    vstd::arithmetic::div_mod::lemma_fundamental_div_mod(x, a);
    vstd::arithmetic::div_mod::lemma_mod_bound(x, a);
    assert((x / a) * a == a * (x / a) && (x / a + 1) * a == a * (x / a) + a) by (nonlinear_arith);
}

} // verus!
