//! Files as an encoder writes them, and what playing and seeking in them comes to.

use super::backend::{
    interleaved, law_nearest_point, law_seek_skips, lemma_frame_size, nearest, Player,
};
use super::bits::{bits_value, lemma_bits_split, lemma_byte_middle, Bits};
use super::frame::{frame, Frame};
use super::metadata::{
    chain_from, flac_magic, info_at, metadata_of, points_of, Meta, SeekPoint, StreamInfo,
};
use super::written::{binary, law_number_read, lemma_parts, on, stands_at};
use crate::bytes::{be24, be32, high_first, law_high_first_read, lemma_stands_parts, stands};
use crate::error::Fault;
use vstd::arithmetic::div_mod::lemma_fundamental_div_mod_converse;
use vstd::arithmetic::power2::{lemma2_to64, pow2};
use vstd::prelude::*;

verus! {

/// The description of a stream as it is written, behind ten bytes on the sizes of
/// blocks and frames.
pub open spec fn info_row(i: StreamInfo) -> Seq<bool> {
    binary(i.sample_rate as nat, 20) + (binary((i.channels - 1) as nat, 3) + (binary(
        (i.bits_per_sample - 1) as nat,
        5,
    ) + binary(i.total_samples as nat, 36)))
}

/// Whether a stream can be described.
pub open spec fn describable(i: StreamInfo) -> bool {
    &&& 1 <= i.sample_rate <= 655_350
    &&& 1 <= i.channels <= 8
    &&& 1 <= i.bits_per_sample <= 32
    &&& i.total_samples < 0x10_0000_0000
}

/// The description of a stream that is written is read.
pub proof fn law_info_read(data: Seq<u8>, at: int, i: StreamInfo)
    requires
        0 <= at,
        at + 34 <= data.len(),
        describable(i),
        stands_at(Bits { data, pos: (8 * at + 80) as nat }, info_row(i)),
    ensures
        info_at(data, at) == i,
{
    lemma2_to64();
    let b = Bits { data, pos: (8 * at + 80) as nat };
    let r1 = binary(i.sample_rate as nat, 20);
    let r2 = binary((i.channels - 1) as nat, 3);
    let r3 = binary((i.bits_per_sample - 1) as nat, 5);
    let r4 = binary(i.total_samples as nat, 36);
    assert(pow2(20) == 0x10_0000);
    assert(pow2(36) == 0x10_0000_0000) by {
        vstd::arithmetic::power2::lemma_pow2_adds(32, 4);
    }
    lemma_parts(b, r1, r2 + (r3 + r4));
    law_number_read(b, i.sample_rate as nat, 20);
    lemma_parts(on(b, 20), r2, r3 + r4);
    law_number_read(on(b, 20), (i.channels - 1) as nat, 3);
    lemma_parts(on(on(b, 20), 3), r3, r4);
    law_number_read(on(on(b, 20), 3), (i.bits_per_sample - 1) as nat, 5);
    law_number_read(on(on(on(b, 20), 3), 5), i.total_samples as nat, 36);
    lemma_rate_field(data, at);
    lemma_width_fields(data, at);
    lemma_total_field(data, at);
}

proof fn lemma_rate_field(data: Seq<u8>, at: int)
    requires
        0 <= at,
        at + 34 <= data.len(),
    ensures
        bits_value(data, 8 * at + 80, 20) == (data[at + 10] * 256 + data[at + 11]) * 16 + data[at
            + 12] as int / 16,
{
    lemma2_to64();
    let p = 8 * at;
    lemma_byte(data, at + 10);
    lemma_byte(data, at + 11);
    lemma_bits_split(data, p + 80, 8, 12);
    lemma_bits_split(data, p + 88, 8, 4);
    lemma_byte_middle(data, at + 12, 0, 4);
}

proof fn lemma_width_fields(data: Seq<u8>, at: int)
    requires
        0 <= at,
        at + 34 <= data.len(),
    ensures
        bits_value(data, 8 * at + 100, 3) == data[at + 12] as int / 2 % 8,
        bits_value(data, 8 * at + 103, 5) == (data[at + 12] % 2) * 16 + data[at + 13] as int / 16,
{
    lemma2_to64();
    let p = 8 * at;
    lemma_byte_middle(data, at + 12, 4, 3);
    lemma_byte_middle(data, at + 12, 7, 1);
    lemma_by_one(data[at + 12] as int);
    lemma_byte_middle(data, at + 13, 0, 4);
    lemma_bits_split(data, p + 103, 1, 4);
}

proof fn lemma_total_field(data: Seq<u8>, at: int)
    requires
        0 <= at,
        at + 34 <= data.len(),
    ensures
        bits_value(data, 8 * at + 108, 36) == (data[at + 13] % 16) * 0x1_0000_0000 + be32(
            data,
            at + 14,
        ),
{
    lemma2_to64();
    let p = 8 * at;
    lemma_byte_middle(data, at + 13, 4, 4);
    lemma_by_one(data[at + 13] as int);
    lemma_bits_split(data, p + 108, 4, 32);
    lemma_four_bytes(data, at + 14);
}

proof fn lemma_four_bytes(data: Seq<u8>, k: int)
    requires
        0 <= k,
        k + 4 <= data.len(),
    ensures
        bits_value(data, 8 * k, 32) == be32(data, k),
{
    lemma2_to64();
    lemma_byte(data, k);
    lemma_byte(data, k + 1);
    lemma_byte(data, k + 2);
    lemma_byte(data, k + 3);
    lemma_bits_split(data, 8 * k, 8, 24);
    lemma_bits_split(data, 8 * k + 8, 8, 16);
    lemma_bits_split(data, 8 * k + 16, 8, 8);
}

proof fn lemma_by_one(v: int)
    ensures
        v / (pow2(0) as int) == v,
{
    lemma2_to64();
    assert(v / 1 == v);
}

proof fn lemma_byte(data: Seq<u8>, k: int)
    requires
        0 <= k < data.len(),
    ensures
        bits_value(data, 8 * k, 8) == data[k],
{
    lemma2_to64();
    lemma_byte_middle(data, k, 0, 8);
    lemma_by_one(data[k] as int);
}

/// A block of metadata as an encoder writes it.
pub enum Block {
    /// The description of the stream.
    Info(StreamInfo),
    /// Places that can be sought to; one at the highest sample only keeps room.
    Table(Seq<SeekPoint>),
    /// Something else of a kind, and its length.
    Other(nat, nat),
}

/// The number of the kind of a block.
pub open spec fn block_kind(k: Block) -> nat {
    match k {
        Block::Info(_) => 0,
        Block::Table(_) => 3,
        Block::Other(kind, _) => kind,
    }
}

/// The length of what a block holds.
pub open spec fn block_len(k: Block) -> nat {
    match k {
        Block::Info(_) => 34,
        Block::Table(points) => 18 * points.len(),
        Block::Other(_, len) => len,
    }
}

/// Whether a block stands at `pos`.
pub open spec fn block_stands(data: Seq<u8>, pos: int, k: Block, last: bool) -> bool {
    let body = pos + 4;
    &&& 0 <= pos
    &&& body <= data.len()
    &&& data[pos] == block_kind(k) + (if last {
        128int
    } else {
        0
    })
    &&& block_kind(k) < 128
    &&& block_len(k) < 0x100_0000
    &&& stands(data, pos + 1, high_first(block_len(k), 3))
    &&& match k {
        Block::Info(i) => {
            &&& describable(i)
            &&& body + 34 <= data.len()
            &&& stands_at(Bits { data, pos: (8 * body + 80) as nat }, info_row(i))
        },
        Block::Table(points) => forall|n: int|
            #![trigger points[n]]
            0 <= n < points.len() ==> stands(
                data,
                body + 18 * n,
                high_first(points[n].sample as nat, 8) + (high_first(points[n].offset as nat, 8)
                    + seq![0u8, 0u8]),
            ),
        Block::Other(kind, _) => kind != 0 && kind != 3,
    }
}

/// Whether blocks stand from `pos` on, one after the other, the last one marked.
pub open spec fn blocks_stand(data: Seq<u8>, pos: int, blocks: Seq<Block>) -> bool
    decreases blocks.len(),
{
    &&& blocks.len() > 0
    &&& block_stands(data, pos, blocks[0], blocks.len() == 1)
    &&& blocks.len() > 1 ==> blocks_stand(
        data,
        pos + 4 + block_len(blocks[0]),
        blocks.drop_first(),
    )
}

/// Where blocks end.
pub open spec fn blocks_end(pos: int, blocks: Seq<Block>) -> int
    decreases blocks.len(),
{
    if blocks.len() == 0 {
        pos
    } else {
        blocks_end(pos + 4 + block_len(blocks[0]), blocks.drop_first())
    }
}

/// The places of a table without those that only keep room.
pub open spec fn real_points(points: Seq<SeekPoint>) -> Seq<SeekPoint>
    decreases points.len(),
{
    if points.len() == 0 {
        Seq::empty()
    } else if points.last().sample == 0xFFFF_FFFF_FFFF_FFFF {
        real_points(points.drop_last())
    } else {
        real_points(points.drop_last()).push(points.last())
    }
}

/// The last description among blocks.
pub open spec fn last_info(blocks: Seq<Block>) -> Option<StreamInfo>
    decreases blocks.len(),
{
    if blocks.len() == 0 {
        None
    } else {
        match blocks.last() {
            Block::Info(i) => Some(i),
            _ => last_info(blocks.drop_last()),
        }
    }
}

/// The places of the last table among blocks that has some.
pub open spec fn last_table(blocks: Seq<Block>) -> Option<Seq<SeekPoint>>
    decreases blocks.len(),
{
    if blocks.len() == 0 {
        None
    } else {
        match blocks.last() {
            Block::Table(points) => if real_points(points).len() > 0 {
                Some(real_points(points))
            } else {
                last_table(blocks.drop_last())
            },
            _ => last_table(blocks.drop_last()),
        }
    }
}

proof fn lemma_points(data: Seq<u8>, pos: int, points: Seq<SeekPoint>, last: bool, n: nat)
    requires
        block_stands(data, pos, Block::Table(points), last),
        n <= points.len(),
    ensures
        points_of(data, pos + 4, n) == real_points(points.take(n as int)),
        n > 0 ==> pos + 4 + 18 * n <= data.len(),
    decreases n,
{
    if n > 0 {
        let m = (n - 1) as nat;
        lemma_points(data, pos, points, last, m);
        let at = pos + 4 + 18 * m;
        let p = points[m as int];
        let a = high_first(p.sample as nat, 8);
        let c = high_first(p.offset as nat, 8);
        assert(stands(data, at, a + (c + seq![0u8, 0u8])));
        lemma_stands_parts(data, at, a, c + seq![0u8, 0u8]);
        law_high_first_read(data, at, p.sample as nat);
        lemma_stands_parts(data, at + 8, c, seq![0u8, 0u8]);
        law_high_first_read(data, at + 8, p.offset as nat);
        assert(points.take(n as int).drop_last() =~= points.take(m as int));
    } else {
        assert(points.take(0) =~= Seq::empty());
    }
}

proof fn lemma_chain(
    data: Seq<u8>,
    pos: int,
    blocks: Seq<Block>,
    before: Seq<Block>,
)
    requires
        blocks_stand(data, pos, blocks),
        last_info(before + blocks) is Some,
    ensures
        chain_from(data, pos, last_info(before), last_table(before)) == Ok::<Meta, Fault>(
            Meta {
                info: last_info(before + blocks).unwrap(),
                first_frame_offset: blocks_end(pos, blocks),
                seek_table: last_table(before + blocks),
            },
        ),
    decreases blocks.len(),
{
    let k = blocks[0];
    let last = blocks.len() == 1;
    let len = block_len(k);
    law_high_first_read(data, pos + 1, len);
    assert(be24(data, pos + 1) == len);
    let longer = before.push(k);
    assert(longer.drop_last() =~= before);
    assert(longer.last() == k);
    match k {
        Block::Info(i) => {
            law_info_read(data, pos + 4, i);
        },
        Block::Table(points) => {
            lemma_points(data, pos, points, last, points.len());
            assert(points.take(points.len() as int) =~= points);
            assert(18 * points.len() / 18 == points.len());
        },
        Block::Other(_, _) => {},
    }
    if last {
        assert(before + blocks =~= longer);
        assert(blocks.drop_first() =~= Seq::empty());
        assert(blocks_end(pos + 4 + len, blocks.drop_first()) == pos + 4 + len);
    } else {
        assert(before + blocks =~= longer + blocks.drop_first());
        lemma_chain(data, pos + 4 + len, blocks.drop_first(), longer);
    }
}

/// The metadata of a file that are written are read, whatever other blocks stand among
/// them: the stream, the places that can be sought to, and where the sound starts.
pub proof fn law_metadata_read(data: Seq<u8>, blocks: Seq<Block>)
    requires
        stands(data, 0, seq![0x66u8, 0x4Cu8, 0x61u8, 0x43u8]),
        blocks_stand(data, 4, blocks),
        last_info(blocks) is Some,
    ensures
        metadata_of(data) == Ok::<Meta, Fault>(
            Meta {
                info: last_info(blocks).unwrap(),
                first_frame_offset: blocks_end(4, blocks),
                seek_table: last_table(blocks),
            },
        ),
{
    let magic = seq![0x66u8, 0x4Cu8, 0x61u8, 0x43u8];
    assert forall|j: int| 0 <= j < 4 implies data.subrange(0, 4)[j] == magic[j] by {
        assert(data[0 + j] == magic[j]);
    }
    assert(data.subrange(0, 4) =~= flac_magic());
    assert(Seq::<Block>::empty() + blocks =~= blocks);
    lemma_chain(data, 4, blocks, Seq::empty());
}

/// Samples come out frame by frame, all channels of each in turn.
pub proof fn law_interleaved(f: Frame, count: nat, from: nat, i: int, c: int)
    requires
        from <= i < f.size,
        0 <= c < count,
        c < f.channels.len(),
    ensures
        interleaved(f, count, from).len() == (f.size - from) * count,
        interleaved(f, count, from)[(i - from) * count + c] == f.channels[c][i],
{
    let k = (i - from) * count + c;
    assert(0 <= k < (f.size - from) * count) by (nonlinear_arith)
        requires
            from <= i < f.size,
            0 <= c < count,
            k == (i - from) * count + c,
    ;
    lemma_fundamental_div_mod_converse(k, count as int, i - from, c);
}

/// Whether playing from the first frame on comes to a place of the table with exactly
/// the samples before it.
pub open spec fn true_point(p: Player, q: SeekPoint) -> bool {
    let h = p.moved(p.first as nat).heard(0, q.sample as nat);
    &&& p.first + q.offset < p.bits.data.len()
    &&& !h.done
    &&& h.bits == (Bits { pos: (8 * (p.first + q.offset)) as nat, ..p.bits })
    &&& h.pending.len() == q.sample * p.info.channels
}

/// Hearing on is hearing further.
proof fn lemma_heard_on(p: Player, cursor: nat, mid: nat, target: nat)
    requires
        p.info.channels >= 1,
        cursor <= mid <= target,
        p.pending.len() == cursor * p.info.channels,
        p.heard(cursor, mid).pending.len() == mid * p.info.channels,
    ensures
        p.heard(cursor, target) == p.heard(cursor, mid).heard(mid, target),
        p.heard(cursor, mid).info == p.info,
        p.heard(cursor, mid).first == p.first,
        p.heard(cursor, mid).table == p.table,
    decreases mid - cursor,
{
    reveal(Player::pump);
    let ch = p.info.channels as nat;
    if cursor < mid {
        assert(cursor * ch < mid * ch) by (nonlinear_arith)
            requires
                cursor < mid,
                ch >= 1,
        ;
        match frame(p.bits, p.info) {
            (Ok(f), bits) => {
                if !p.done {
                    lemma_frame_size(p.bits, p.info);
                    let next = Player {
                        bits,
                        pending: p.pending + interleaved(f, ch, 0),
                        ..p
                    };
                    let n = cursor + f.size;
                    assert(n * ch == cursor * ch + f.size * ch) by (nonlinear_arith)
                        requires
                            n == cursor + f.size,
                    ;
                    if n > mid {
                        assert(n * ch > mid * ch) by (nonlinear_arith)
                            requires
                                n > mid,
                                ch >= 1,
                        ;
                        assert(next.heard(n, mid) == next);
                        assert(false);
                    }
                    lemma_heard_on(next, n, mid, target);
                }
            },
            _ => {},
        }
    }
}

/// A search forward arrives if playing does.
proof fn lemma_arrives(p: Player, cursor: nat, target: nat)
    requires
        p.info.channels >= 1,
        !p.done,
        cursor <= target,
        p.pending.len() == cursor * p.info.channels,
        p.heard(cursor, target).pending.len() >= target * p.info.channels,
    ensures
        ({
            let (r, q) = (Player { pending: Seq::empty(), ..p }).advance(cursor, target, false);
            r is Ok && !q.done
        }),
    decreases target - cursor,
{
    reveal(Player::pump);
    let ch = p.info.channels as nat;
    if cursor < target {
        assert(cursor * ch < target * ch) by (nonlinear_arith)
            requires
                cursor < target,
                ch >= 1,
        ;
        match frame(p.bits, p.info) {
            (Ok(f), bits) => {
                lemma_frame_size(p.bits, p.info);
                let next = Player { bits, pending: p.pending + interleaved(f, ch, 0), ..p };
                let n = cursor + f.size;
                assert(n * ch == cursor * ch + f.size * ch) by (nonlinear_arith)
                    requires
                        n == cursor + f.size,
                ;
                if n <= target {
                    lemma_arrives(next, n, target);
                }
            },
            _ => {},
        }
    }
}

/// Seeking is hearing less, from whatever place of the table it starts: if the table
/// is true, what is pending after a seek to sample `target` is what playing from the
/// first frame has behind the first `target` samples of each channel, and both go on
/// from the same place. A seek arrives if playing does.
pub proof fn law_seek_hears(p: Player, target: nat)
    requires
        p.info.channels >= 1,
        p.first < p.bits.data.len(),
        p.table matches Some(t) ==> forall|i: int|
            0 <= i < t.len() ==> true_point(p, #[trigger] t[i]),
    ensures
        ({
            let (r, q) = p.sought(target);
            let h = p.moved(p.first as nat).heard(0, target);
            &&& h.pending.len() >= target * p.info.channels ==> r is Ok && !q.done
            &&& r is Ok && !q.done ==> {
                &&& h.bits == q.bits
                &&& h.pending.len() >= target * p.info.channels
                &&& h.pending.skip((target * p.info.channels) as int) == q.pending
            }
        }),
{
    let from = p.moved(p.first as nat);
    let h = from.heard(0, target);
    assert(from.pending =~= Seq::empty());
    let point = match p.table {
        Some(t) => nearest(t, target, t.len()),
        None => None,
    };
    match point {
        Some(q) => {
            let t = p.table.unwrap();
            law_nearest_point(t, target, t.len());
            let all = t.take(t.len() as int);
            let i = choose|i: int| 0 <= i < all.len() && #[trigger] all[i] == q;
            assert(t[i] == q);
            let mid = from.heard(0, q.sample as nat);
            lemma_heard_on(from, 0, q.sample as nat, target);
            assert((Player { pending: Seq::empty(), ..mid }) == p.moved(
                (p.first + q.offset) as nat,
            ));
            law_seek_skips(mid, q.sample as nat, target);
            if h.pending.len() >= target * p.info.channels {
                lemma_arrives(mid, q.sample as nat, target);
            }
        },
        None => {
            assert((Player { pending: Seq::empty(), ..from }) == from);
            law_seek_skips(from, 0, target);
            if h.pending.len() >= target * p.info.channels {
                lemma_arrives(from, 0, target);
            }
        },
    }
}

/// Filling up only adds behind what is pending, and stops when there is enough or no
/// frame brings more.
pub proof fn law_fill_adds(p: Player, want: nat)
    ensures
        ({
            let (r, q) = p.fill(want);
            &&& p.pending.len() <= q.pending.len()
            &&& q.pending.take(p.pending.len() as int) == p.pending
            &&& p.pending.len() >= want ==> q == p && r is Ok
            &&& r is Ok ==> q.pending.len() >= want || q.done || q.pump().1.pending.len()
                <= q.pending.len() || q.info.channels == 0
        }),
    decreases
        if p.pending.len() < want {
            want - p.pending.len()
        } else {
            0
        },
{
    reveal(Player::pump);
    assert(p.pending.take(p.pending.len() as int) =~= p.pending);
    if p.pending.len() < want && !p.done {
        match p.pump() {
            (Ok(_), q) => {
                assert(q.pending.take(p.pending.len() as int) =~= p.pending);
                if p.pending.len() < q.pending.len() {
                    law_fill_adds(q, want);
                    let end = q.fill(want).1;
                    assert(end.pending.take(p.pending.len() as int) =~= end.pending.take(
                        q.pending.len() as int,
                    ).take(p.pending.len() as int));
                } else if let (Ok(f), _) = frame(p.bits, p.info) {
                    lemma_frame_size(p.bits, p.info);
                    if p.info.channels > 0 {
                        assert(f.size * p.info.channels > 0) by (nonlinear_arith)
                            requires
                                f.size >= 1,
                                p.info.channels > 0,
                        ;
                    }
                }
            },
            (Err(_), q) => {
                assert(q.pending.take(p.pending.len() as int) =~= p.pending);
            },
        }
    }
}

/// Nothing is lost between chunks: a chunk and what stays pending behind it are what
/// was pending after filling up. It has whole frames, as many as are pending and at
/// most 4096, and comes wherever there is one.
pub proof fn law_chunk_cut(p: Player)
    requires
        p.info.channels >= 1,
    ensures
        ({
            let ch = p.info.channels as nat;
            let (filled, f) = p.fill(4096 * ch);
            let (r, q) = p.next();
            match filled {
                Err(e) => r == Err::<Option<Seq<i64>>, Fault>(e) && q == f,
                Ok(_) => match r {
                    Ok(Some(c)) => {
                        &&& c + q.pending == f.pending
                        &&& c.len() % ch == 0
                        &&& 0 < c.len() <= 4096 * ch
                        &&& q.pending.len() < ch || c.len() == 4096 * ch
                        &&& q.bits == f.bits
                        &&& q.done == f.done
                    },
                    Ok(None) => f.pending.len() < ch && q == f,
                    Err(_) => false,
                },
            }
        }),
{
    let ch = p.info.channels as int;
    let (filled, f) = p.fill(4096 * p.info.channels as nat);
    if filled is Ok {
        let want = 4096 * ch;
        let most = if f.pending.len() < want {
            f.pending.len() as int
        } else {
            want
        };
        vstd::arithmetic::div_mod::lemma_fundamental_div_mod(most, ch);
        vstd::arithmetic::div_mod::lemma_mod_bound(most, ch);
        let take = most - most % ch;
        assert(take == (most / ch) * ch) by (nonlinear_arith)
            requires
                take == most - most % ch,
                most == ch * (most / ch) + most % ch,
        ;
        lemma_fundamental_div_mod_converse(take, ch, most / ch, 0);
        lemma_fundamental_div_mod_converse(want, ch, 4096, 0);
        assert(f.pending.take(take) + f.pending.skip(take) =~= f.pending);
    }
}

} // verus!
