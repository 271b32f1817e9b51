//! Opus files as a writer lays them out, and what opening, reading and seeking in them
//! come to.

use crate::bytes::{law_low_first_read, lemma_stands_parts, low_first, stands};
use crate::decoder::{routed, Route};
use crate::error::Fault;
use crate::ogg_opus::{
    capture_pattern, cut, flat, gives, law_packets, lengths, looks_like, opus_head, page_at, points_from,
    run_of_pages, all_lacing, all_segments, OggSeekPoint, Page, Stream,
};
use crate::opus::{
    first_at, head_of, is_header, next_audio, opened, opus_tags, probed_rate, Session,
};
use vstd::prelude::*;

verus! {

/// The distance of two numbers.
pub open spec fn apart(a: int, b: int) -> int {
    if a < b {
        b - a
    } else {
        a - b
    }
}

/// Whether packets can be decoded to a sample rate.
pub open spec fn decodable(rate: int) -> bool {
    rate == 8_000 || rate == 12_000 || rate == 16_000 || rate == 24_000 || rate == 48_000
}

/// Whether `n` samples at a rate last as long as `samples` at 48 kHz, to the nearest
/// sample.
pub open spec fn lasts(n: int, rate: int, samples: int) -> bool {
    2 * apart(n * 48_000, samples * rate) <= 48_000
}

/// Whether these are the places of a file that can be sought to.
pub open spec fn known_points(s: Session, points: Seq<OggSeekPoint>) -> bool {
    match s.index {
        Some(known) => known == points,
        None => points_from(s.stream.data, 0, None, 0, Seq::empty()).0 == Ok::<
            Seq<OggSeekPoint>,
            Fault,
        >(points),
    }
}

proof fn lemma_first_at(points: Seq<OggSeekPoint>, granule: u64, k: int, i: int)
    requires
        0 <= i <= k < points.len(),
        points[k].granule_position >= granule,
        forall|j: int| 0 <= j < k ==> (#[trigger] points[j]).granule_position < granule,
    ensures
        first_at(points, granule, i) == Some(points[k]),
    decreases k - i,
{
    if i < k {
        lemma_first_at(points, granule, k, i + 1);
    }
}

proof fn lemma_none_at(points: Seq<OggSeekPoint>, granule: u64, i: int)
    requires
        0 <= i <= points.len(),
        forall|j: int|
            0 <= j < points.len() ==> (#[trigger] points[j]).granule_position < granule,
    ensures
        first_at(points, granule, i) is None,
    decreases points.len() - i,
{
    if i < points.len() {
        lemma_none_at(points, granule, i + 1);
    }
}

/// A seek starts at the first page that ends at the position or behind it. What is
/// then passed over lasts, at the rate of the decoder, as long as it takes at 48 kHz
/// from the start of the page to the position, to the nearest sample. Nothing else is
/// dropped.
pub proof fn law_seek_time(
    s: Session,
    granule: u64,
    from_start: nat,
    points: Seq<OggSeekPoint>,
    k: int,
)
    requires
        decodable(s.rate as int),
        known_points(s, points),
        0 <= k < points.len(),
        points[k].granule_position >= granule,
        forall|j: int| 0 <= j < k ==> (#[trigger] points[j]).granule_position < granule,
    ensures
        ({
            let (r, t) = s.sought(granule, from_start);
            let p = points[k];
            &&& r is Ok
            &&& granule >= p.prev_granule ==> lasts(
                r->Ok_0 as int,
                s.rate as int,
                granule - p.prev_granule,
            )
            &&& granule < p.prev_granule ==> r->Ok_0 == 0
            &&& t.stream.data == s.stream.data
            &&& t.stream.pos == p.file_offset
            &&& t.stream.serial is None
            &&& t.stream.pending.len() == 0
            &&& t.stream.queue.len() == 0
            &&& t.to_skip == 0
            &&& t.rate == s.rate
            &&& t.channels == s.channels
            &&& t.pre_skip == s.pre_skip
            &&& t.index == Some(points)
        }),
{
    lemma_first_at(points, granule, k, 0);
    let p = points[k];
    if granule > p.prev_granule {
        let a = (granule - p.prev_granule) * s.rate;
        assert(a >= 0) by (nonlinear_arith)
            requires
                a == (granule - p.prev_granule) * s.rate,
                granule > p.prev_granule,
        ;
    } else {
        assert((0 * s.rate + 24_000) / 48_000 == 0);
    }
}

/// Where no page ends at the position or behind it, a seek starts over: behind the
/// header, with the start of the stream to be dropped, and with what is asked for from
/// the start to be passed over.
pub proof fn law_seek_over(s: Session, granule: u64, from_start: nat, points: Seq<OggSeekPoint>)
    requires
        known_points(s, points),
        forall|j: int|
            0 <= j < points.len() ==> (#[trigger] points[j]).granule_position < granule,
    ensures
        ({
            let (r, t) = s.sought(granule, from_start);
            let start = Stream {
                data: s.stream.data,
                pos: 0,
                serial: None,
                pending: Seq::empty(),
                queue: Seq::empty(),
            };
            match start.next_packet() {
                (Ok(Some(head)), after) => head_of(head) is Ok ==> {
                    &&& r == Ok::<nat, Fault>(from_start)
                    &&& t == (Session {
                        stream: after,
                        to_skip: s.pre_skip,
                        index: Some(points),
                        ..s
                    })
                },
                _ => r is Err,
            }
        }),
{
    lemma_none_at(points, granule, 0);
}

/// The header of a stream as it is written: the channels, the samples to drop at the
/// start, the sample rate before encoding and the gain, with the version and the kind of
/// the mapping of channels.
pub open spec fn any_head_row(
    version: u8,
    mapping: u8,
    rate: nat,
    channels: u8,
    pre_skip: nat,
    gain: nat,
) -> Seq<u8> {
    seq![0x4Fu8, 0x70u8, 0x75u8, 0x73u8, 0x48u8, 0x65u8, 0x61u8, 0x64u8, version, channels] + (
    low_first(pre_skip, 2) + (low_first(rate, 4) + (low_first(gain, 2) + seq![mapping])))
}

/// The header of the first version, with the plain mapping.
pub open spec fn head_row(rate: nat, channels: u8, pre_skip: nat, gain: nat) -> Seq<u8> {
    any_head_row(1, 0, rate, channels, pre_skip, gain)
}

/// The header that is written is read; one of another version or with another mapping is
/// refused.
pub proof fn law_head_read(
    b: Seq<u8>,
    version: u8,
    mapping: u8,
    rate: nat,
    channels: u8,
    pre_skip: nat,
    gain: nat,
)
    requires
        stands(b, 0, any_head_row(version, mapping, rate, channels, pre_skip, gain)),
        rate < 0x1_0000_0000,
        pre_skip < 0x1_0000,
    ensures
        version == 1 && mapping == 0 ==> head_of(b) == Ok::<(u32, u8, u16), Fault>(
            (rate as u32, channels, pre_skip as u16),
        ),
        version != 1 || mapping != 0 ==> head_of(b) is Err,
{
    let name = seq![
        0x4Fu8,
        0x70u8,
        0x75u8,
        0x73u8,
        0x48u8,
        0x65u8,
        0x61u8,
        0x64u8,
        version,
        channels,
    ];
    let d = seq![mapping];
    let c = low_first(gain, 2) + d;
    let rest = low_first(rate, 4) + c;
    law_low_first_read(b, 10, pre_skip);
    law_low_first_read(b, 12, rate);
    law_low_first_read(b, 16, gain);
    lemma_stands_parts(b, 0, name, low_first(pre_skip, 2) + rest);
    lemma_stands_parts(b, 10, low_first(pre_skip, 2), rest);
    lemma_stands_parts(b, 12, low_first(rate, 4), c);
    lemma_stands_parts(b, 16, low_first(gain, 2), d);
    assert(b[18int + 0] == d[0]);
    assert forall|j: int| 0 <= j < 10 implies b[j] == #[trigger] name[j] by {
        assert(b[0 + j] == name[j]);
    }
    assert(name[8] == version && name[9] == channels);
    assert(b[8] == name[8] && b[9] == name[9]);
    assert forall|j: int| 0 <= j < 8 implies b.subrange(0, 8)[j] == opus_head()[j] by {
        assert(b[j] == name[j]);
    }
    assert(b.subrange(0, 8) =~= opus_head());
}

/// A file whose first packet is a header that is written opens: packets are decoded to
/// the rate before encoding where there is a decoder for it, and else to 48 kHz. What is
/// dropped at the start lasts as long as the header says, to the nearest sample.
pub proof fn law_opened(data: Seq<u8>, rate: nat, channels: u8, pre_skip: nat, gain: nat)
    requires
        ({
            let start = Stream {
                data,
                pos: 0,
                serial: None,
                pending: Seq::empty(),
                queue: Seq::empty(),
            };
            &&& start.next_packet().0 matches Ok(Some(p))
            &&& stands(p, 0, head_row(rate, channels, pre_skip, gain))
        }),
        rate < 0x1_0000_0000,
        pre_skip < 0x1_0000,
    ensures
        match opened(data) {
            Ok(s) => {
                &&& 1 <= channels <= 2
                &&& s.channels == channels
                &&& s.rate == (if decodable(rate as int) {
                    rate as int
                } else {
                    48_000
                })
                &&& lasts(s.pre_skip as int, s.rate as int, pre_skip as int)
                &&& s.to_skip == s.pre_skip
                &&& s.index is None
                &&& s.stream.data == data
                &&& s.stream == (Stream {
                    data,
                    pos: 0,
                    serial: None,
                    pending: Seq::empty(),
                    queue: Seq::empty(),
                }).next_packet().1
            },
            Err(_) => channels == 0 || channels > 2,
        },
{
    let start = Stream {
        data,
        pos: 0,
        serial: None,
        pending: Seq::empty(),
        queue: Seq::empty(),
    };
    let p = start.next_packet().0->Ok_0.unwrap();
    law_head_read(p, 1, 0, rate, channels, pre_skip, gain);
    crate::opus::lemma_packet_progress(start);
}

/// A page as it is written: whether it goes on with a packet, other flags, the position
/// at its end, its stream, its number, its checksum, the lengths of its segments, and
/// these.
pub struct Written {
    /// Whether it begins in the middle of a packet.
    pub continued: bool,
    /// The other flags.
    pub flags: nat,
    /// The position in the stream at its end.
    pub granule: u64,
    /// The stream.
    pub serial: u32,
    /// Its number and its checksum.
    pub number: Seq<u8>,
    /// The lengths of its segments.
    pub lacing: Seq<u8>,
    /// Its segments.
    pub bytes: Seq<u8>,
}

impl Written {
    /// Whether it can be written.
    pub open spec fn fits(self) -> bool {
        &&& self.flags < 128
        &&& self.number.len() == 8
        &&& self.lacing.len() < 256
        &&& self.bytes.len() == lengths(self.lacing, self.lacing.len())
    }

    /// The bytes of the page.
    pub open spec fn row(self) -> Seq<u8> {
        seq![
            0x4Fu8,
            0x67u8,
            0x67u8,
            0x53u8,
            0u8,
            (2 * self.flags + (if self.continued {
                1int
            } else {
                0
            })) as u8,
        ] + (low_first(self.granule as nat, 8) + (low_first(self.serial as nat, 4) + (self.number
            + (seq![self.lacing.len() as u8] + (self.lacing + self.bytes)))))
    }

    /// Its length.
    pub open spec fn size(self) -> nat {
        27 + self.lacing.len() + self.bytes.len()
    }
}

/// A page that is written is read, and the next one is looked for behind it.
pub proof fn law_page_read(b: Seq<u8>, pos: int, w: Written, skip: bool)
    requires
        0 <= pos,
        w.fits(),
        stands(b, pos, w.row()),
    ensures
        page_at(b, pos, skip) == (
            Ok::<Option<Page>, Fault>(
                Some(
                    Page {
                        continued: w.continued,
                        granule: w.granule,
                        serial: w.serial,
                        lacing: w.lacing,
                        payload: pos + 27 + w.lacing.len(),
                    },
                ),
            ),
            pos + w.size(),
        ),
        b.subrange(pos + 27 + w.lacing.len(), pos + w.size()) == w.bytes,
        w.row().len() == w.size(),
{
    let flags = 2 * w.flags + (if w.continued {
        1int
    } else {
        0
    });
    let name = seq![0x4Fu8, 0x67u8, 0x67u8, 0x53u8, 0u8, flags as u8];
    let count = seq![w.lacing.len() as u8];
    let tail = w.lacing + w.bytes;
    let c = count + tail;
    let d = w.number + c;
    let e = low_first(w.serial as nat, 4) + d;
    law_low_first_read(b, pos + 6, w.granule as nat);
    law_low_first_read(b, pos + 14, w.serial as nat);
    lemma_stands_parts(b, pos, name, low_first(w.granule as nat, 8) + e);
    lemma_stands_parts(b, pos + 6, low_first(w.granule as nat, 8), e);
    lemma_stands_parts(b, pos + 14, low_first(w.serial as nat, 4), d);
    lemma_stands_parts(b, pos + 18, w.number, c);
    lemma_stands_parts(b, pos + 26, count, tail);
    lemma_stands_parts(b, pos + 27, w.lacing, w.bytes);
    assert(b[pos + 26 + 0] == count[0]);
    assert(name[4] == 0 && name[5] == flags);
    assert(b[pos + 4] == name[4] && b[pos + 5] == name[5]);
    assert forall|j: int| 0 <= j < 4 implies b.subrange(pos, pos + 4)[j]
        == capture_pattern()[j] by {
        assert(b[pos + j] == name[j]);
    }
    assert(b.subrange(pos, pos + 4) =~= capture_pattern());
    let n = w.lacing.len() as int;
    assert forall|j: int| 0 <= j < n implies b.subrange(pos + 27, pos + 27 + n)[j]
        == w.lacing[j] by {
        assert(b[pos + 27 + j] == w.lacing[j]);
    }
    assert(b.subrange(pos + 27, pos + 27 + n) =~= w.lacing);
    let m = w.bytes.len() as int;
    assert forall|j: int| 0 <= j < m implies b.subrange(pos + 27 + n, pos + 27 + n + m)[j]
        == w.bytes[j] by {
        assert(b[pos + 27 + n + j] == w.bytes[j]);
    }
    assert(b.subrange(pos + 27 + n, pos + 27 + n + m) =~= w.bytes);
}

/// The bytes of pages, one after the other.
pub open spec fn rows(ws: Seq<Written>) -> Seq<u8>
    decreases ws.len(),
{
    if ws.len() == 0 {
        Seq::empty()
    } else {
        rows(ws.drop_last()) + ws.last().row()
    }
}

/// Whether all pages can be written.
pub open spec fn all_fit(ws: Seq<Written>) -> bool {
    forall|i: int| 0 <= i < ws.len() ==> (#[trigger] ws[i]).fits()
}

/// The lengths of the segments of one stream.
pub open spec fn lacing_on(ws: Seq<Written>, serial: u32) -> Seq<u8>
    decreases ws.len(),
{
    if ws.len() == 0 {
        Seq::empty()
    } else if ws.last().serial == serial {
        lacing_on(ws.drop_last(), serial) + ws.last().lacing
    } else {
        lacing_on(ws.drop_last(), serial)
    }
}

/// The segments of one stream.
pub open spec fn bytes_on(ws: Seq<Written>, serial: u32) -> Seq<u8>
    decreases ws.len(),
{
    if ws.len() == 0 {
        Seq::empty()
    } else if ws.last().serial == serial {
        bytes_on(ws.drop_last(), serial) + ws.last().bytes
    } else {
        bytes_on(ws.drop_last(), serial)
    }
}

/// The lengths of the segments of a packet: full ones, and one that is not.
pub open spec fn lace(len: nat) -> Seq<u8> {
    Seq::new(len / 255, |i: int| 255u8).push((len % 255) as u8)
}

/// The lengths of the segments of packets.
pub open spec fn laces(packets: Seq<Seq<u8>>) -> Seq<u8>
    decreases packets.len(),
{
    if packets.len() == 0 {
        Seq::empty()
    } else {
        laces(packets.drop_last()) + lace(packets.last().len())
    }
}

proof fn lemma_full(part: Seq<u8>, n: nat, bytes: Seq<u8>)
    requires
        bytes.len() == 255 * n,
    ensures
        cut(part, Seq::new(n, |i: int| 255u8), bytes) == (Seq::<Seq<u8>>::empty(), part + bytes),
        lengths(Seq::new(n, |i: int| 255u8), n) == 255 * n,
    decreases n,
{
    let l = Seq::new(n, |i: int| 255u8);
    if n == 0 {
        assert(part + bytes =~= part);
    } else {
        let m = (n - 1) as nat;
        let before = Seq::new(m, |i: int| 255u8);
        assert(l.drop_last() =~= before);
        let start = bytes.len() - 255;
        lemma_full(part, m, bytes.take(start));
        assert((part + bytes.take(start)) + bytes.skip(start) =~= part + bytes);
        lemma_same(l, before, m);
    }
}

proof fn lemma_same(a: Seq<u8>, b: Seq<u8>, n: nat)
    requires
        n <= a.len(),
        n <= b.len(),
        forall|i: int| 0 <= i < n ==> a[i] == b[i],
    ensures
        lengths(a, n) == lengths(b, n),
    decreases n,
{
    if n > 0 {
        lemma_same(a, b, (n - 1) as nat);
    }
}

proof fn lemma_lace(packet: Seq<u8>)
    ensures
        cut(Seq::empty(), lace(packet.len()), packet) == (seq![packet], Seq::<u8>::empty()),
        lengths(lace(packet.len()), lace(packet.len()).len()) == packet.len(),
{
    let n = packet.len() / 255;
    let full = Seq::new(n, |i: int| 255u8);
    let l = lace(packet.len());
    assert(l.drop_last() =~= full);
    let start = packet.len() - l.last();
    lemma_full(Seq::empty(), n, packet.take(start));
    assert((Seq::<u8>::empty() + packet.take(start)) + packet.skip(start) =~= packet);
    assert(Seq::<Seq<u8>>::empty().push(packet) =~= seq![packet]);
    lemma_same(l, full, n);
}

/// Packets that are cut into segments as Ogg has it are put together again.
pub proof fn law_laces_cut(packets: Seq<Seq<u8>>)
    ensures
        cut(Seq::empty(), laces(packets), flat(packets)) == (packets, Seq::<u8>::empty()),
        flat(packets).len() == lengths(laces(packets), laces(packets).len()),
    decreases packets.len(),
{
    if packets.len() == 0 {
        assert(packets =~= Seq::empty());
    } else {
        let before = packets.drop_last();
        let last = packets.last();
        law_laces_cut(before);
        lemma_lace(last);
        crate::ogg_opus::lemma_cut_more(
            Seq::empty(),
            laces(before),
            flat(before),
            lace(last.len()),
            last,
        );
        crate::ogg_opus::lemma_lengths_join(laces(before), lace(last.len()));
        assert(before + seq![last] =~= packets);
    }
}

/// The page that a page is read as, where it starts at `pos`.
pub open spec fn read_as(w: Written, pos: int) -> Page {
    Page {
        continued: w.continued,
        granule: w.granule,
        serial: w.serial,
        lacing: w.lacing,
        payload: pos + 27 + w.lacing.len(),
    }
}

/// The pages that pages are read as.
pub open spec fn all_read_as(ws: Seq<Written>, from: int) -> Seq<Page> {
    Seq::new((ws.len() - from) as nat, |i: int| read_as(ws[from + i], rows(ws.take(from + i)).len() as int))
}

proof fn lemma_row_at(ws: Seq<Written>, i: int, skip: bool)
    requires
        all_fit(ws),
        0 <= i < ws.len(),
    ensures
        page_at(rows(ws), rows(ws.take(i)).len() as int, skip) == (
            Ok::<Option<Page>, Fault>(Some(read_as(ws[i], rows(ws.take(i)).len() as int))),
            rows(ws.take(i + 1)).len() as int,
        ),
        rows(ws).subrange(
            (rows(ws.take(i)).len() + 27 + ws[i].lacing.len()) as int,
            rows(ws.take(i + 1)).len() as int,
        ) == ws[i].bytes,
        rows(ws.take(i + 1)).len() <= rows(ws).len(),
        rows(ws.take(i + 1)).len() == rows(ws.take(i)).len() + ws[i].size(),
        ws[i].bytes.len() == lengths(ws[i].lacing, ws[i].lacing.len()),
{
    let pos = rows(ws.take(i)).len() as int;
    lemma_prefix(ws, i + 1);
    assert(ws.take(i + 1).drop_last() =~= ws.take(i));
    assert(ws.take(i + 1).last() == ws[i]);
    let front = rows(ws.take(i + 1));
    assert(front == rows(ws.take(i)) + ws[i].row());
    let row = ws[i].row();
    assert forall|j: int| 0 <= j < row.len() implies rows(ws)[pos + j] == #[trigger] row[j] by {
        assert(front[pos + j] == row[j]);
    }
    assert(stands(rows(ws), pos, row));
    assert(ws[i].fits());
    law_page_read(rows(ws), pos, ws[i], skip);
}

proof fn lemma_prefix(ws: Seq<Written>, i: int)
    requires
        0 <= i <= ws.len(),
    ensures
        rows(ws.take(i)).len() <= rows(ws).len(),
        forall|j: int|
            0 <= j < rows(ws.take(i)).len() ==> rows(ws)[j] == #[trigger] rows(ws.take(i))[j],
    decreases ws.len(),
{
    if i == ws.len() {
        assert(ws.take(i) =~= ws);
    } else {
        let before = ws.drop_last();
        lemma_prefix(before, i);
        assert(before.take(i) =~= ws.take(i));
    }
}

proof fn lemma_run_read(ws: Seq<Written>, i: int)
    requires
        all_fit(ws),
        0 <= i <= ws.len(),
    ensures
        run_of_pages(rows(ws), rows(ws.take(i)).len() as int, all_read_as(ws, i)),
    decreases ws.len() - i,
{
    let pages = all_read_as(ws, i);
    if i == ws.len() {
        assert(ws.take(i) =~= ws);
    } else {
        lemma_row_at(ws, i, false);
        lemma_run_read(ws, i + 1);
        assert(pages.drop_first() =~= all_read_as(ws, i + 1));
    }
}

proof fn lemma_lacing_on(ws: Seq<Written>, i: int, serial: u32)
    requires
        all_fit(ws),
        0 <= i <= ws.len(),
    ensures
        lacing_on(ws, serial) == lacing_on(ws.take(i), serial) + all_lacing(
            all_read_as(ws, i),
            serial,
        ),
    decreases ws.len() - i,
{
    let pages = all_read_as(ws, i);
    let front = lacing_on(ws.take(i), serial);
    if i == ws.len() {
        assert(ws.take(i) =~= ws);
        assert(front + Seq::<u8>::empty() =~= front);
    } else {
        lemma_lacing_on(ws, i + 1, serial);
        let later = all_read_as(ws, i + 1);
        assert(pages.drop_first() =~= later);
        assert(pages[0].lacing == ws[i].lacing && pages[0].serial == ws[i].serial);
        assert(ws.take(i + 1).drop_last() =~= ws.take(i));
        assert(ws.take(i + 1).last() == ws[i]);
        let rest = all_lacing(later, serial);
        assert((front + ws[i].lacing) + rest =~= front + (ws[i].lacing + rest));
    }
}

proof fn lemma_join(a: Seq<u8>, b: Seq<u8>, c: Seq<u8>)
    ensures
        (a + b) + c == a + (b + c),
{
    assert((a + b) + c =~= a + (b + c));
}

#[verifier::spinoff_prover]
#[verifier::rlimit(60)]
proof fn lemma_bytes_on(ws: Seq<Written>, i: int, serial: u32)
    requires
        all_fit(ws),
        0 <= i <= ws.len(),
    ensures
        bytes_on(ws, serial) == bytes_on(ws.take(i), serial) + all_segments(
            rows(ws),
            all_read_as(ws, i),
            serial,
        ),
    decreases ws.len() - i,
{
    let pages = all_read_as(ws, i);
    let front = bytes_on(ws.take(i), serial);
    if i == ws.len() {
        assert(ws.take(i) =~= ws);
        assert(front + Seq::<u8>::empty() =~= front);
    } else {
        lemma_bytes_on(ws, i + 1, serial);
        let later = all_read_as(ws, i + 1);
        assert(pages.drop_first() =~= later);
        let p = pages[0];
        assert(p.lacing == ws[i].lacing && p.serial == ws[i].serial);
        assert(ws.take(i + 1).drop_last() =~= ws.take(i));
        assert(ws.take(i + 1).last() == ws[i]);
        assert(rows(ws).subrange(p.payload, p.payload + lengths(p.lacing, p.lacing.len()))
            == ws[i].bytes) by {
            lemma_row_at(ws, i, false);
            assert(p == read_as(ws[i], rows(ws.take(i)).len() as int));
        }
        let rest = all_segments(rows(ws), later, serial);
        lemma_join(front, ws[i].bytes, rest);
    }
}

/// A file that is written is read: whatever pages the segments of its packets are spread
/// over, and whatever other streams have pages between them, reading gives the packets
/// of the stream of the first page in order, and then the end.
pub proof fn law_file_read(ws: Seq<Written>, packets: Seq<Seq<u8>>)
    requires
        ws.len() > 0,
        all_fit(ws),
        lacing_on(ws, ws[0].serial) == laces(packets),
        bytes_on(ws, ws[0].serial) == flat(packets),
    ensures
        gives(
            Stream {
                data: rows(ws),
                pos: 0,
                serial: None,
                pending: Seq::empty(),
                queue: Seq::empty(),
            },
            packets,
            Ok::<Option<Seq<u8>>, Fault>(None),
        ),
{
    let serial = ws[0].serial;
    let s = Stream {
        data: rows(ws),
        pos: 0,
        serial: None,
        pending: Seq::empty(),
        queue: Seq::empty(),
    };
    let pages = all_read_as(ws, 0);
    assert(ws.take(0) =~= Seq::empty());
    lemma_run_read(ws, 0);
    lemma_lacing_on(ws, 0, serial);
    lemma_bytes_on(ws, 0, serial);
    assert(lacing_on(ws.take(0), serial) + all_lacing(pages, serial) =~= all_lacing(pages, serial));
    assert(bytes_on(ws.take(0), serial) + all_segments(rows(ws), pages, serial) =~= all_segments(
        rows(ws),
        pages,
        serial,
    ));
    law_packets(s, serial, pages);
    law_laces_cut(packets);
}

/// The position at the end of the last page of a stream, zero where it has none.
pub open spec fn last_granule(ws: Seq<Written>, serial: u32) -> u64
    decreases ws.len(),
{
    if ws.len() == 0 {
        0
    } else if ws.last().serial == serial {
        ws.last().granule
    } else {
        last_granule(ws.drop_last(), serial)
    }
}

/// The places that can be sought to: the pages of a stream that begin with a packet,
/// each with the positions at its end and at its start.
pub open spec fn places(ws: Seq<Written>, serial: u32) -> Seq<OggSeekPoint>
    decreases ws.len(),
{
    if ws.len() == 0 {
        Seq::empty()
    } else {
        let before = ws.drop_last();
        if ws.last().serial == serial && !ws.last().continued {
            places(before, serial).push(
                OggSeekPoint {
                    granule_position: ws.last().granule,
                    file_offset: rows(before).len() as u64,
                    prev_granule: last_granule(before, serial),
                },
            )
        } else {
            places(before, serial)
        }
    }
}

proof fn lemma_points(ws: Seq<Written>, i: int, serial: u32)
    requires
        all_fit(ws),
        0 < i <= ws.len(),
    ensures
        points_from(
            rows(ws),
            rows(ws.take(i)).len() as int,
            Some(serial),
            last_granule(ws.take(i), serial),
            places(ws.take(i), serial),
        ).0 == Ok::<Seq<OggSeekPoint>, Fault>(places(ws, serial)),
    decreases ws.len() - i,
{
    if i == ws.len() {
        assert(ws.take(i) =~= ws);
    } else {
        lemma_row_at(ws, i, true);
        lemma_points(ws, i + 1, serial);
        assert(ws.take(i + 1).drop_last() =~= ws.take(i));
        assert(ws.take(i + 1).last() == ws[i]);
    }
}

/// The places that are found in a file are its pages, of the stream of the first, that
/// begin with a packet. Each is where its page is, and the position at its start is that
/// at the end of the page of the stream before.
pub proof fn law_points_read(ws: Seq<Written>)
    requires
        all_fit(ws),
    ensures
        points_from(rows(ws), 0, None, 0, Seq::empty()).0 == Ok::<Seq<OggSeekPoint>, Fault>(
            if ws.len() == 0 {
                Seq::empty()
            } else {
                places(ws, ws[0].serial)
            },
        ),
{
    if ws.len() > 0 {
        let serial = ws[0].serial;
        lemma_row_at(ws, 0, true);
        assert(ws.take(0) =~= Seq::empty());
        assert(ws.take(1).drop_last() =~= Seq::empty());
        assert(ws.take(1).last() == ws[0]);
        reveal_with_fuel(places, 2);
        reveal_with_fuel(last_granule, 2);
        assert(places(ws.take(0), serial) == Seq::<OggSeekPoint>::empty());
        lemma_points(ws, 1, serial);
        assert(rows(ws.take(0)).len() == 0);
    }
}

/// Whether a packet begins as the two headers do.
pub open spec fn heads(p: Seq<u8>) -> bool {
    &&& p.len() >= 8
    &&& p[0] == 0x4F && p[1] == 0x70 && p[2] == 0x75 && p[3] == 0x73
    &&& p[4] == 0x48 && p[5] == 0x65 && p[6] == 0x61 && p[7] == 0x64 || p[4] == 0x54 && p[5] == 0x61
        && p[6] == 0x67 && p[7] == 0x73
}

/// The first packet with sound is the first one that is no header.
pub proof fn law_audio_found(
    s: Stream,
    packets: Seq<Seq<u8>>,
    end: Result<Option<Seq<u8>>, Fault>,
    k: int,
)
    requires
        gives(s, packets, end),
        0 <= k <= packets.len(),
        forall|i: int| 0 <= i < k ==> heads(#[trigger] packets[i]),
        k < packets.len() ==> !heads(packets[k]),
    ensures
        k < packets.len() ==> next_audio(s).0 == Ok::<Option<Seq<u8>>, Fault>(Some(packets[k])),
        k == packets.len() && (end is Err || end == Ok::<Option<Seq<u8>>, Fault>(None))
            ==> next_audio(s).0 == end,
    decreases packets.len(),
{
    if packets.len() > 0 {
        lemma_heads(packets[0]);
        if k > 0 {
            assert(heads(packets[0]));
            let later = packets.drop_first();
            let t = s.next_packet().1;
            assert forall|i: int| 0 <= i < k - 1 implies heads(#[trigger] later[i]) by {
                assert(later[i] == packets[i + 1]);
            }
            law_audio_found(t, later, end, k - 1);
        }
    }
}

proof fn lemma_heads(p: Seq<u8>)
    ensures
        is_header(p) <==> heads(p),
{
    if p.len() >= 8 {
        let t = p.subrange(0, 8);
        assert(t =~= opus_head() <==> (p[0] == 0x4F && p[1] == 0x70 && p[2] == 0x75 && p[3] == 0x73
            && p[4] == 0x48 && p[5] == 0x65 && p[6] == 0x61 && p[7] == 0x64)) by {
            if t == opus_head() {
                assert(t[0] == 0x4F && t[1] == 0x70 && t[2] == 0x75 && t[3] == 0x73 && t[4] == 0x48
                    && t[5] == 0x65 && t[6] == 0x61 && t[7] == 0x64);
            }
        }
        assert(t =~= opus_tags() <==> (p[0] == 0x4F && p[1] == 0x70 && p[2] == 0x75 && p[3] == 0x73
            && p[4] == 0x54 && p[5] == 0x61 && p[6] == 0x67 && p[7] == 0x73)) by {
            if t == opus_tags() {
                assert(t[0] == 0x4F && t[1] == 0x70 && t[2] == 0x75 && t[3] == 0x73 && t[4] == 0x54
                    && t[5] == 0x61 && t[6] == 0x67 && t[7] == 0x73);
            }
        }
    }
}

/// A probe tells the rate that a file is decoded to, whatever its channels.
pub proof fn law_probed(data: Seq<u8>, rate: nat, channels: u8, pre_skip: nat, gain: nat)
    requires
        ({
            let start = Stream {
                data,
                pos: 0,
                serial: None,
                pending: Seq::empty(),
                queue: Seq::empty(),
            };
            &&& start.next_packet().0 matches Ok(Some(p))
            &&& stands(p, 0, head_row(rate, channels, pre_skip, gain))
        }),
        rate < 0x1_0000_0000,
        pre_skip < 0x1_0000,
    ensures
        probed_rate(data) == Some(
            (if decodable(rate as int) {
                rate as u32
            } else {
                48_000u32
            }),
        ),
        opened(data) matches Ok(s) ==> probed_rate(data) == Some(s.rate),
{
    let start = Stream {
        data,
        pos: 0,
        serial: None,
        pending: Seq::empty(),
        queue: Seq::empty(),
    };
    law_head_read(start.next_packet().0->Ok_0.unwrap(), 1, 0, rate, channels, pre_skip, gain);
}

/// A file is known by its first page where that begins with a header that is written,
/// whatever the file is called.
pub proof fn law_known_at_once(
    data: Seq<u8>,
    w: Written,
    ext: Option<Seq<char>>,
    rate: nat,
    channels: u8,
    pre_skip: nat,
    gain: nat,
)
    requires
        w.fits(),
        stands(data, 0, w.row()),
        w.lacing.len() > 0,
        w.lacing[0] >= 19,
        stands(w.bytes, 0, head_row(rate, channels, pre_skip, gain)),
    ensures
        looks_like(data),
        routed(ext, data) == Route::Opus,
{
    let n = w.lacing.len() as int;
    let head = head_row(rate, channels, pre_skip, gain);
    let name = seq![0x4Fu8, 0x70u8, 0x75u8, 0x73u8, 0x48u8, 0x65u8, 0x61u8, 0x64u8, 1u8, channels];
    law_page_read(data, 0, w, false);
    let tail = w.lacing + w.bytes;
    let c = seq![w.lacing.len() as u8] + tail;
    let d = w.number + c;
    let e = low_first(w.serial as nat, 4) + d;
    law_low_first_read(data, 6, w.granule as nat);
    law_low_first_read(data, 14, w.serial as nat);
    let front = w.row().take(6);
    assert(w.row() =~= front + (low_first(w.granule as nat, 8) + e));
    lemma_stands_parts(data, 0, front, low_first(w.granule as nat, 8) + e);
    lemma_stands_parts(data, 6, low_first(w.granule as nat, 8), e);
    lemma_stands_parts(data, 14, low_first(w.serial as nat, 4), d);
    lemma_stands_parts(data, 18, w.number, c);
    lemma_stands_parts(data, 26, seq![w.lacing.len() as u8], tail);
    lemma_stands_parts(data, 27, w.lacing, w.bytes);
    assert(data[26int + 0] == seq![w.lacing.len() as u8][0]);
    assert(data[27int + 0] == w.lacing[0]);
    assert forall|j: int| 0 <= j < 4 implies data.subrange(0, 4)[j] == capture_pattern()[j] by {
        assert(data[0 + j] == front[j]);
        assert(front[j] == w.row()[j]);
    }
    assert(data.subrange(0, 4) =~= capture_pattern());
    assert forall|j: int| 0 <= j < 8 implies data.subrange(27 + n, 27 + n + 8)[j]
        == opus_head()[j] by {
        assert(head[j] == name[j]);
        assert(w.bytes[0 + j] == head[j]);
        assert(data[27 + n + j] == w.bytes[j]);
    }
    assert(data.subrange(27 + n, 27 + n + 8) =~= opus_head());
}

} // verus!
