//! Ogg: pages, and the packets that they carry in segments.

use crate::bytes::{has_at, le32, le64, matches_at, read_le32, read_le64};
use crate::error::{short_file, DecodeError, Fault};
use crate::text::{decimal, decimal_text};
use vstd::prelude::*;

verus! {

/// Bytes of the header of a page in front of its segment table.
pub const PAGE_HEADER_LEN: u64 = 27;

/// The bytes of "OggS".
pub open spec fn capture_pattern() -> Seq<u8> {
    seq![0x4Fu8, 0x67u8, 0x67u8, 0x53u8]
}

/// A page.
pub struct Page {
    /// Whether it begins in the middle of a packet.
    pub continued: bool,
    /// The position in the stream at its end.
    pub granule: u64,
    /// The stream.
    pub serial: u32,
    /// The lengths of its segments.
    pub lacing: Seq<u8>,
    /// Where its segments start.
    pub payload: int,
}

/// The sum of the first `n` lengths.
pub open spec fn lengths(lacing: Seq<u8>, n: nat) -> nat
    decreases n,
{
    if n == 0 {
        0
    } else {
        lengths(lacing, (n - 1) as nat) + lacing[n - 1] as nat
    }
}

/// The page at `pos`, and the position behind it. At the end of the file there is
/// none. Where the segments are passed over, they need not all be there.
pub open spec fn page_at(b: Seq<u8>, pos: int, skip_payload: bool) -> (
    Result<Option<Page>, Fault>,
    int,
) {
    let body = pos + PAGE_HEADER_LEN;
    if body > b.len() {
        (Ok(None), pos)
    } else if !has_at(b, pos, capture_pattern()) {
        (Err(Fault::Decode("缺少 OggS 捕获模式（非 Ogg 流）"@)), body)
    } else if b[pos + 4] != 0 {
        (
            Err(
                Fault::Unsupported("Ogg 版本 "@ + decimal(b[pos + 4] as int) + " 不受支持"@),
            ),
            body,
        )
    } else {
        let count = b[pos + 26] as int;
        if body + count > b.len() {
            (Err(short_file()), b.len() as int)
        } else {
            let lacing = b.subrange(body, body + count);
            let len = lengths(lacing, lacing.len());
            let payload = body + count;
            if !skip_payload && payload + len > b.len() {
                (Err(short_file()), b.len() as int)
            } else {
                (
                    Ok(
                        Some(
                            Page {
                                continued: b[pos + 5] % 2 == 1,
                                granule: le64(b, pos + 6) as u64,
                                serial: le32(b, pos + 14) as u32,
                                lacing,
                                payload,
                            },
                        ),
                    ),
                    payload + len,
                )
            }
        }
    }
}

/// A stream being read.
#[verifier::ext_equal]
pub struct Stream {
    /// The file.
    pub data: Seq<u8>,
    /// Where the next page is.
    pub pos: int,
    /// The stream that is read, once it is known.
    pub serial: Option<u32>,
    /// The part of a packet whose end has not come.
    pub pending: Seq<u8>,
    /// Packets not given out.
    pub queue: Seq<Seq<u8>>,
}

impl Stream {
    /// The first `n` segments of a page taken in: a segment of full length goes on
    /// in the next one, a shorter one ends its packet.
    pub open spec fn with_segments(self, p: Page, n: nat) -> Stream
        decreases n,
    {
        if n == 0 {
            self
        } else {
            let before = self.with_segments(p, (n - 1) as nat);
            let start = p.payload + lengths(p.lacing, (n - 1) as nat);
            let grown = before.pending + self.data.subrange(start, start + p.lacing[n - 1]);
            if p.lacing[n - 1] < 255 {
                Stream { pending: Seq::empty(), queue: before.queue.push(grown), ..before }
            } else {
                Stream { pending: grown, ..before }
            }
        }
    }

    /// The next packet, across pages; none at the end. Only the stream of the
    /// first page is read.
    pub open spec fn next_packet(self) -> (Result<Option<Seq<u8>>, Fault>, Stream)
        decreases self.data.len() - self.pos,
    {
        if self.queue.len() > 0 {
            (Ok(Some(self.queue[0])), Stream { queue: self.queue.drop_first(), ..self })
        } else {
            match page_at(self.data, self.pos, false) {
                (Err(f), pos) => (Err(f), Stream { pos, ..self }),
                (Ok(None), pos) => if self.pending.len() == 0 {
                    (Ok(None), Stream { pos, ..self })
                } else {
                    (
                        Err(Fault::Decode("Ogg 流在包中间被截断"@)),
                        Stream { pos, ..self },
                    )
                },
                (Ok(Some(p)), pos) => if self.serial is Some && self.serial != Some(p.serial) {
                    Stream { pos, ..self }.next_packet()
                } else {
                    let s = (Stream { pos, serial: Some(p.serial), ..self }).with_segments(
                        p,
                        p.lacing.len(),
                    );
                    if s.queue.len() > 0 {
                        (Ok(Some(s.queue[0])), Stream { queue: s.queue.drop_first(), ..s })
                    } else {
                        proof {
                            lemma_segments_keep(
                                Stream { pos, serial: Some(p.serial), ..self },
                                p,
                                p.lacing.len(),
                            );
                        }
                        s.next_packet()
                    }
                },
            }
        }
    }

    /// The stream at another place, with nothing read.
    pub open spec fn moved(self, pos: int) -> Stream {
        Stream {
            data: self.data,
            pos,
            serial: None,
            pending: Seq::empty(),
            queue: Seq::empty(),
        }
    }
}

/// Taking segments in moves nothing.
pub proof fn lemma_segments_keep(s: Stream, p: Page, n: nat)
    ensures
        s.with_segments(p, n).data == s.data,
        s.with_segments(p, n).pos == s.pos,
        s.with_segments(p, n).serial == s.serial,
    decreases n,
{
    if n > 0 {
        lemma_segments_keep(s, p, (n - 1) as nat);
    }
}

/// How a packet is cut: the segments of one packet hold its bytes in order, and
/// only the last of them is shorter than full. Whatever page they lie on, they
/// are put together to the packet again.
pub proof fn law_segments_join(s: Stream, p: Page, n: nat)
    requires
        0 < n <= p.lacing.len(),
        forall|i: int| 0 <= i < n - 1 ==> p.lacing[i] == 255,
        p.lacing[n - 1] < 255,
        0 <= p.payload,
        p.payload + lengths(p.lacing, n) <= s.data.len(),
    ensures
        s.with_segments(p, n) == (Stream {
            pending: Seq::empty(),
            queue: s.queue.push(
                s.pending + s.data.subrange(p.payload, p.payload + lengths(p.lacing, n)),
            ),
            ..s
        }),
{
    lemma_full_segments(s, p, (n - 1) as nat);
    lemma_lengths_grow(p.lacing, (n - 1) as nat, n);
    let mid = p.payload + lengths(p.lacing, (n - 1) as nat);
    let end = p.payload + lengths(p.lacing, n);
    assert(s.data.subrange(p.payload, mid) + s.data.subrange(mid, end) =~= s.data.subrange(
        p.payload,
        end,
    ));
    assert((s.pending + s.data.subrange(p.payload, mid)) + s.data.subrange(mid, end)
        =~= s.pending + s.data.subrange(p.payload, end));
    assert(s.with_segments(p, n) =~= (Stream {
        pending: Seq::empty(),
        queue: s.queue.push(s.pending + s.data.subrange(p.payload, end)),
        ..s
    }));
}

/// Segments of full length only grow the packet: the next page goes on with it.
pub proof fn law_packet_crosses_page(s: Stream, p: Page, n: nat)
    requires
        n <= p.lacing.len(),
        forall|i: int| 0 <= i < n ==> p.lacing[i] == 255,
        0 <= p.payload,
        p.payload + lengths(p.lacing, n) <= s.data.len(),
    ensures
        s.with_segments(p, n) == (Stream {
            pending: s.pending + s.data.subrange(
                p.payload,
                p.payload + lengths(p.lacing, n),
            ),
            ..s
        }),
{
    lemma_full_segments(s, p, n);
}

proof fn lemma_full_segments(s: Stream, p: Page, n: nat)
    requires
        n <= p.lacing.len(),
        forall|i: int| 0 <= i < n ==> p.lacing[i] == 255,
        0 <= p.payload,
        p.payload + lengths(p.lacing, n) <= s.data.len(),
    ensures
        s.with_segments(p, n) == (Stream {
            pending: s.pending + s.data.subrange(
                p.payload,
                p.payload + lengths(p.lacing, n),
            ),
            ..s
        }),
    decreases n,
{
    let end = p.payload + lengths(p.lacing, n);
    if n == 0 {
        assert(s.data.subrange(p.payload, end) =~= Seq::empty());
        assert(s =~= (Stream { pending: s.pending + s.data.subrange(p.payload, end), ..s }));
    } else {
        lemma_lengths_grow(p.lacing, (n - 1) as nat, n);
        lemma_full_segments(s, p, (n - 1) as nat);
        let mid = p.payload + lengths(p.lacing, (n - 1) as nat);
        assert((s.pending + s.data.subrange(p.payload, mid)) + s.data.subrange(mid, end)
            =~= s.pending + s.data.subrange(p.payload, end));
        assert(s.with_segments(p, n) =~= (Stream {
            pending: s.pending + s.data.subrange(p.payload, end),
            ..s
        }));
    }
}

proof fn lemma_lengths_grow(lacing: Seq<u8>, m: nat, n: nat)
    requires
        m <= n,
    ensures
        lengths(lacing, m) <= lengths(lacing, n),
        lengths(lacing, n) <= lengths(lacing, m) + 255 * (n - m),
    decreases n,
{
    if m < n {
        lemma_lengths_grow(lacing, m, (n - 1) as nat);
    }
}

/// A row of bytes cut into packets by the lengths of its segments, behind a part
/// that is already there: a packet ends with every length below 255. The last value
/// is the part whose end has not come.
pub open spec fn cut(part: Seq<u8>, lacing: Seq<u8>, bytes: Seq<u8>) -> (Seq<Seq<u8>>, Seq<u8>)
    decreases lacing.len(),
{
    if lacing.len() == 0 {
        (Seq::empty(), part)
    } else {
        let start = bytes.len() - lacing.last();
        let (packets, rest) = cut(part, lacing.drop_last(), bytes.take(start));
        let grown = rest + bytes.skip(start);
        if lacing.last() < 255 {
            (packets.push(grown), Seq::empty())
        } else {
            (packets, grown)
        }
    }
}

/// Packets put together again.
pub open spec fn flat(packets: Seq<Seq<u8>>) -> Seq<u8>
    decreases packets.len(),
{
    if packets.len() == 0 {
        Seq::empty()
    } else {
        flat(packets.drop_last()) + packets.last()
    }
}

/// Whether these are the pages from `pos` on, up to the end of the file.
pub open spec fn run_of_pages(b: Seq<u8>, pos: int, pages: Seq<Page>) -> bool
    decreases pages.len(),
{
    let (p, next) = page_at(b, pos, false);
    if pages.len() == 0 {
        p == Ok::<Option<Page>, Fault>(None)
    } else {
        &&& p == Ok::<Option<Page>, Fault>(Some(pages[0]))
        &&& run_of_pages(b, next, pages.drop_first())
    }
}

/// The lengths of the segments of one stream on pages.
pub open spec fn all_lacing(pages: Seq<Page>, serial: u32) -> Seq<u8>
    decreases pages.len(),
{
    if pages.len() == 0 {
        Seq::empty()
    } else if pages[0].serial == serial {
        pages[0].lacing + all_lacing(pages.drop_first(), serial)
    } else {
        all_lacing(pages.drop_first(), serial)
    }
}

/// The segments of one stream on pages, put together.
pub open spec fn all_segments(b: Seq<u8>, pages: Seq<Page>, serial: u32) -> Seq<u8>
    decreases pages.len(),
{
    if pages.len() == 0 {
        Seq::empty()
    } else {
        let p = pages[0];
        let rest = all_segments(b, pages.drop_first(), serial);
        if p.serial == serial {
            b.subrange(p.payload, p.payload + lengths(p.lacing, p.lacing.len())) + rest
        } else {
            rest
        }
    }
}

/// Whether successive calls give these packets, and then this.
pub open spec fn gives(
    s: Stream,
    packets: Seq<Seq<u8>>,
    end: Result<Option<Seq<u8>>, Fault>,
) -> bool
    decreases packets.len(),
{
    let (r, t) = s.next_packet();
    if packets.len() == 0 {
        r == end
    } else {
        &&& r == Ok::<Option<Seq<u8>>, Fault>(Some(packets[0]))
        &&& gives(t, packets.drop_first(), end)
    }
}

/// What follows the last packet, if this part is left whose end has not come.
pub open spec fn after_packets(rest: Seq<u8>) -> Result<Option<Seq<u8>>, Fault> {
    if rest.len() == 0 {
        Ok(None)
    } else {
        Err(Fault::Decode("Ogg 流在包中间被截断"@))
    }
}

/// What a file gives from a page on, read to its end: the segments of the stream,
/// put together over all pages and cut after every length below 255, one packet
/// for each call and in order. Then comes the end, or an error where the last length
/// says that its packet goes on. Nothing is lost and nothing comes twice: the packets
/// and what is left are the segments again. Pages of other streams are passed over.
pub proof fn law_packets(s: Stream, serial: u32, pages: Seq<Page>)
    requires
        0 <= s.pos,
        s.pending.len() == 0,
        s.queue.len() == 0,
        s.serial == Some(serial) || s.serial is None && (pages.len() > 0 ==> pages[0].serial
            == serial),
        run_of_pages(s.data, s.pos, pages),
    ensures
        ({
            let lacing = all_lacing(pages, serial);
            let segments = all_segments(s.data, pages, serial);
            let (packets, rest) = cut(Seq::empty(), lacing, segments);
            &&& gives(s, packets, after_packets(rest))
            &&& rest.len() > 0 <==> lacing.len() > 0 && lacing.last() == 255
            &&& flat(packets) + rest == segments
        }),
{
    let lacing = all_lacing(pages, serial);
    let segments = all_segments(s.data, pages, serial);
    assert(s.pending =~= Seq::empty());
    assert(s.queue + cut(s.pending, lacing, segments).0 =~= cut(s.pending, lacing, segments).0);
    lemma_run(s, serial, pages);
    lemma_all_segments(s.data, s.pos, pages, serial);
    lemma_cut_joins(Seq::empty(), lacing, segments);
    assert(Seq::<u8>::empty() + segments =~= segments);
}

/// The same with a part of a packet and with packets that wait.
proof fn lemma_run(s: Stream, serial: u32, pages: Seq<Page>)
    requires
        0 <= s.pos,
        s.serial == Some(serial) || s.serial is None && (pages.len() > 0 ==> pages[0].serial
            == serial),
        run_of_pages(s.data, s.pos, pages),
    ensures
        ({
            let (packets, rest) = cut(
                s.pending,
                all_lacing(pages, serial),
                all_segments(s.data, pages, serial),
            );
            gives(s, s.queue + packets, after_packets(rest))
        }),
    decreases pages.len(), s.queue.len(),
{
    let lacing = all_lacing(pages, serial);
    let segments = all_segments(s.data, pages, serial);
    let (packets, rest) = cut(s.pending, lacing, segments);
    let all = s.queue + packets;
    if s.queue.len() > 0 {
        let t = Stream { queue: s.queue.drop_first(), ..s };
        lemma_run(t, serial, pages);
        assert(all.drop_first() =~= t.queue + packets);
    } else if pages.len() > 0 {
        let p = pages[0];
        let next = page_at(s.data, s.pos, false).1;
        let later = pages.drop_first();
        if p.serial != serial {
            let t = Stream { pos: next, ..s };
            lemma_run(t, serial, later);
            assert(s.next_packet() == t.next_packet());
            assert(all =~= t.queue + packets);
        } else {
            let from = Stream { pos: next, serial: Some(serial), ..s };
            let n = p.lacing.len();
            let t = from.with_segments(p, n);
            lemma_segments_keep(from, p, n);
            lemma_segments_cut(from, p, n);
            assert(p.lacing.take(n as int) =~= p.lacing);
            lemma_run(t, serial, later);
            assert(s.next_packet() == t.next_packet());
            let here = s.data.subrange(p.payload, p.payload + lengths(p.lacing, n));
            lemma_all_segments(s.data, next, later, serial);
            lemma_cut_more(
                s.pending,
                p.lacing,
                here,
                all_lacing(later, serial),
                all_segments(s.data, later, serial),
            );
            let (more, _) = cut(
                t.pending,
                all_lacing(later, serial),
                all_segments(s.data, later, serial),
            );
            assert(all =~= t.queue + more);
        }
    } else {
        assert(all =~= Seq::empty());
    }
}

/// Taking the segments of a page in is cutting them.
proof fn lemma_segments_cut(s: Stream, p: Page, n: nat)
    requires
        n <= p.lacing.len(),
        0 <= p.payload,
        p.payload + lengths(p.lacing, n) <= s.data.len(),
    ensures
        ({
            let (packets, rest) = cut(
                s.pending,
                p.lacing.take(n as int),
                s.data.subrange(p.payload, p.payload + lengths(p.lacing, n)),
            );
            &&& s.with_segments(p, n).pending == rest
            &&& s.with_segments(p, n).queue == s.queue + packets
        }),
    decreases n,
{
    if n > 0 {
        let m = (n - 1) as nat;
        lemma_segments_cut(s, p, m);
        lemma_segments_keep(s, p, m);
        let lacing = p.lacing.take(n as int);
        let bytes = s.data.subrange(p.payload, p.payload + lengths(p.lacing, n));
        let start = bytes.len() - lacing.last();
        assert(lacing.drop_last() =~= p.lacing.take(m as int));
        assert(bytes.take(start) =~= s.data.subrange(
            p.payload,
            p.payload + lengths(p.lacing, m),
        ));
        assert(bytes.skip(start) =~= s.data.subrange(
            p.payload + lengths(p.lacing, m),
            p.payload + lengths(p.lacing, n),
        ));
        let (packets, _) = cut(s.pending, lacing.drop_last(), bytes.take(start));
        let grown = s.with_segments(p, m).pending + bytes.skip(start);
        assert((s.queue + packets).push(grown) =~= s.queue + packets.push(grown));
    } else {
        assert(s.queue + Seq::<Seq<u8>>::empty() =~= s.queue);
    }
}

/// Cutting goes on where it stopped.
pub proof fn lemma_cut_more(part: Seq<u8>, l1: Seq<u8>, b1: Seq<u8>, l2: Seq<u8>, b2: Seq<u8>)
    requires
        b2.len() == lengths(l2, l2.len()),
    ensures
        ({
            let (first, rest) = cut(part, l1, b1);
            let (more, left) = cut(rest, l2, b2);
            cut(part, l1 + l2, b1 + b2) == (first + more, left)
        }),
    decreases l2.len(),
{
    let (first, rest) = cut(part, l1, b1);
    if l2.len() == 0 {
        assert(l1 + l2 =~= l1);
        assert(b1 + b2 =~= b1);
        assert(first + Seq::<Seq<u8>>::empty() =~= first);
    } else {
        let l = l1 + l2;
        let b = b1 + b2;
        let before = l2.drop_last();
        lemma_same_lengths(l2, before, before.len());
        let start = b2.len() - l2.last();
        assert(l.drop_last() =~= l1 + before);
        assert(b.take(b.len() - l.last()) =~= b1 + b2.take(start));
        assert(b.skip(b.len() - l.last()) =~= b2.skip(start));
        lemma_cut_more(part, l1, b1, before, b2.take(start));
        let (more, left) = cut(rest, before, b2.take(start));
        let grown = left + b2.skip(start);
        assert((first + more).push(grown) =~= first + more.push(grown));
    }
}

/// Packets and what is left hold all bytes in order. Something is left if the last
/// packet goes on.
proof fn lemma_cut_joins(part: Seq<u8>, lacing: Seq<u8>, bytes: Seq<u8>)
    requires
        bytes.len() == lengths(lacing, lacing.len()),
    ensures
        ({
            let (packets, rest) = cut(part, lacing, bytes);
            &&& flat(packets) + rest == part + bytes
            &&& lacing.len() > 0 ==> (rest.len() > 0 <==> lacing.last() == 255)
        }),
    decreases lacing.len(),
{
    if lacing.len() == 0 {
        assert(flat(Seq::<Seq<u8>>::empty()) + part =~= part + bytes);
    } else {
        let before = lacing.drop_last();
        lemma_same_lengths(lacing, before, before.len());
        let start = bytes.len() - lacing.last();
        lemma_cut_joins(part, before, bytes.take(start));
        let (packets, rest) = cut(part, before, bytes.take(start));
        let tail = bytes.skip(start);
        let grown = rest + tail;
        assert((flat(packets) + rest) + tail =~= part + bytes) by {
            assert((part + bytes.take(start)) + tail =~= part + bytes);
        }
        assert(flat(packets) + grown =~= (flat(packets) + rest) + tail);
        assert(packets.push(grown).drop_last() =~= packets);
        assert((flat(packets) + grown) + Seq::<u8>::empty() =~= flat(packets) + grown);
    }
}

/// There are as many bytes as the lengths say, and pages lie in the file.
proof fn lemma_all_segments(b: Seq<u8>, pos: int, pages: Seq<Page>, serial: u32)
    requires
        0 <= pos,
        run_of_pages(b, pos, pages),
    ensures
        all_segments(b, pages, serial).len() == lengths(
            all_lacing(pages, serial),
            all_lacing(pages, serial).len(),
        ),
    decreases pages.len(),
{
    if pages.len() > 0 {
        let next = page_at(b, pos, false).1;
        let later = pages.drop_first();
        lemma_all_segments(b, next, later, serial);
        if pages[0].serial == serial {
            lemma_lengths_join(pages[0].lacing, all_lacing(later, serial));
        }
    }
}

/// The sum of the first lengths rests on these only.
proof fn lemma_same_lengths(a: Seq<u8>, b: Seq<u8>, n: nat)
    requires
        n <= a.len(),
        n <= b.len(),
        forall|i: int| 0 <= i < n ==> a[i] == b[i],
    ensures
        lengths(a, n) == lengths(b, n),
    decreases n,
{
    if n > 0 {
        lemma_same_lengths(a, b, (n - 1) as nat);
    }
}

pub proof fn lemma_lengths_join(a: Seq<u8>, b: Seq<u8>)
    ensures
        lengths(a + b, (a + b).len()) == lengths(a, a.len()) + lengths(b, b.len()),
    decreases b.len(),
{
    if b.len() == 0 {
        assert(a + b =~= a);
    } else {
        let before = b.drop_last();
        lemma_lengths_join(a, before);
        lemma_same_lengths(a + b, a + before, (a + before).len());
        lemma_same_lengths(b, before, before.len());
    }
}

/// A place that can be sought to: a page that begins with a packet.
#[derive(Debug, Clone, Copy)]
pub struct OggSeekPoint {
    /// The position in the stream at the end of the page.
    pub granule_position: u64,
    /// Where the page is.
    pub file_offset: u64,
    /// The position in the stream at its start: that at the end of the page
    /// before.
    pub prev_granule: u64,
}

/// The places from `pos` on, behind those already found. The last value is where
/// the search ended.
pub open spec fn points_from(
    b: Seq<u8>,
    pos: int,
    serial: Option<u32>,
    prev: u64,
    acc: Seq<OggSeekPoint>,
) -> (Result<Seq<OggSeekPoint>, Fault>, int, Option<u32>)
    decreases
        if pos < b.len() {
            b.len() - pos
        } else {
            0
        },
{
    match page_at(b, pos, true) {
        (Err(f), pos) => (Err(f), pos, serial),
        (Ok(None), pos) => (Ok(acc), pos, serial),
        (Ok(Some(p)), next) => if serial is Some && serial != Some(p.serial) {
            points_from(b, next, serial, prev, acc)
        } else if p.continued {
            points_from(b, next, Some(p.serial), p.granule, acc)
        } else {
            points_from(
                b,
                next,
                Some(p.serial),
                p.granule,
                acc.push(
                    OggSeekPoint {
                        granule_position: p.granule,
                        file_offset: pos as u64,
                        prev_granule: prev,
                    },
                ),
            )
        },
    }
}

/// A page that was read.
pub struct OggPage {
    /// Whether it begins in the middle of a packet.
    pub continued: bool,
    /// The position in the stream at its end.
    pub granule_position: u64,
    /// The stream.
    pub serial: u32,
    /// The number of its segments.
    pub segments: usize,
    /// Where their lengths are.
    pub lacing_at: usize,
}

/// Whether a page that was read is a page of the model.
pub open spec fn same_page(w: OggPage, b: Seq<u8>, p: Page) -> bool {
    &&& w.continued == p.continued
    &&& w.granule_position == p.granule
    &&& w.serial == p.serial
    &&& w.lacing_at + w.segments <= b.len()
    &&& p.lacing == b.subrange(w.lacing_at as int, w.lacing_at + w.segments)
    &&& p.payload == w.lacing_at + w.segments
    &&& w.segments <= 255
}

/// The contents of vectors.
pub open spec fn contents(v: Seq<Vec<u8>>) -> Seq<Seq<u8>> {
    v.map_values(|p: Vec<u8>| p@)
}

/// Reads the packets of an Ogg file.
pub struct OggOpusReader {
    data: Vec<u8>,
    pos: u64,
    serial: Option<u32>,
    pending: Vec<u8>,
    packet_buf: Vec<Vec<u8>>,
}

impl View for OggOpusReader {
    type V = Stream;

    closed spec fn view(&self) -> Stream {
        Stream {
            data: self.data@,
            pos: self.pos as int,
            serial: self.serial,
            pending: self.pending@,
            queue: contents(self.packet_buf@),
        }
    }
}

impl OggOpusReader {
    /// Places in the file can be counted.
    pub closed spec fn inv(&self) -> bool {
        &&& self.data.len() <= i64::MAX
        &&& self.pos <= i64::MAX + 0x1_0000
    }

    /// Places in the file can be counted.
    pub proof fn lemma_counted(&self)
        requires
            self.inv(),
        ensures
            self@.data.len() <= i64::MAX,
            0 <= self@.pos,
    {
    }

    /// Starts reading a file. (No vector is longer than is asked here.)
    pub fn open(data: Vec<u8>) -> (r: OggOpusReader)
        requires
            data.len() <= i64::MAX,
        ensures
            r.inv(),
            r@ == (Stream {
                data: data@,
                pos: 0,
                serial: None,
                pending: Seq::empty(),
                queue: Seq::empty(),
            }),
    {
        let r: OggOpusReader = OggOpusReader {
            data,
            pos: 0,
            serial: None,
            pending: Vec::new(),
            packet_buf: Vec::new(),
        };
        assert(contents(r.packet_buf@) =~= Seq::empty());
        r
    }

    /// Goes back to the start.
    pub fn rewind(&mut self)
        requires
            old(self).inv(),
        ensures
            final(self).inv(),
            final(self)@ == old(self)@.moved(0),
    {
        self.seek_to(0);
    }

    /// Goes to a page.
    pub fn seek_to(&mut self, offset: u64)
        requires
            old(self).inv(),
            offset <= i64::MAX,
        ensures
            final(self).inv(),
            final(self)@ == old(self)@.moved(offset as int),
    {
        self.pos = offset;
        self.serial = None;
        self.pending = Vec::new();
        self.packet_buf = Vec::new();
        assert(contents(self.packet_buf@) =~= Seq::empty());
    }

    /// Reads a page.
    fn read_page(&mut self, skip_payload: bool) -> (r: Result<Option<OggPage>, DecodeError>)
        requires
            old(self).inv(),
        ensures
            final(self).inv(),
            final(self).data == old(self).data,
            final(self).serial == old(self).serial,
            final(self).pending == old(self).pending,
            final(self).packet_buf == old(self).packet_buf,
            final(self).pos == page_at(
                old(self).data@,
                old(self).pos as int,
                skip_payload,
            ).1,
            match page_at(old(self).data@, old(self).pos as int, skip_payload).0 {
                Ok(Some(p)) => {
                    &&& r matches Ok(Some(w))
                    &&& same_page(w, old(self).data@, p)
                    &&& final(self).pos == p.payload + lengths(p.lacing, p.lacing.len())
                    &&& !skip_payload ==> final(self).pos <= old(self).data.len()
                },
                Ok(None) => r matches Ok(None),
                Err(f) => r matches Err(e) && e@ == f,
            },
    {
        let total: u64 = self.data.len() as u64;
        if self.pos > total || total - self.pos < PAGE_HEADER_LEN {
            return Ok(None);
        }
        let at: usize = self.pos as usize;
        let b: &[u8] = self.data.as_slice();
        let pattern: [u8; 4] = [0x4F, 0x67, 0x67, 0x53];
        assert(pattern@ =~= capture_pattern());
        if !matches_at(b, at, pattern.as_slice()) {
            self.pos = self.pos + PAGE_HEADER_LEN;
            return Err(DecodeError::decode("缺少 OggS 捕获模式（非 Ogg 流）"));
        }
        if b[at + 4] != 0 {
            let mut text: String = "Ogg 版本 ".to_owned();
            text.append(decimal_text(b[at + 4] as i64).as_str());
            text.append(" 不受支持");
            self.pos = self.pos + PAGE_HEADER_LEN;
            return Err(DecodeError::Unsupported(text));
        }
        let segments: usize = b[at + 26] as usize;
        let lacing_at: usize = at + 27;
        if b.len() - lacing_at < segments {
            self.pos = total;
            return Err(DecodeError::short());
        }
        let ghost lacing = b@.subrange(lacing_at as int, lacing_at + segments);
        let mut len: u64 = 0;
        let mut i: usize = 0;
        while i < segments
            invariant
                i <= segments <= 255,
                lacing_at + segments <= b.len(),
                lacing == b@.subrange(lacing_at as int, lacing_at + segments),
                len == lengths(lacing, i as nat),
                len <= 255 * i,
            decreases segments - i,
        {
            len = len + b[lacing_at + i] as u64;
            i = i + 1;
        }
        let payload: u64 = (lacing_at + segments) as u64;
        if !skip_payload && total - payload < len {
            self.pos = total;
            return Err(DecodeError::short());
        }
        let page: OggPage = OggPage {
            continued: b[at + 5] % 2 == 1,
            granule_position: read_le64(b, at + 6),
            serial: read_le32(b, at + 14),
            segments,
            lacing_at,
        };
        self.pos = payload + len;
        Ok(Some(page))
    }

    /// Takes the segments of a page in.
    fn take_segments(&mut self, w: &OggPage, Ghost(p): Ghost<Page>)
        requires
            old(self).inv(),
            same_page(*w, old(self).data@, p),
            p.payload + lengths(p.lacing, p.lacing.len()) <= old(self).data.len(),
        ensures
            final(self).inv(),
            final(self)@ == old(self)@.with_segments(p, p.lacing.len()),
    {
        let mut start: usize = w.lacing_at + w.segments;
        let mut i: usize = 0;
        let ghost from = self@;
        while i < w.segments
            invariant
                self.inv(),
                from == old(self)@,
                self.data == old(self).data,
                same_page(*w, self.data@, p),
                p.payload + lengths(p.lacing, p.lacing.len()) <= self.data.len(),
                i <= w.segments,
                start == p.payload + lengths(p.lacing, i as nat),
                self@ == from.with_segments(p, i as nat),
            decreases w.segments - i,
        {
            let len: u8 = self.data[w.lacing_at + i];
            assert(len == p.lacing[i as int]);
            proof {
                lemma_lengths_grow(p.lacing, (i + 1) as nat, p.lacing.len());
                lemma_segments_keep(from, p, i as nat);
            }
            let end: usize = start + len as usize;
            let ghost before = self@;
            append_range(&mut self.pending, self.data.as_slice(), start, end);
            let ghost grown = self.pending@;
            if len < 255 {
                let mut done: Vec<u8> = Vec::new();
                std::mem::swap(&mut done, &mut self.pending);
                let ghost queue = self.packet_buf@;
                self.packet_buf.push(done);
                proof {
                    assert(self.pending@ =~= Seq::empty());
                    assert(contents(self.packet_buf@) =~= contents(queue).push(grown));
                }
            }
            assert(self@ =~= from.with_segments(p, (i + 1) as nat));
            start = end;
            i = i + 1;
        }
    }

    /// Takes the first packet out of the queue.
    fn pop(&mut self) -> (r: Option<Vec<u8>>)
        requires
            old(self).inv(),
        ensures
            final(self).inv(),
            old(self)@.queue.len() == 0 ==> r is None && final(self)@ == old(self)@,
            old(self)@.queue.len() > 0 ==> {
                &&& r matches Some(p)
                &&& p@ == old(self)@.queue[0]
                &&& final(self)@ == (Stream {
                    queue: old(self)@.queue.drop_first(),
                    ..old(self)@
                })
            },
    {
        if self.packet_buf.len() == 0 {
            return None;
        }
        let ghost before = self.packet_buf@;
        let first: Vec<u8> = self.packet_buf.remove(0);
        proof {
            assert(contents(self.packet_buf@) =~= contents(before).drop_first());
            assert(contents(before)[0] == before[0]@);
        }
        Some(first)
    }

    /// Reads the next packet; none at the end.
    pub fn next_packet(&mut self) -> (r: Result<Option<Vec<u8>>, DecodeError>)
        requires
            old(self).inv(),
        ensures
            final(self).inv(),
            final(self)@.data == old(self)@.data,
            match old(self)@.next_packet() {
                (Ok(Some(p)), s) => {
                    &&& r matches Ok(Some(w))
                    &&& w@ == p
                    &&& final(self)@ == s
                },
                (Ok(None), s) => r matches Ok(None) && final(self)@ == s,
                (Err(f), s) => r matches Err(e) && e@ == f && final(self)@ == s,
            },
    {
        if let Some(p) = self.pop() {
            return Ok(Some(p));
        }
        loop
            invariant
                self.inv(),
                self.data@ == old(self).data@,
                self@.queue.len() == 0,
                old(self)@.next_packet() == self@.next_packet(),
            decreases self.data.len() - self.pos,
        {
            let ghost before = self@;
            let page: OggPage = match self.read_page(false) {
                Ok(Some(page)) => page,
                Ok(None) => {
                    if self.pending.len() == 0 {
                        return Ok(None);
                    }
                    return Err(DecodeError::decode("Ogg 流在包中间被截断"));
                },
                Err(e) => return Err(e),
            };
            let ghost p = page_at(before.data, before.pos, false).0->Ok_0.unwrap();
            let other: bool = match self.serial {
                Some(s) => s != page.serial,
                None => false,
            };
            if !other {
                self.serial = Some(page.serial);
                let ghost start = self@;
                self.take_segments(&page, Ghost(p));
                proof {
                    lemma_segments_keep(start, p, p.lacing.len());
                }
                if let Some(first) = self.pop() {
                    return Ok(Some(first));
                }
            }
        }
    }

    /// Collects the places that can be sought to, from here on, of the stream that
    /// is read.
    pub fn scan_seek_index(&mut self) -> (r: Result<Vec<OggSeekPoint>, DecodeError>)
        requires
            old(self).inv(),
        ensures
            final(self).inv(),
            ({
                let (points, pos, serial) = points_from(
                    old(self)@.data,
                    old(self)@.pos,
                    old(self)@.serial,
                    0,
                    Seq::empty(),
                );
                &&& final(self)@ == (Stream { pos, serial, ..old(self)@ })
                &&& match points {
                    Ok(s) => r matches Ok(v) && v@ == s,
                    Err(f) => r matches Err(e) && e@ == f,
                }
            }),
    {
        let mut points: Vec<OggSeekPoint> = Vec::new();
        let mut prev_granule: u64 = 0;
        loop
            invariant
                self.inv(),
                self.data == old(self).data,
                self.pending == old(self).pending,
                self.packet_buf == old(self).packet_buf,
                points_from(old(self)@.data, old(self)@.pos, old(self)@.serial, 0, Seq::empty())
                    == points_from(
                    self.data@,
                    self.pos as int,
                    self.serial,
                    prev_granule,
                    points@,
                ),
            decreases i64::MAX + 0x2_0000 - self.pos,
        {
            let offset: u64 = self.pos;
            let page: OggPage = match self.read_page(true) {
                Ok(Some(page)) => page,
                Ok(None) => return Ok(points),
                Err(e) => return Err(e),
            };
            let other: bool = match self.serial {
                Some(s) => s != page.serial,
                None => false,
            };
            if !other {
                self.serial = Some(page.serial);
                if !page.continued {
                    points.push(
                        OggSeekPoint {
                            granule_position: page.granule_position,
                            file_offset: offset,
                            prev_granule,
                        },
                    );
                }
                prev_granule = page.granule_position;
            }
        }
    }
}

fn append_range(target: &mut Vec<u8>, b: &[u8], start: usize, end: usize)
    requires
        start <= end <= b.len(),
    ensures
        final(target)@ == old(target)@ + b@.subrange(start as int, end as int),
{
    let mut i: usize = start;
    assert(target@ =~= old(target)@ + b@.subrange(start as int, start as int));
    while i < end
        invariant
            start <= i <= end <= b.len(),
            target@ == old(target)@ + b@.subrange(start as int, i as int),
        decreases end - i,
    {
        target.push(b[i]);
        assert(target@ =~= old(target)@ + b@.subrange(start as int, i + 1));
        i = i + 1;
    }
}

/// The bytes of "OpusHead".
pub open spec fn opus_head() -> Seq<u8> {
    seq![0x4Fu8, 0x70u8, 0x75u8, 0x73u8, 0x48u8, 0x65u8, 0x61u8, 0x64u8]
}

/// Whether a file looks like Opus in Ogg: its first packet begins as it has to.
pub open spec fn looks_like(b: Seq<u8>) -> bool {
    let count = b[26] as int;
    &&& b.len() >= PAGE_HEADER_LEN
    &&& has_at(b, 0, capture_pattern())
    &&& count > 0
    &&& 27 + count <= b.len()
    &&& b[27] >= 8
    &&& has_at(b, 27 + count, opus_head())
}

/// Tests whether a file looks like Opus in Ogg.
pub fn looks_like_ogg_opus(b: &[u8]) -> (r: bool)
    ensures
        r == looks_like(b@),
{
    if b.len() < 27 {
        return false;
    }
    let pattern: [u8; 4] = [0x4F, 0x67, 0x67, 0x53];
    assert(pattern@ =~= capture_pattern());
    if !matches_at(b, 0, pattern.as_slice()) {
        return false;
    }
    let count: usize = b[26] as usize;
    if count == 0 || b.len() - 27 < count {
        return false;
    }
    if b[27] < 8 {
        return false;
    }
    let head: [u8; 8] = [0x4F, 0x70, 0x75, 0x73, 0x48, 0x65, 0x61, 0x64];
    assert(head@ =~= opus_head());
    matches_at(b, 27 + count, head.as_slice())
}

} // verus!
