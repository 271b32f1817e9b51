//! Playing a FLAC file: samples in chunks, and seeking.

use super::bits::{byte_position, cut_off, BitReader, Bits};
use super::frame::{decode_frame, frame, Frame, FrameSamples};
use super::header::{header_of, size_of, codes};
use super::metadata::{metadata_of, parse_metadata, SeekPoint, StreamInfo};
use crate::chars::{contains, mentions};
use crate::decoder::{AudioParams, Params};
use crate::error::{DecodeError, Fault};
use vstd::arithmetic::div_mod::lemma_fundamental_div_mod_converse;
use vstd::arithmetic::power2::lemma2_to64;
use vstd::prelude::*;

verus! {

/// The most frames in a chunk.
pub const CHUNK_FRAMES: usize = 4096;

/// The samples of a frame from sample `from` on, channel by channel, for
/// `count` channels. A channel that the frame lacks is silent.
pub open spec fn interleaved(f: Frame, count: nat, from: nat) -> Seq<i64> {
    Seq::new(
        if from <= f.size {
            ((f.size - from) * count) as nat
        } else {
            0
        },
        |k: int| sample_at(f, from + k / (count as int), k % (count as int)),
    )
}

/// Sample `i` of channel `c`.
pub open spec fn sample_at(f: Frame, i: int, c: int) -> i64 {
    if c < f.channels.len() {
        f.channels[c][i]
    } else {
        0
    }
}

/// Whether an error only says that the file ends inside a frame.
pub open spec fn is_cut(f: Fault) -> bool {
    f matches Fault::Decode(text) && mentions(text, "截断"@)
}

/// A file being played.
pub struct Player {
    /// Where the next frame is read.
    pub bits: Bits,
    /// The stream.
    pub info: StreamInfo,
    /// Where the first frame starts.
    pub first: u64,
    /// The places that can be sought to.
    pub table: Option<Seq<SeekPoint>>,
    /// Samples decoded and not given out.
    pub pending: Seq<i64>,
    /// Whether the end was reached.
    pub done: bool,
}

impl Player {
    /// One more frame. The number is that of its samples per channel, zero at
    /// the end; a frame that the file cuts off is the end.
    #[verifier::opaque]
    pub open spec fn pump(self) -> (Result<nat, Fault>, Player) {
        if self.done {
            (Ok(0), self)
        } else {
            match frame(self.bits, self.info) {
                (Ok(f), bits) => (
                    Ok(f.size),
                    Player {
                        bits,
                        pending: self.pending + interleaved(f, self.info.channels as nat, 0),
                        ..self
                    },
                ),
                (Err(f), bits) => if is_cut(f) {
                    (Ok(0), Player { bits, done: true, ..self })
                } else {
                    (Err(f), Player { bits, ..self })
                },
            }
        }
    }

    /// Frames until there are `want` samples, or until one brings none.
    pub open spec fn fill(self, want: nat) -> (Result<(), Fault>, Player)
        decreases
            if self.pending.len() < want {
                want - self.pending.len()
            } else {
                0
            },
    {
        if self.pending.len() >= want || self.done {
            (Ok(()), self)
        } else {
            match self.pump() {
                (Err(f), p) => (Err(f), p),
                (Ok(_), p) => if p.pending.len() <= self.pending.len() {
                    (Ok(()), p)
                } else {
                    p.fill(want)
                },
            }
        }
    }

    /// The next chunk, of whole frames; nothing at the end.
    pub open spec fn next(self) -> (Result<Option<Seq<i64>>, Fault>, Player) {
        let ch = self.info.channels as nat;
        let want = CHUNK_FRAMES as nat * ch;
        match self.fill(want) {
            (Err(f), p) => (Err(f), p),
            (Ok(_), p) => {
                let most = if p.pending.len() < want {
                    p.pending.len()
                } else {
                    want
                };
                let take = most - most % ch;
                if take == 0 {
                    (Ok(None), p)
                } else {
                    (
                        Ok(Some(p.pending.take(take as int))),
                        Player { pending: p.pending.skip(take as int), ..p },
                    )
                }
            },
        }
    }

    /// The frames up to sample `target` dropped, from sample `cursor` on. A
    /// lenient search stops at any error, another at a frame that is cut off.
    pub open spec fn advance(self, cursor: nat, target: nat, lenient: bool) -> (
        Result<(), Fault>,
        Player,
    )
        decreases target - cursor,
    {
        if cursor >= target {
            (Ok(()), self)
        } else {
            match frame(self.bits, self.info) {
                (Ok(f), bits) => {
                    let p = Player { bits, ..self };
                    if cursor + f.size > target {
                        (
                            Ok(()),
                            Player {
                                pending: p.pending + interleaved(
                                    f,
                                    self.info.channels as nat,
                                    (target - cursor) as nat,
                                ),
                                ..p
                            },
                        )
                    } else {
                        proof {
                            lemma_frame_size(self.bits, self.info);
                        }
                        p.advance(cursor + f.size, target, lenient)
                    }
                },
                (Err(f), bits) => if lenient {
                    (Ok(()), Player { bits, ..self })
                } else if is_cut(f) {
                    (Ok(()), Player { bits, done: true, ..self })
                } else {
                    (Err(f), Player { bits, ..self })
                },
            }
        }
    }

    /// The player at byte `pos`, with nothing pending.
    pub open spec fn moved(self, pos: nat) -> Player {
        Player {
            bits: Bits {
                pos: 8 * (if pos < self.bits.data.len() {
                    pos
                } else {
                    self.bits.data.len()
                }),
                ..self.bits
            },
            pending: Seq::empty(),
            done: false,
            ..self
        }
    }

    /// Playback moved to sample `target`: from the nearest point of the seek
    /// table, or from the first frame where there is none, or where that point
    /// lies behind the end of the file.
    pub open spec fn sought(self, target: nat) -> (Result<(), Fault>, Player) {
        let point = match self.table {
            None => None,
            Some(t) => nearest(t, target, t.len()),
        };
        let (sample, offset) = match point {
            None => (0nat, 0nat),
            Some(p) => (p.sample as nat, p.offset as nat),
        };
        if offset > 0 && self.first + offset >= self.bits.data.len() {
            self.moved(self.first as nat).advance(0, target, true)
        } else {
            self.moved((self.first + offset) as nat).advance(sample, target, false)
        }
    }
}

/// Of the first `n` points, the one nearest to `target` that does not lie
/// behind it; of several at the same sample the last.
pub open spec fn nearest(table: Seq<SeekPoint>, target: nat, n: nat) -> Option<SeekPoint>
    decreases n,
{
    if n == 0 {
        None
    } else {
        let before = nearest(table, target, (n - 1) as nat);
        let p = table[n - 1];
        if p.sample <= target && (before matches Some(b) ==> b.sample <= p.sample) {
            Some(p)
        } else {
            before
        }
    }
}

/// The point that a seek starts from is one of the table, does not lie behind
/// the target, and no point that does not lie behind the target is nearer.
/// There is none only if all points lie behind the target.
pub proof fn law_nearest_point(table: Seq<SeekPoint>, target: nat, n: nat)
    requires
        n <= table.len(),
    ensures
        match nearest(table, target, n) {
            Some(p) => {
                &&& table.take(n as int).contains(p)
                &&& p.sample <= target
                &&& forall|i: int|
                    0 <= i < n && #[trigger] table[i].sample <= target ==> table[i].sample
                        <= p.sample
            },
            None => forall|i: int| 0 <= i < n ==> #[trigger] table[i].sample > target,
        },
    decreases n,
{
    if n > 0 {
        law_nearest_point(table, target, (n - 1) as nat);
        let all = table.take(n as int);
        assert(all[n - 1] == table[n - 1]);
        match nearest(table, target, (n - 1) as nat) {
            Some(b) => {
                let t = table.take(n - 1);
                let i = choose|i: int| 0 <= i < t.len() && #[trigger] t[i] == b;
                assert(all[i] == b);
            },
            None => {},
        }
    }
}

/// The end of the file inside a frame is the end of the stream, and no error.
pub proof fn law_cut_is_end(p: Player)
    requires
        !p.done,
        frame(p.bits, p.info).0 == Err::<Frame, Fault>(cut_off()),
    ensures
        p.pump().0 == Ok::<nat, Fault>(0),
        p.pump().1.done,
        p.pump().1.pending == p.pending,
{
    reveal(Player::pump);
    reveal_strlit("帧中途到达文件尾（截断）");
    reveal_strlit("截断");
    let text = "帧中途到达文件尾（截断）"@;
    assert(text.skip(9).take(2) =~= "截断"@);
    assert(crate::chars::begins(text.skip(9), "截断"@));
}

/// A frame has at least one sample and at most 65536 per channel.
pub proof fn lemma_frame_size(b: Bits, info: StreamInfo)
    ensures
        frame(b, info).0 matches Ok(f) ==> 1 <= f.size <= 0x10000,
{
    reveal(frame);
    let start = b.whole_bytes();
    if let (Ok(h), _) = header_of(b, start, info) {
        if let (Ok(c), b) = codes(b) {
            if let (Ok(_), b) = super::header::number_skipped(b) {
                lemma2_to64();
                if c.size == 6 {
                    super::bits::lemma_bits_bound(b.data, b.pos as int, 8);
                }
                if c.size == 7 {
                    super::bits::lemma_bits_bound(b.data, b.pos as int, 16);
                }
                assert(size_of(b, c.size).0 matches Ok(n) ==> 1 <= n <= 0x10000);
            }
        }
    }
}

/// Dropping the first `m` samples of each channel leaves the samples from `m`
/// on.
proof fn lemma_interleaved_skip(f: Frame, count: nat, m: nat)
    requires
        count >= 1,
        m <= f.size,
    ensures
        m * count <= interleaved(f, count, 0).len(),
        interleaved(f, count, 0).skip((m * count) as int) == interleaved(f, count, m),
{
    let all = interleaved(f, count, 0);
    let tail = interleaved(f, count, m);
    assert(m * count + (f.size - m) * count == f.size * count) by (nonlinear_arith);
    assert((f.size - m) * count >= 0 && m * count >= 0) by (nonlinear_arith)
        requires
            m <= f.size,
    ;
    assert forall|k: int| 0 <= k < tail.len() implies #[trigger] all.skip((m * count) as int)[k]
        == tail[k] by {
        vstd::arithmetic::div_mod::lemma_fundamental_div_mod(k, count as int);
        vstd::arithmetic::div_mod::lemma_mod_bound(k, count as int);
        let q = k / (count as int);
        let c = k % (count as int);
        assert(k + m * count == (m + q) * count + c) by (nonlinear_arith)
            requires
                k == count * q + c,
        ;
        lemma_fundamental_div_mod_converse(k + m * count, count as int, m + q, c);
    }
    assert(all.skip((m * count) as int) =~= tail);
}

impl Player {
    /// Playback up to sample `target`, from sample `cursor` on, with nothing
    /// given out.
    pub open spec fn heard(self, cursor: nat, target: nat) -> Player
        decreases
            if cursor < target {
                target - cursor
            } else {
                0
            },
    {
        if cursor >= target {
            self
        } else {
            match self.pump() {
                (Ok(n), p) => if n == 0 {
                    p
                } else {
                    p.heard(cursor + n, target)
                },
                (Err(_), p) => p,
            }
        }
    }
}

/// Seeking is hearing less: where a search forward arrives at sample `target`,
/// what it has pending is what playing up to there has behind the first
/// `target` samples of each channel, and both go on from the same place.
pub proof fn law_seek_skips(p: Player, cursor: nat, target: nat)
    requires
        p.info.channels >= 1,
        !p.done,
        cursor <= target,
        p.pending.len() == cursor * p.info.channels,
    ensures
        ({
            let (r, q) = (Player { pending: Seq::empty(), ..p }).advance(cursor, target, false);
            let h = p.heard(cursor, target);
            r is Ok && !q.done ==> {
                &&& h.bits == q.bits
                &&& h.pending.len() >= target * p.info.channels
                &&& h.pending.skip((target * p.info.channels) as int) == q.pending
            }
        }),
    decreases target - cursor,
{
    reveal(Player::pump);
    let ch = p.info.channels as nat;
    if cursor == target {
        assert(p.pending.skip((target * ch) as int) =~= Seq::empty());
    } else if let (Ok(f), bits) = frame(p.bits, p.info) {
        lemma_frame_size(p.bits, p.info);
        let part = interleaved(f, ch, 0);
        let next = Player { bits, pending: p.pending + part, ..p };
        assert(p.pump() == (Ok::<nat, Fault>(f.size), next));
        let m = (target - cursor) as nat;
        if cursor + f.size > target {
            lemma_interleaved_skip(f, ch, m);
            assert(target * ch == cursor * ch + m * ch) by (nonlinear_arith)
                requires
                    target == cursor + m,
            ;
            assert(next.heard(cursor + f.size, target) == next);
            assert(next.pending.skip((target * ch) as int) =~= part.skip((m * ch) as int));
            assert(Seq::<i64>::empty() + interleaved(f, ch, m) =~= interleaved(f, ch, m));
        } else {
            assert((cursor + f.size) * ch == cursor * ch + f.size * ch) by (nonlinear_arith);
            law_seek_skips(next, cursor + f.size, target);
        }
    }
}

/// Appends the samples of a frame from sample `from` on.
fn push_frame(pending: &mut Vec<i64>, f: &FrameSamples, count: usize, from: usize)
    requires
        1 <= count <= 8,
        from <= f.size,
        forall|k: int|
            0 <= k < f@.channels.len() ==> (#[trigger] f@.channels[k]).len() == f.size,
    ensures
        final(pending)@ == old(pending)@ + interleaved(f@, count as nat, from as nat),
{
    let size: usize = f.size as usize;
    let ghost all = interleaved(f@, count as nat, from as nat);
    let mut i: usize = from;
    proof {
        assert(0 * count == 0);
        assert(pending@ =~= old(pending)@ + all.take(0));
    }
    while i < size
        invariant
            1 <= count <= 8,
            from <= i <= size == f.size,
            forall|k: int|
                0 <= k < f@.channels.len() ==> (#[trigger] f@.channels[k]).len() == f.size,
            all == interleaved(f@, count as nat, from as nat),
            pending@ == old(pending)@ + all.take((i - from) * count),
        decreases size - i,
    {
        let mut c: usize = 0;
        proof {
            assert((i - from) * count + count == (i - from + 1) * count) by (nonlinear_arith);
            assert((i - from + 1) * count <= (size - from) * count) by (nonlinear_arith)
                requires
                    i < size,
                    count >= 1,
            ;
            assert((i - from) * count >= 0) by (nonlinear_arith)
                requires
                    i >= from,
                    count >= 1,
            ;
        }
        while c < count
            invariant
                1 <= count <= 8,
                c <= count,
                from <= i < size == f.size,
                0 <= (i - from) * count,
                (i - from) * count + count <= all.len(),
                forall|k: int|
                    0 <= k < f@.channels.len() ==> (#[trigger] f@.channels[k]).len() == f.size,
                all == interleaved(f@, count as nat, from as nat),
                pending@ == old(pending)@ + all.take((i - from) * count + c),
            decreases count - c,
        {
            let v: i64 = if c < f.channels.len() {
                assert(f@.channels[c as int] == f.channels@[c as int]@);
                f.channels[c][i]
            } else {
                0
            };
            let ghost k = (i - from) * count + c;
            proof {
                lemma_fundamental_div_mod_converse(k, count as int, i - from, c as int);
                assert(all[k] == v);
                assert(all.take(k + 1) =~= all.take(k).push(v));
            }
            let ghost before = pending@;
            pending.push(v);
            assert(pending@ =~= old(pending)@ + all.take(k + 1));
            c = c + 1;
        }
        i = i + 1;
    }
    assert(all.take((size - from) * count) =~= all);
}

/// Tests whether an error only says that the file ends inside a frame.
fn says_cut(e: &DecodeError) -> (r: bool)
    ensures
        r == is_cut(e@),
{
    match e {
        DecodeError::Decode(text) => contains(text.as_str(), "截断"),
        _ => false,
    }
}

/// Plays a FLAC file.
pub struct FlacBackend {
    reader: BitReader,
    info: StreamInfo,
    first_frame_offset: u64,
    seek_table: Option<Vec<SeekPoint>>,
    pending: Vec<i64>,
    stream_done: bool,
}

impl FlacBackend {
    /// The state of playback.
    pub closed spec fn player(&self) -> Player {
        Player {
            bits: self.reader.bits(),
            info: self.info,
            first: self.first_frame_offset,
            table: super::metadata::table_of(self.seek_table),
            pending: self.pending@,
            done: self.stream_done,
        }
    }

    /// The stream has channels, and its samples have bits.
    pub closed spec fn inv(&self) -> bool {
        &&& self.reader.inv()
        &&& 1 <= self.info.channels <= 8
        &&& 1 <= self.info.bits_per_sample <= 32
        &&& 1 <= self.info.sample_rate <= 655_350
    }

    /// Opens a file. (No vector is longer than is asked here.)
    pub fn open(data: Vec<u8>) -> (r: Result<FlacBackend, DecodeError>)
        requires
            data.len() <= i64::MAX,
        ensures
            match metadata_of(data@) {
                Ok(m) => {
                    &&& r matches Ok(b)
                    &&& b.inv()
                    &&& b.player() == (Player {
                        bits: Bits {
                            data: data@,
                            pos: 8 * byte_position(data@, m.first_frame_offset as u64),
                        },
                        info: m.info,
                        first: m.first_frame_offset as u64,
                        table: m.seek_table,
                        pending: Seq::empty(),
                        done: false,
                    })
                },
                Err(f) => r matches Err(e) && e@ == f,
            },
    {
        match parse_metadata(data.as_slice()) {
            Ok(meta) => {
                let reader: BitReader = BitReader::new(data, meta.first_frame_offset);
                Ok(
                    FlacBackend {
                        reader,
                        info: meta.info,
                        first_frame_offset: meta.first_frame_offset,
                        seek_table: meta.seek_table,
                        pending: Vec::new(),
                        stream_done: false,
                    },
                )
            },
            Err(e) => Err(e),
        }
    }

    /// The stream.
    pub fn info(&self) -> (i: StreamInfo)
        requires
            self.inv(),
        ensures
            i == self.player().info,
            1 <= i.channels <= 8,
            1 <= i.bits_per_sample <= 32,
            1 <= i.sample_rate <= 655_350,
    {
        self.info
    }

    /// What is known of the file. `secs` is the length in seconds, by its bits, where
    /// the number of samples is known: that number by the sample rate.
    pub fn params(&self, secs: u64) -> (p: AudioParams)
        requires
            self.inv(),
        ensures
            p@ == (Params {
                sample_rate: Some(self.player().info.sample_rate),
                channels: Some(self.player().info.channels as u16),
                bits_per_sample: Some(self.player().info.bits_per_sample as u32),
                codec_name: "FLAC"@,
                track_id: 0,
                duration: if self.player().info.total_samples > 0 {
                    Some(secs)
                } else {
                    None
                },
            }),
    {
        let duration: Option<u64> = if self.info.total_samples > 0 {
            Some(secs)
        } else {
            None
        };
        AudioParams::new(
            Some(self.info.sample_rate),
            Some(self.info.channels as u16),
            Some(self.info.bits_per_sample as u32),
            "FLAC".to_owned(),
            0,
            duration,
        )
    }

    /// Decodes one frame.
    fn pump_frame(&mut self) -> (r: Result<u32, DecodeError>)
        requires
            old(self).inv(),
        ensures
            final(self).inv(),
            final(self).info == old(self).info,
            match old(self).player().pump() {
                (Ok(n), p) => r matches Ok(w) && w == n && final(self).player() == p,
                (Err(f), p) => r matches Err(e) && e@ == f && final(self).player() == p,
            },
    {
        reveal(Player::pump);
        if self.stream_done {
            return Ok(0);
        }
        match decode_frame(&mut self.reader, &self.info) {
            Ok(f) => {
                push_frame(&mut self.pending, &f, self.info.channels as usize, 0);
                Ok(f.size)
            },
            Err(e) => if says_cut(&e) {
                self.stream_done = true;
                Ok(0)
            } else {
                Err(e)
            },
        }
    }

    /// Gives out the next chunk of samples; nothing at the end.
    pub fn decode_next(&mut self) -> (r: Result<Option<Vec<i64>>, DecodeError>)
        requires
            old(self).inv(),
        ensures
            final(self).inv(),
            match old(self).player().next() {
                (Ok(Some(s)), p) => {
                    &&& r matches Ok(Some(chunk))
                    &&& chunk@ == s
                    &&& 1 <= s.len() <= CHUNK_FRAMES * old(self).player().info.channels
                    &&& final(self).player() == p
                },
                (Ok(None), p) => r matches Ok(None) && final(self).player() == p,
                (Err(f), p) => r matches Err(e) && e@ == f && final(self).player() == p,
            },
    {
        let ch: usize = self.info.channels as usize;
        let want: usize = CHUNK_FRAMES * ch;
        while self.pending.len() < want && !self.stream_done
            invariant_except_break
                self.inv(),
                self.info == old(self).info,
                ch == self.info.channels,
                want == CHUNK_FRAMES * ch,
                old(self).player().fill(want as nat) == self.player().fill(want as nat),
            ensures
                self.inv(),
                self.info == old(self).info,
                ch == self.info.channels,
                want == CHUNK_FRAMES * ch,
                old(self).player().fill(want as nat) == (Ok::<(), Fault>(()), self.player()),
            decreases
                if self.pending.len() < want {
                    want - self.pending.len()
                } else {
                    0
                },
        {
            let before: usize = self.pending.len();
            match self.pump_frame() {
                Ok(_) => {},
                Err(e) => return Err(e),
            }
            if self.pending.len() <= before {
                break;
            }
        }
        let most: usize = if self.pending.len() < want {
            self.pending.len()
        } else {
            want
        };
        assert(most % ch <= most) by (nonlinear_arith)
            requires
                ch >= 1,
        ;
        let take: usize = most - most % ch;
        if take == 0 {
            return Ok(None);
        }
        let mut out: Vec<i64> = self.pending.split_off(take);
        std::mem::swap(&mut out, &mut self.pending);
        proof {
            let p = old(self).player().fill(want as nat).1;
            assert(out@ =~= p.pending.take(take as int));
            assert(self.pending@ =~= p.pending.skip(take as int));
        }
        Ok(Some(out))
    }

    /// Drops the frames up to sample `target`.
    fn advance(&mut self, from: u64, target: u64, lenient: bool) -> (r: Result<(), DecodeError>)
        requires
            old(self).inv(),
        ensures
            final(self).inv(),
            match old(self).player().advance(from as nat, target as nat, lenient) {
                (Ok(_), p) => r is Ok && final(self).player() == p,
                (Err(f), p) => r matches Err(e) && e@ == f && final(self).player() == p,
            },
    {
        let mut cursor: u64 = from;
        while cursor < target
            invariant
                self.inv(),
                old(self).player().advance(from as nat, target as nat, lenient)
                    == self.player().advance(cursor as nat, target as nat, lenient),
            decreases target - cursor,
        {
            match decode_frame(&mut self.reader, &self.info) {
                Ok(f) => {
                    if f.size as u64 > target - cursor {
                        let skip: usize = (target - cursor) as usize;
                        push_frame(&mut self.pending, &f, self.info.channels as usize, skip);
                        return Ok(());
                    }
                    cursor = cursor + f.size as u64;
                },
                Err(e) => {
                    if lenient {
                        return Ok(());
                    }
                    if says_cut(&e) {
                        self.stream_done = true;
                        return Ok(());
                    }
                    return Err(e);
                },
            }
        }
        Ok(())
    }

    /// The point of the seek table that a seek starts from.
    fn nearest_point(&self, target: u64) -> (p: Option<SeekPoint>)
        ensures
            p == (match self.player().table {
                None => None,
                Some(t) => nearest(t, target as nat, t.len()),
            }),
    {
        match &self.seek_table {
            None => None,
            Some(table) => {
                let mut best: Option<SeekPoint> = None;
                let mut i: usize = 0;
                while i < table.len()
                    invariant
                        i <= table.len(),
                        best == nearest(table@, target as nat, i as nat),
                    decreases table.len() - i,
                {
                    let p: SeekPoint = table[i];
                    if p.sample <= target {
                        let nearer: bool = match best {
                            None => true,
                            Some(b) => b.sample <= p.sample,
                        };
                        if nearer {
                            best = Some(p);
                        }
                    }
                    i = i + 1;
                }
                best
            },
        }
    }

    /// Moves to sample `target`.
    pub fn seek_frame(&mut self, target: u64) -> (r: Result<(), DecodeError>)
        requires
            old(self).inv(),
        ensures
            final(self).inv(),
            match old(self).player().sought(target as nat) {
                (Ok(_), p) => r is Ok && final(self).player() == p,
                (Err(f), p) => r matches Err(e) && e@ == f && final(self).player() == p,
            },
    {
        let (sample, offset): (u64, u64) = match self.nearest_point(target) {
            None => (0, 0),
            Some(p) => (p.sample, p.offset),
        };
        let end: u64 = self.reader.len() as u64;
        let first: u64 = self.first_frame_offset;
        let outside: bool = offset > 0 && (first >= end || offset >= end - first);
        self.reader.reset_to(
            if outside {
                first
            } else {
                first + offset
            },
        );
        self.pending = Vec::new();
        self.stream_done = false;
        if outside {
            self.advance(0, target, true)
        } else {
            self.advance(sample, target, false)
        }
    }
}

/// The sample rate that the metadata give.
pub fn probe_sample_rate(data: &[u8]) -> (rate: Option<u32>)
    requires
        data.len() <= i64::MAX,
    ensures
        rate == (match metadata_of(data@) {
            Ok(m) => Some(m.info.sample_rate),
            Err(_) => None,
        }),
{
    match parse_metadata(data) {
        Ok(m) => Some(m.info.sample_rate),
        Err(_) => None,
    }
}

} // verus!
