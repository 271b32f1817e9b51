//! Images of audio discs: raw sectors of 44.1 kHz stereo samples, with or
//! without a subchannel behind each.

use crate::bytes::{has_at, le16, matches_at, read_le16};
use crate::decoder::{AudioParams, Params};
use crate::error::{DecodeError, Fault};
use crate::text::decimal;
use crate::wav::twos;
use vstd::prelude::*;

verus! {

/// Bytes of sound per sector.
pub const SECTOR_AUDIO: usize = 2352;

/// Bytes of a sector with its subchannel.
pub const SECTOR_RAW: usize = 2448;

/// Frames per sector.
pub const SAMPLES_PER_SECTOR: u64 = 588;

/// Sectors per second.
pub const SECTORS_PER_SECOND: u64 = 75;

/// The sample rate.
pub const SAMPLE_RATE: u32 = 44100;

/// The number of channels.
pub const CHANNELS: u16 = 2;

/// Bits per sample.
pub const BITS_PER_SAMPLE: u32 = 16;

/// The most frames in a chunk.
pub const CHUNK_FRAMES: u64 = 4096;

/// The pattern that a sector of data starts with.
pub open spec fn cd_sync() -> Seq<u8> {
    seq![
        0x00u8, 0xFFu8, 0xFFu8, 0xFFu8, 0xFFu8, 0xFFu8,
        0xFFu8, 0xFFu8, 0xFFu8, 0xFFu8, 0xFFu8, 0x00u8,
    ]
}

/// The size of a sector: the one that divides the length. Where both do, the
/// pattern at the start of the second sector decides.
pub open spec fn sector_size(b: Seq<u8>) -> Option<usize> {
    let plain = b.len() % 2352 == 0;
    let raw = b.len() % 2448 == 0;
    if b.len() == 0 {
        None
    } else if plain && raw {
        if has_at(b, 2352, cd_sync()) {
            Some(SECTOR_AUDIO)
        } else {
            Some(SECTOR_RAW)
        }
    } else if plain {
        Some(SECTOR_AUDIO)
    } else if raw {
        Some(SECTOR_RAW)
    } else {
        None
    }
}

/// Finds the size of a sector.
pub fn detect_sector_size(b: &[u8]) -> (r: Option<usize>)
    ensures
        r == sector_size(b@),
{
    if b.len() == 0 {
        return None;
    }
    let plain: bool = b.len() % SECTOR_AUDIO == 0;
    let raw: bool = b.len() % SECTOR_RAW == 0;
    if plain && raw {
        let sync: [u8; 12] = [
            0x00, 0xFF, 0xFF, 0xFF, 0xFF, 0xFF, 0xFF, 0xFF, 0xFF, 0xFF, 0xFF, 0x00,
        ];
        assert(sync@ =~= cd_sync());
        if matches_at(b, SECTOR_AUDIO, sync.as_slice()) {
            Some(SECTOR_AUDIO)
        } else {
            Some(SECTOR_RAW)
        }
    } else if plain {
        Some(SECTOR_AUDIO)
    } else if raw {
        Some(SECTOR_RAW)
    } else {
        None
    }
}

/// Where frame `i` is.
pub open spec fn frame_offset(step: int, i: int) -> int {
    i / 588 * step + i % 588 * 4
}

/// The frames `from` up to `to`, left and right in turn.
pub open spec fn frames_between(b: Seq<u8>, step: int, from: int, to: int) -> Seq<i16> {
    Seq::new(
        (2 * (to - from)) as nat,
        |k: int|
            twos(le16(b, frame_offset(step, from + k / 2) + 2 * (k % 2)), 0x8000) as i16,
    )
}

/// The frames that are there, of `sectors` sectors: as many as fit without a
/// subchannel, only those of whole sectors with one.
pub open spec fn frames_there(b: Seq<u8>, step: int, sectors: int) -> int {
    let have = if step == 2352 {
        b.len() as int / 4
    } else {
        (b.len() as int + 96) / 2448 * 588
    };
    if have < sectors * 588 {
        have
    } else {
        sectors * 588
    }
}

/// The most frames in a chunk: with a subchannel, those of whole sectors.
pub open spec fn chunk_frames(step: int) -> int {
    if step == 2352 {
        4096
    } else {
        3528
    }
}

/// Plays an image.
pub struct CddaBackend {
    data: Vec<u8>,
    sector_step: usize,
    total_sectors: u64,
    cursor: u64,
}

impl CddaBackend {
    /// The bytes.
    pub closed spec fn bytes(&self) -> Seq<u8> {
        self.data@
    }

    /// Bytes from one sector to the next.
    pub closed spec fn step(&self) -> int {
        self.sector_step as int
    }

    /// The number of sectors.
    pub closed spec fn sectors(&self) -> int {
        self.total_sectors as int
    }

    /// The frame that comes next.
    pub closed spec fn position(&self) -> int {
        self.cursor as int
    }

    /// The sectors have one of the two sizes, and the position is in one of them
    /// or at the end; with a subchannel it is at the start of a sector.
    pub closed spec fn inv(&self) -> bool {
        &&& self.sector_step == 2352 || self.sector_step == 2448
        &&& 1 <= self.total_sectors
        &&& self.total_sectors * 2448 <= u64::MAX
        &&& self.cursor <= self.total_sectors * 588
        &&& self.data.len() <= i64::MAX
    }

    /// Opens an image, whose size tells that of its sectors. (No vector is longer
    /// than is asked here.)
    pub fn open(data: Vec<u8>) -> (r: Result<CddaBackend, DecodeError>)
        requires
            data.len() <= i64::MAX,
        ensures
            match sector_size(data@) {
                Some(step) => {
                    &&& r matches Ok(b)
                    &&& b.inv()
                    &&& b.bytes() == data@
                    &&& b.step() == step
                    &&& b.sectors() == data.len() as int / step as int
                    &&& b.position() == 0
                },
                None => r matches Err(e) && e@ == Fault::Unsupported(
                    "不是合法的 .bin 镜像（尺寸不被 2352/2448 整除）"@,
                ),
            },
    {
        match detect_sector_size(data.as_slice()) {
            None => Err(
                DecodeError::unsupported("不是合法的 .bin 镜像（尺寸不被 2352/2448 整除）"),
            ),
            Some(step) => {
                let sectors: u64 = data.len() as u64 / step as u64;
                CddaBackend::from_reader(data, step, sectors)
            },
        }
    }

    /// What is known of the image. `secs` is the length in seconds, by its bits: the
    /// sectors by those in a second.
    pub fn params(&self, secs: u64) -> (p: AudioParams)
        requires
            self.inv(),
        ensures
            p@ == (Params {
                sample_rate: Some(SAMPLE_RATE),
                channels: Some(CHANNELS),
                bits_per_sample: Some(BITS_PER_SAMPLE),
                codec_name: "CDDA"@,
                track_id: 0,
                duration: Some(secs),
            }),
    {
        AudioParams::new(
            Some(SAMPLE_RATE),
            Some(CHANNELS),
            Some(BITS_PER_SAMPLE),
            "CDDA".to_owned(),
            0,
            Some(secs),
        )
    }

    /// Opens an image of `total_sectors` sectors of a size. (The bytes of all
    /// sectors can be counted.)
    pub fn from_reader(data: Vec<u8>, sector_step: usize, total_sectors: u64) -> (r: Result<
        CddaBackend,
        DecodeError,
    >)
        requires
            data.len() <= i64::MAX,
            total_sectors * 2448 <= u64::MAX,
        ensures
            if sector_step != 2352 && sector_step != 2448 {
                r matches Err(e) && e@ == Fault::Unsupported(
                    "非法扇区尺寸 "@ + decimal(sector_step as int) + "（仅支持 2352/2448）"@,
                )
            } else if total_sectors == 0 {
                r matches Err(e) && e@ == Fault::Decode(".bin 镜像为空（0 扇区）"@)
            } else {
                &&& r matches Ok(b)
                &&& b.inv()
                &&& b.bytes() == data@
                &&& b.step() == sector_step
                &&& b.sectors() == total_sectors
                &&& b.position() == 0
            },
    {
        if sector_step != SECTOR_AUDIO && sector_step != SECTOR_RAW {
            let mut text: String = "非法扇区尺寸 ".to_owned();
            text.append(crate::text::natural_text(sector_step as u64).as_str());
            text.append("（仅支持 2352/2448）");
            return Err(DecodeError::Unsupported(text));
        }
        if total_sectors == 0 {
            return Err(DecodeError::decode(".bin 镜像为空（0 扇区）"));
        }
        Ok(CddaBackend { data, sector_step, total_sectors, cursor: 0 })
    }

    /// The number of frames.
    pub fn total_frames(&self) -> (n: u64)
        requires
            self.inv(),
        ensures
            n == self.sectors() * 588,
    {
        self.total_sectors * SAMPLES_PER_SECTOR
    }

    /// The number of sectors.
    pub fn total_sectors(&self) -> (n: u64)
        requires
            self.inv(),
        ensures
            n == self.sectors(),
            n >= 1,
    {
        self.total_sectors
    }

    fn available(&self) -> (n: u64)
        requires
            self.inv(),
        ensures
            n == frames_there(self.data@, self.sector_step as int, self.total_sectors as int),
    {
        let len: u64 = self.data.len() as u64;
        let have: u64 = if self.sector_step == SECTOR_AUDIO {
            len / 4
        } else {
            (len + 96) / 2448 * 588
        };
        let all: u64 = self.total_frames();
        if have < all {
            have
        } else {
            all
        }
    }

    /// Gives out the next chunk of samples; nothing at the end.
    pub fn decode_next(&mut self) -> (r: Option<Vec<i16>>)
        requires
            old(self).inv(),
        ensures
            final(self).inv(),
            final(self).bytes() == old(self).bytes(),
            final(self).step() == old(self).step(),
            final(self).sectors() == old(self).sectors(),
            ({
                let step = old(self).step();
                let there = frames_there(old(self).bytes(), step, old(self).sectors());
                let from = old(self).position();
                let to = if there - from > chunk_frames(step) {
                    from + chunk_frames(step)
                } else {
                    there
                };
                if from >= there {
                    r is None && final(self).position() == from
                } else {
                    &&& r matches Some(chunk)
                    &&& chunk@ == frames_between(old(self).bytes(), step, from, to)
                    &&& final(self).position() == to
                }
            }),
    {
        let there: u64 = self.available();
        if self.cursor >= there {
            return None;
        }
        let most: u64 = if self.sector_step == SECTOR_AUDIO {
            CHUNK_FRAMES
        } else {
            CHUNK_FRAMES / SAMPLES_PER_SECTOR * SAMPLES_PER_SECTOR
        };
        let n: u64 = if there - self.cursor > most {
            most
        } else {
            there - self.cursor
        };
        let to: u64 = self.cursor + n;
        let mut out: Vec<i16> = Vec::new();
        let mut i: u64 = self.cursor;
        let ghost step = self.sector_step as int;
        let ghost all = frames_between(self.data@, step, self.cursor as int, to as int);
        assert(out@ =~= all.take(0));
        while i < to
            invariant
                self.inv(),
                step == self.sector_step,
                self.cursor <= i <= to,
                to <= frames_there(self.data@, step, self.total_sectors as int),
                all == frames_between(self.data@, step, self.cursor as int, to as int),
                out@ == all.take(2 * (i - self.cursor)),
            decreases to - i,
        {
            proof {
                lemma_frame_inside(self.data@, step, self.total_sectors as int, i as int);
                assert(i as int / 588 * step <= i64::MAX) by {
                    assert(i as int % 588 * 4 >= 0);
                }
                assert(i as int / 588 * step >= 0) by (nonlinear_arith)
                    requires
                        i >= 0,
                        step >= 0,
                ;
            }
            let at: usize = (i / SAMPLES_PER_SECTOR * self.sector_step as u64 + i
                % SAMPLES_PER_SECTOR * 4) as usize;
            let l: i16 = read_i16(self.data.as_slice(), at);
            let r: i16 = read_i16(self.data.as_slice(), at + 2);
            let ghost k = 2 * (i - self.cursor);
            assert(all[k] == l);
            assert(all[k + 1] == r);
            out.push(l);
            out.push(r);
            assert(out@ =~= all.take(k + 2));
            i = i + 1;
        }
        assert(out@ =~= all);
        self.cursor = to;
        Some(out)
    }

    /// Moves to the start of a sector, or to the end where it lies behind.
    pub fn seek_sector(&mut self, target: u64)
        requires
            old(self).inv(),
        ensures
            final(self).inv(),
            final(self).bytes() == old(self).bytes(),
            final(self).step() == old(self).step(),
            final(self).sectors() == old(self).sectors(),
            final(self).position() == 588 * if target < old(self).sectors() {
                target as int
            } else {
                old(self).sectors()
            },
    {
        let sector: u64 = if target < self.total_sectors {
            target
        } else {
            self.total_sectors
        };
        self.cursor = sector * SAMPLES_PER_SECTOR;
    }
}

fn read_i16(b: &[u8], at: usize) -> (v: i16)
    requires
        at + 2 <= b.len(),
    ensures
        v == twos(le16(b@, at as int), 0x8000),
{
    let x: i32 = read_le16(b, at) as i32;
    if x >= 0x8000 {
        (x - 0x1_0000) as i16
    } else {
        x as i16
    }
}

/// A frame that is there lies inside the image.
proof fn lemma_frame_inside(b: Seq<u8>, step: int, sectors: int, i: int)
    requires
        step == 2352 || step == 2448,
        0 <= i < frames_there(b, step, sectors),
    ensures
        0 <= frame_offset(step, i),
        frame_offset(step, i) + 4 <= b.len(),
{
    if step == 2352 {
        assert(frame_offset(2352, i) == i * 4);
    } else {
        let s = i / 588;
        assert(s < (b.len() as int + 96) / 2448);
    }
}

/// A subchannel changes nothing: an image with one holds the same samples as an
/// image without, if its sectors hold the same sound.
pub proof fn law_subchannel_ignored(plain: Seq<u8>, raw: Seq<u8>, sectors: int, from: int, to: int)
    requires
        0 <= from <= to <= sectors * 588,
        plain.len() >= sectors * 2352,
        raw.len() >= sectors * 2448,
        forall|s: int, j: int|
            #![trigger plain[s * 2352 + j]]
            0 <= s < sectors && 0 <= j < 2352 ==> plain[s * 2352 + j] == raw[s * 2448 + j],
    ensures
        frames_between(plain, 2352, from, to) == frames_between(raw, 2448, from, to),
{
    let a = frames_between(plain, 2352, from, to);
    let b = frames_between(raw, 2448, from, to);
    assert forall|k: int| 0 <= k < a.len() implies #[trigger] a[k] == b[k] by {
        let i = from + k / 2;
        let s = i / 588;
        let j = i % 588 * 4 + 2 * (k % 2);
        assert(0 <= s < sectors);
        assert(0 <= j && j + 1 < 2352);
        assert(plain[s * 2352 + j] == raw[s * 2448 + j]);
        assert(plain[s * 2352 + (j + 1)] == raw[s * 2448 + (j + 1)]);
    }
    assert(a =~= b);
}

/// Reading on gives what follows: two chunks that follow each other are one.
pub proof fn law_chunks_join(b: Seq<u8>, step: int, from: int, mid: int, to: int)
    requires
        from <= mid <= to,
    ensures
        frames_between(b, step, from, mid) + frames_between(b, step, mid, to) == frames_between(
            b,
            step,
            from,
            to,
        ),
{
    let x = frames_between(b, step, from, mid);
    let y = frames_between(b, step, mid, to);
    let all = frames_between(b, step, from, to);
    assert forall|k: int| 0 <= k < y.len() implies #[trigger] y[k] == all[k + x.len()] by {
        assert((k + 2 * (mid - from)) / 2 == k / 2 + (mid - from));
        assert((k + 2 * (mid - from)) % 2 == k % 2);
    }
    assert(x + y =~= all);
}

} // verus!
