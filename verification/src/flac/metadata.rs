//! The metadata in front of the frames of a FLAC file.

use crate::bytes::{be24, be32, be64, has_at, matches_at, read_be24, read_be32, read_be64};
use crate::error::{short_file, DecodeError, Fault};
use vstd::prelude::*;

verus! {

/// What the metadata say of the stream.
#[derive(Debug, Clone, Copy)]
pub struct StreamInfo {
    /// The sample rate in Hz.
    pub sample_rate: u32,
    /// The number of channels, 1 to 8.
    pub channels: u8,
    /// Bits per sample, 1 to 32.
    pub bits_per_sample: u8,
    /// The number of frames, zero where unknown.
    pub total_samples: u64,
}

/// A place that can be sought to: a sample, and where its frame starts behind
/// the first.
#[derive(Debug, Clone, Copy)]
pub struct SeekPoint {
    /// The sample.
    pub sample: u64,
    /// The offset of its frame.
    pub offset: u64,
}

/// What the metadata say.
pub struct Meta {
    /// The stream.
    pub info: StreamInfo,
    /// Where the first frame starts.
    pub first_frame_offset: int,
    /// The places that can be sought to.
    pub seek_table: Option<Seq<SeekPoint>>,
}

/// The four bytes that a FLAC file begins with.
pub open spec fn flac_magic() -> Seq<u8> {
    seq![0x66u8, 0x4Cu8, 0x61u8, 0x43u8]
}

/// The description of the stream at `at`.
pub open spec fn info_at(data: Seq<u8>, at: int) -> StreamInfo {
    StreamInfo {
        sample_rate: (be24(data, at + 10) / 16) as u32,
        channels: ((data[at + 12] / 2) % 8 + 1) as u8,
        bits_per_sample: ((data[at + 12] % 2) * 16 + data[at + 13] / 16 + 1) as u8,
        total_samples: ((data[at + 13] % 16) * 0x1_0000_0000 + be32(data, at + 14)) as u64,
    }
}

/// The first `n` entries of a seek table, without placeholders.
pub open spec fn points_of(data: Seq<u8>, at: int, n: nat) -> Seq<SeekPoint>
    decreases n,
{
    if n == 0 {
        Seq::empty()
    } else {
        let before = points_of(data, at, (n - 1) as nat);
        let entry = at + 18 * (n - 1);
        let point = SeekPoint {
            sample: be64(data, entry) as u64,
            offset: be64(data, entry + 8) as u64,
        };
        if point.sample == u64::MAX {
            before
        } else {
            before.push(point)
        }
    }
}

/// The chain of metadata blocks from `pos` on, behind what was found so far.
pub open spec fn chain_from(
    data: Seq<u8>,
    pos: int,
    info: Option<StreamInfo>,
    table: Option<Seq<SeekPoint>>,
) -> Result<Meta, Fault>
    decreases if pos < data.len() { data.len() - pos } else { 0 },
{
    if pos + 4 > data.len() {
        Err(Fault::Decode("元数据块链截断"@))
    } else {
        let is_last = data[pos] >= 0x80;
        let kind = data[pos] % 0x80;
        let len = be24(data, pos + 1) as int;
        let body = pos + 4;
        let found = if kind == 0 {
            if len != 34 {
                Err(Fault::Decode("STREAMINFO 长度非法"@))
            } else if body + 34 > data.len() {
                Err(short_file())
            } else {
                let i = info_at(data, body);
                if i.sample_rate == 0 || i.sample_rate > 655_350 {
                    Err(Fault::Decode("STREAMINFO 采样率非法"@))
                } else {
                    Ok((Some(i), table))
                }
            }
        } else if kind == 3 {
            let points = points_of(data, body, (len / 18) as nat);
            if body + len / 18 * 18 > data.len() && len >= 18 {
                Err(short_file())
            } else if points.len() > 0 {
                Ok((info, Some(points)))
            } else {
                Ok((info, table))
            }
        } else {
            Ok((info, table))
        };
        match found {
            Err(f) => Err(f),
            Ok((i, t)) => if !is_last {
                chain_from(data, body + len, i, t)
            } else {
                match i {
                    None => Err(Fault::Decode("缺 STREAMINFO 块"@)),
                    Some(i) => Ok(
                        Meta { info: i, first_frame_offset: body + len, seek_table: t },
                    ),
                }
            },
        }
    }
}

/// The metadata of a file.
pub open spec fn metadata_of(data: Seq<u8>) -> Result<Meta, Fault> {
    if data.len() < 4 {
        Err(short_file())
    } else if !has_at(data, 0, flac_magic()) {
        Err(Fault::Unsupported("不是 FLAC 流（或带 ID3 前缀）"@))
    } else {
        chain_from(data, 4, None, None)
    }
}

/// What the metadata say.
pub struct FlacMeta {
    /// The stream.
    pub info: StreamInfo,
    /// Where the first frame starts.
    pub first_frame_offset: u64,
    /// The places that can be sought to.
    pub seek_table: Option<Vec<SeekPoint>>,
}

/// The places of an optional seek table.
pub open spec fn table_of(t: Option<Vec<SeekPoint>>) -> Option<Seq<SeekPoint>> {
    match t {
        Some(v) => Some(v@),
        None => None,
    }
}

impl View for FlacMeta {
    type V = Meta;

    open spec fn view(&self) -> Meta {
        Meta {
            info: self.info,
            first_frame_offset: self.first_frame_offset as int,
            seek_table: table_of(self.seek_table),
        }
    }
}

/// Tests for the four bytes that a FLAC file begins with.
pub fn has_flac_magic(data: &[u8]) -> (r: bool)
    ensures
        r == has_at(data@, 0, flac_magic()),
{
    let magic: [u8; 4] = [0x66, 0x4C, 0x61, 0x43];
    assert(magic@ =~= flac_magic());
    matches_at(data, 0, magic.as_slice())
}

fn read_info(data: &[u8], at: usize) -> (i: StreamInfo)
    requires
        at + 34 <= data.len(),
    ensures
        i == info_at(data@, at as int),
        1 <= i.channels <= 8,
        1 <= i.bits_per_sample <= 32,
        i.sample_rate < 0x10_0000,
{
    StreamInfo {
        sample_rate: read_be24(data, at + 10) / 16,
        channels: (data[at + 12] / 2) % 8 + 1,
        bits_per_sample: (data[at + 12] % 2) * 16 + data[at + 13] / 16 + 1,
        total_samples: (data[at + 13] % 16) as u64 * 0x1_0000_0000 + read_be32(
            data,
            at + 14,
        ) as u64,
    }
}

fn read_points(data: &[u8], at: usize, n: usize) -> (points: Vec<SeekPoint>)
    requires
        at + 18 * n <= data.len(),
    ensures
        points@ == points_of(data@, at as int, n as nat),
{
    let mut points: Vec<SeekPoint> = Vec::new();
    let mut k: usize = 0;
    while k < n
        invariant
            k <= n,
            at + 18 * n <= data.len(),
            points@ == points_of(data@, at as int, k as nat),
        decreases n - k,
    {
        let entry: usize = at + 18 * k;
        let sample: u64 = read_be64(data, entry);
        let offset: u64 = read_be64(data, entry + 8);
        if sample != u64::MAX {
            points.push(SeekPoint { sample, offset });
        }
        k = k + 1;
    }
    points
}

/// Parses the metadata of a file. (No slice is longer than is asked here.)
pub fn parse_metadata(data: &[u8]) -> (r: Result<FlacMeta, DecodeError>)
    requires
        data.len() <= i64::MAX,
    ensures
        match metadata_of(data@) {
            Ok(m) => {
                &&& r matches Ok(f)
                &&& f@ == m
                &&& 1 <= m.info.channels <= 8
                &&& 1 <= m.info.bits_per_sample <= 32
                &&& 1 <= m.info.sample_rate <= 655_350
            },
            Err(f) => r matches Err(e) && e@ == f,
        },
{
    if data.len() < 4 {
        return Err(DecodeError::short());
    }
    if !has_flac_magic(data) {
        return Err(DecodeError::unsupported("不是 FLAC 流（或带 ID3 前缀）"));
    }
    let mut pos: u64 = 4;
    let mut info: Option<StreamInfo> = None;
    let mut table: Option<Vec<SeekPoint>> = None;
    let total: u64 = data.len() as u64;
    loop
        invariant
            total == data.len() <= i64::MAX,
            pos <= total + 0x100_0010,
            metadata_of(data@) == chain_from(data@, pos as int, info, table_of(table)),
            info matches Some(i) ==> 1 <= i.channels <= 8 && 1 <= i.bits_per_sample <= 32 && 1
                <= i.sample_rate <= 655_350,
        decreases total + 0x100_0020 - pos,
    {
        if pos > total || total - pos < 4 {
            return Err(DecodeError::decode("元数据块链截断"));
        }
        let at: usize = pos as usize;
        let is_last: bool = data[at] >= 0x80;
        let kind: u8 = data[at] % 0x80;
        let len: u32 = read_be24(data, at + 1);
        let body: usize = at + 4;
        let room: usize = data.len() - body;
        if kind == 0 {
            if len != 34 {
                return Err(DecodeError::decode("STREAMINFO 长度非法"));
            }
            if room < 34 {
                return Err(DecodeError::short());
            }
            let i: StreamInfo = read_info(data, body);
            if i.sample_rate == 0 || i.sample_rate > 655_350 {
                return Err(DecodeError::decode("STREAMINFO 采样率非法"));
            }
            info = Some(i);
        } else if kind == 3 {
            let n: usize = len as usize / 18;
            if n * 18 > room {
                return Err(DecodeError::short());
            }
            let points: Vec<SeekPoint> = read_points(data, body, n);
            if points.len() > 0 {
                table = Some(points);
            }
        }
        pos = body as u64 + len as u64;
        if is_last {
            return match info {
                None => Err(DecodeError::decode("缺 STREAMINFO 块")),
                Some(i) => Ok(
                    FlacMeta { info: i, first_frame_offset: pos, seek_table: table },
                ),
            };
        }
    }
}

} // verus!
