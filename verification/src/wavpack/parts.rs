//! What a WavPack block is decoded with, collected from its sub-blocks.

use super::decorr::{
    exp2s, other_channel, own_past, restore_weight, weight_of, wp_exp2s, DecorrPass, Lane, Pass,
};
use super::header::{subs_fault, subs_from, BlockHeader, Sub, SubBlock, SubBlocks};
use super::words::Medians;
use crate::bytes::{le16, le32, read_le16, read_le32};
use crate::error::{DecodeError, Fault};
use crate::text::{decimal, decimal_text, hexadecimal, hexadecimal_text};
use vstd::prelude::*;

verus! {

/// The largest number of decorrelation passes.
pub const MAX_NTERMS: usize = 16;

pub const ID_DECORR_TERMS: u8 = 0x02;

pub const ID_DECORR_WEIGHTS: u8 = 0x03;

pub const ID_DECORR_SAMPLES: u8 = 0x04;

pub const ID_ENTROPY_VARS: u8 = 0x05;

pub const ID_HYBRID_PROFILE: u8 = 0x06;

pub const ID_SHAPING_WEIGHTS: u8 = 0x07;

pub const ID_FLOAT_INFO: u8 = 0x08;

pub const ID_INT32_INFO: u8 = 0x09;

pub const ID_WV_BITSTREAM: u8 = 0x0A;

pub const ID_WVC_BITSTREAM: u8 = 0x0B;

pub const ID_WVX_BITSTREAM: u8 = 0x0C;

pub const ID_CHANNEL_INFO: u8 = 0x0D;

pub const ID_DSD_BLOCK: u8 = 0x0E;

pub const ID_WVX_NEW_BITSTREAM: u8 = 0x2C;

/// Whether an id that a decoder must know is known.
pub fn is_known_required_id(id: u8) -> (r: bool)
    ensures
        r == (id <= ID_DSD_BLOCK),
{
    id <= ID_DSD_BLOCK
}

/// The stream of low bits that a block may carry: its checksum, its bytes, and
/// whether it has the newer form.
pub struct Wvx {
    /// The checksum of the samples with their low bits.
    pub crc: u32,
    /// The bytes.
    pub stream: Seq<u8>,
    /// The newer form.
    pub is_new: bool,
}

/// The sub-blocks that decoding needs, the last of each kind.
pub struct Raw {
    /// The terms.
    pub terms: Option<Seq<u8>>,
    /// The weights.
    pub weights: Option<Seq<u8>>,
    /// The kept samples.
    pub samples: Option<Seq<u8>>,
    /// The medians.
    pub entropy: Option<Seq<u8>>,
    /// The residuals.
    pub stream: Option<Seq<u8>>,
    /// How samples of more than 24 bits were cut.
    pub int32_info: Option<Seq<u8>>,
    /// How floating-point samples were cut.
    pub float_info: Option<Seq<u8>>,
    /// The low bits.
    pub wvx: Option<Wvx>,
}

impl Raw {
    /// Nothing yet.
    pub open spec fn empty() -> Raw {
        Raw {
            terms: None,
            weights: None,
            samples: None,
            entropy: None,
            stream: None,
            int32_info: None,
            float_info: None,
            wvx: None,
        }
    }

    /// With one more sub-block, unless it is out of place or not supported.
    pub open spec fn absorb(self, sub: Sub) -> Result<Raw, Fault> {
        let data = sub.data;
        if sub.id == ID_HYBRID_PROFILE || sub.id == ID_SHAPING_WEIGHTS || sub.id
            == ID_WVC_BITSTREAM {
            Err(Fault::Unsupported("WavPack hybrid 模式不支持"@))
        } else if sub.id == ID_DSD_BLOCK {
            Err(Fault::Unsupported("WavPack DSD 流不支持"@))
        } else if sub.id == ID_CHANNEL_INFO {
            if data.len() == 0 {
                Err(Fault::Decode("WavPack CHANNEL_INFO 空载荷"@))
            } else if data[0] > 2 {
                Err(Fault::Unsupported("WavPack 超过 2 声道的流不支持"@))
            } else {
                Ok(self)
            }
        } else if sub.id == ID_DECORR_TERMS {
            Ok(Raw { terms: Some(data), ..self })
        } else if sub.id == ID_DECORR_WEIGHTS {
            if self.terms is None {
                Err(Fault::Decode("WavPack WEIGHTS 出现在 TERMS 之前"@))
            } else {
                Ok(Raw { weights: Some(data), ..self })
            }
        } else if sub.id == ID_DECORR_SAMPLES {
            if self.terms is None {
                Err(Fault::Decode("WavPack SAMPLES 出现在 TERMS 之前"@))
            } else {
                Ok(Raw { samples: Some(data), ..self })
            }
        } else if sub.id == ID_ENTROPY_VARS {
            Ok(Raw { entropy: Some(data), ..self })
        } else if sub.id == ID_WV_BITSTREAM {
            Ok(Raw { stream: Some(data), ..self })
        } else if sub.id == ID_INT32_INFO {
            if data.len() != 4 {
                Err(Fault::Decode("WavPack INT32_INFO 长度非法"@))
            } else {
                Ok(Raw { int32_info: Some(data), ..self })
            }
        } else if sub.id == ID_FLOAT_INFO {
            if data.len() != 4 {
                Err(Fault::Decode("WavPack FLOAT_INFO 长度非法"@))
            } else {
                Ok(Raw { float_info: Some(data), ..self })
            }
        } else if sub.id == ID_WVX_BITSTREAM || sub.id == ID_WVX_NEW_BITSTREAM {
            if data.len() <= 4 || data.len() % 2 != 0 {
                Err(Fault::Decode("WavPack WVX 载荷长度非法"@))
            } else {
                Ok(
                    Raw {
                        wvx: Some(
                            Wvx {
                                crc: le32(data, 0) as u32,
                                stream: data.subrange(4, data.len() as int),
                                is_new: sub.id == ID_WVX_NEW_BITSTREAM,
                            },
                        ),
                        ..self
                    },
                )
            }
        } else if ID_DSD_BLOCK < sub.id < 0x20 {
            Err(Fault::Decode("WavPack 未知必识子块 id "@ + hexadecimal(sub.id as nat)))
        } else {
            Ok(self)
        }
    }
}

/// The sub-blocks taken up in order, up to the first that cannot be.
pub open spec fn gather(raw: Raw, subs: Seq<Sub>) -> Result<Raw, Fault>
    decreases subs.len(),
{
    if subs.len() == 0 {
        Ok(raw)
    } else {
        match raw.absorb(subs[0]) {
            Err(f) => Err(f),
            Ok(next) => gather(next, subs.drop_first()),
        }
    }
}

/// All sub-blocks of a block taken up, or the first thing wrong with them.
pub open spec fn gathered(meta: Seq<u8>) -> Result<Raw, Fault> {
    match gather(Raw::empty(), subs_from(meta, 0)) {
        Err(f) => Err(f),
        Ok(raw) => match subs_fault(meta, 0) {
            Some(f) => Err(f),
            None => Ok(raw),
        },
    }
}

/// The pass that a byte of the terms stands for, without history.
pub open spec fn pass_of(b: u8) -> Pass {
    let blank = Lane { w: 0, s: Seq::new(8, |i: int| 0i32) };
    Pass { term: (b % 32 - 5) as i32, delta: (b / 32) as i32, a: blank, b: blank }
}

/// The passes in the order in which they run, which is the reverse of the
/// stored one; the first of them with an unknown term makes the block invalid.
pub open spec fn passes_of(terms: Seq<u8>, mono: bool) -> Result<Seq<Pass>, Fault>
    decreases terms.len(),
{
    if terms.len() == 0 {
        Ok(Seq::empty())
    } else {
        match passes_of(terms.drop_first(), mono) {
            Err(f) => Err(f),
            Ok(ps) => {
                let p = pass_of(terms[0]);
                if own_past(p.term) || other_channel(p.term) && !mono {
                    Ok(ps.push(p))
                } else {
                    Err(Fault::Decode("WavPack 非法去相关 term "@ + decimal(p.term as int)))
                }
            },
        }
    }
}

/// Stored weight `i`, zero behind the last.
pub open spec fn stored_weight(data: Seq<u8>, i: int) -> i32 {
    if 0 <= i < data.len() {
        weight_of(data[i] as i8) as i32
    } else {
        0
    }
}

/// The passes with their weights, which are stored from the last pass to the
/// first.
pub open spec fn with_weights(ps: Seq<Pass>, data: Seq<u8>, mono: bool) -> Seq<Pass> {
    Seq::new(
        ps.len(),
        |j: int|
            {
                let k = ps.len() - 1 - j;
                if mono {
                    Pass { a: Lane { w: stored_weight(data, k), ..ps[j].a }, ..ps[j] }
                } else {
                    Pass {
                        a: Lane { w: stored_weight(data, 2 * k), ..ps[j].a },
                        b: Lane { w: stored_weight(data, 2 * k + 1), ..ps[j].b },
                        ..ps[j]
                    }
                }
            },
    )
}

/// The kept sample stored at `pos`.
pub open spec fn stored_sample(data: Seq<u8>, pos: int) -> i32 {
    exp2s((le16(data, pos) as u16 as i16) as i32)
}

/// A lane with kept sample `i` replaced.
pub open spec fn keeping(lane: Lane, i: int, v: i32) -> Lane {
    Lane { s: lane.s.update(i, v), ..lane }
}

/// A pass that looks back `term` samples, with its kept samples from `m` on
/// loaded; the place behind them, and whether all of them were there.
pub open spec fn load_back(p: Pass, data: Seq<u8>, pos: int, mono: bool, m: int) -> (
    Pass,
    int,
    bool,
)
    decreases p.term - m,
{
    if m >= p.term {
        (p, pos, true)
    } else if pos + 2 > data.len() {
        (p, pos, false)
    } else {
        let pa = Pass { a: keeping(p.a, m, stored_sample(data, pos)), ..p };
        if mono {
            load_back(pa, data, pos + 2, mono, m + 1)
        } else if pos + 4 > data.len() {
            (pa, pos + 2, false)
        } else {
            load_back(
                Pass { b: keeping(p.b, m, stored_sample(data, pos + 2)), ..pa },
                data,
                pos + 4,
                mono,
                m + 1,
            )
        }
    }
}

/// A pass with its kept samples loaded from `pos`; the place behind them, and
/// whether all of them were there.
pub open spec fn load_pass(p: Pass, data: Seq<u8>, pos: int, mono: bool) -> (Pass, int, bool) {
    if p.term == 17 || p.term == 18 {
        if pos + 4 > data.len() {
            (p, pos, false)
        } else {
            let pa = Pass {
                a: keeping(
                    keeping(p.a, 0, stored_sample(data, pos)),
                    1,
                    stored_sample(data, pos + 2),
                ),
                ..p
            };
            if mono {
                (pa, pos + 4, true)
            } else if pos + 8 > data.len() {
                (pa, pos + 4, false)
            } else {
                (
                    Pass {
                        b: keeping(
                            keeping(p.b, 0, stored_sample(data, pos + 4)),
                            1,
                            stored_sample(data, pos + 6),
                        ),
                        ..pa
                    },
                    pos + 8,
                    true,
                )
            }
        }
    } else if p.term < 0 {
        if pos + 4 > data.len() {
            (p, pos, false)
        } else {
            (
                Pass {
                    a: keeping(p.a, 0, stored_sample(data, pos)),
                    b: keeping(p.b, 0, stored_sample(data, pos + 2)),
                    ..p
                },
                pos + 4,
                true,
            )
        }
    } else {
        load_back(p, data, pos, mono, 0)
    }
}

/// The first `k` passes loaded from the last to the first, as far as the data
/// goes, and the place behind what was loaded.
pub open spec fn load_passes(ps: Seq<Pass>, data: Seq<u8>, pos: int, mono: bool, k: nat) -> (
    Seq<Pass>,
    int,
)
    decreases k,
{
    if k == 0 || k > ps.len() {
        (ps, pos)
    } else {
        let j = (k - 1) as nat;
        let (p, next, whole) = load_pass(ps[j as int], data, pos, mono);
        if whole {
            load_passes(ps.update(j as int, p), data, next, mono, j)
        } else {
            (ps.update(j as int, p), next)
        }
    }
}

/// The medians stored from `at` on.
pub open spec fn stored_medians(data: Seq<u8>, at: int) -> Medians {
    Medians {
        m0: exp2s(le16(data, at) as i32) as u32,
        m1: exp2s(le16(data, at + 2) as i32) as u32,
        m2: exp2s(le16(data, at + 4) as i32) as u32,
    }
}

/// What a block is decoded with.
pub struct Parts {
    /// The passes, in the order in which they run.
    pub passes: Seq<Pass>,
    /// The medians of the first channel.
    pub m0: Medians,
    /// The medians of the second channel.
    pub m1: Medians,
    /// The residuals.
    pub stream: Seq<u8>,
    /// How samples of more than 24 bits were cut.
    pub int32_info: Option<Seq<u8>>,
    /// How floating-point samples were cut.
    pub float_info: Option<Seq<u8>>,
    /// The low bits.
    pub wvx: Option<Wvx>,
}

/// The passes with weights and kept samples, or what is wrong with them.
pub open spec fn history(
    terms: Seq<u8>,
    weights: Option<Seq<u8>>,
    samples: Option<Seq<u8>>,
    mono: bool,
) -> Result<Seq<Pass>, Fault> {
    match passes_of(terms, mono) {
        Err(f) => Err(f),
        Ok(ps) => {
            if weights matches Some(data) && (if mono {
                data.len()
            } else {
                data.len() / 2
            }) > ps.len() {
                Err(Fault::Decode("WavPack WEIGHTS 数量超 pass 数"@))
            } else {
                let weighted = match weights {
                    Some(data) => with_weights(ps, data, mono),
                    None => ps,
                };
                match samples {
                    None => Ok(weighted),
                    Some(data) => {
                        let (loaded, end) = load_passes(weighted, data, 0, mono, ps.len());
                        if end != data.len() {
                            Err(Fault::Decode("WavPack SAMPLES 载荷长度不符"@))
                        } else {
                            Ok(loaded)
                        }
                    },
                }
            }
        },
    }
}

/// What a block with audio is decoded with, or what is missing or wrong.
pub open spec fn assemble(raw: Raw, mono: bool) -> Result<Parts, Fault> {
    if raw.terms is None {
        Err(Fault::Decode("WavPack 缺 TERMS"@))
    } else if raw.entropy is None {
        Err(Fault::Decode("WavPack 缺 ENTROPY_VARS"@))
    } else if raw.stream is None {
        Err(Fault::Decode("WavPack 缺位流"@))
    } else if raw.terms->Some_0.len() > MAX_NTERMS {
        Err(Fault::Decode("WavPack TERMS 超过 16 条"@))
    } else {
        let entropy = raw.entropy->Some_0;
        match history(raw.terms->Some_0, raw.weights, raw.samples, mono) {
            Err(f) => Err(f),
            Ok(passes) => if entropy.len() != (if mono {
                6nat
            } else {
                12nat
            }) {
                Err(Fault::Decode("WavPack ENTROPY_VARS 长度非法"@))
            } else {
                Ok(
                    Parts {
                        passes,
                        m0: stored_medians(entropy, 0),
                        m1: if mono {
                            Medians::zero()
                        } else {
                            stored_medians(entropy, 6)
                        },
                        stream: raw.stream->Some_0,
                        int32_info: raw.int32_info,
                        float_info: raw.float_info,
                        wvx: raw.wvx,
                    },
                )
            },
        }
    }
}

/// What a block is decoded with; nothing for a block without audio.
pub open spec fn parts_of(header: BlockHeader, meta: Seq<u8>) -> Result<Option<Parts>, Fault> {
    match gathered(meta) {
        Err(f) => Err(f),
        Ok(raw) => if header.block_samples == 0 {
            Ok(None)
        } else {
            match assemble(raw, header.mono_data()) {
                Err(f) => Err(f),
                Ok(parts) => Ok(Some(parts)),
            }
        },
    }
}

/// The bytes behind an optional slice.
pub open spec fn bytes_of(s: Option<&[u8]>) -> Option<Seq<u8>> {
    match s {
        Some(b) => Some(b@),
        None => None,
    }
}

/// The bytes of an optional array.
pub open spec fn info_of(a: Option<[u8; 4]>) -> Option<Seq<u8>> {
    match a {
        Some(b) => Some(b@),
        None => None,
    }
}

/// The stream of low bits: its checksum, its bytes, and whether it has the
/// newer form.
pub struct WvxStream<'a> {
    /// The checksum of the samples with their low bits.
    pub crc: u32,
    /// The bytes.
    pub stream: &'a [u8],
    /// The newer form.
    pub is_new: bool,
}

/// What an optional stream of low bits holds.
pub open spec fn wvx_of(w: Option<WvxStream>) -> Option<Wvx> {
    match w {
        Some(w) => Some(Wvx { crc: w.crc, stream: w.stream@, is_new: w.is_new }),
        None => None,
    }
}

/// The sub-blocks collected so far.
struct RawParts<'a> {
    terms: Option<&'a [u8]>,
    weights: Option<&'a [u8]>,
    samples: Option<&'a [u8]>,
    entropy: Option<&'a [u8]>,
    stream: Option<&'a [u8]>,
    int32_info: Option<[u8; 4]>,
    float_info: Option<[u8; 4]>,
    wvx: Option<WvxStream<'a>>,
}

/// Four bytes as an array.
fn four(data: &[u8]) -> (a: [u8; 4])
    requires
        data@.len() == 4,
    ensures
        a@ == data@,
{
    let a: [u8; 4] = [data[0], data[1], data[2], data[3]];
    assert(a@ =~= data@);
    a
}

impl<'a> RawParts<'a> {
    spec fn raw(&self) -> Raw {
        Raw {
            terms: bytes_of(self.terms),
            weights: bytes_of(self.weights),
            samples: bytes_of(self.samples),
            entropy: bytes_of(self.entropy),
            stream: bytes_of(self.stream),
            int32_info: info_of(self.int32_info),
            float_info: info_of(self.float_info),
            wvx: wvx_of(self.wvx),
        }
    }

    fn new() -> (r: Self)
        ensures
            r.raw() == Raw::empty(),
    {
        RawParts {
            terms: None,
            weights: None,
            samples: None,
            entropy: None,
            stream: None,
            int32_info: None,
            float_info: None,
            wvx: None,
        }
    }

    /// Takes up one sub-block.
    fn absorb(&mut self, sub: SubBlock<'a>) -> (r: Result<(), DecodeError>)
        ensures
            match old(self).raw().absorb(sub.sub()) {
                Ok(raw) => r is Ok && final(self).raw() == raw,
                Err(f) => r matches Err(e) && e@ == f,
            },
    {
        let data = sub.data;
        if sub.id == ID_HYBRID_PROFILE || sub.id == ID_SHAPING_WEIGHTS || sub.id
            == ID_WVC_BITSTREAM {
            return Err(DecodeError::unsupported("WavPack hybrid 模式不支持"));
        } else if sub.id == ID_DSD_BLOCK {
            return Err(DecodeError::unsupported("WavPack DSD 流不支持"));
        } else if sub.id == ID_CHANNEL_INFO {
            if data.len() == 0 {
                return Err(DecodeError::decode("WavPack CHANNEL_INFO 空载荷"));
            }
            if data[0] > 2 {
                return Err(DecodeError::unsupported("WavPack 超过 2 声道的流不支持"));
            }
        } else if sub.id == ID_DECORR_TERMS {
            self.terms = Some(data);
        } else if sub.id == ID_DECORR_WEIGHTS {
            if self.terms.is_none() {
                return Err(DecodeError::decode("WavPack WEIGHTS 出现在 TERMS 之前"));
            }
            self.weights = Some(data);
        } else if sub.id == ID_DECORR_SAMPLES {
            if self.terms.is_none() {
                return Err(DecodeError::decode("WavPack SAMPLES 出现在 TERMS 之前"));
            }
            self.samples = Some(data);
        } else if sub.id == ID_ENTROPY_VARS {
            self.entropy = Some(data);
        } else if sub.id == ID_WV_BITSTREAM {
            self.stream = Some(data);
        } else if sub.id == ID_INT32_INFO {
            if data.len() != 4 {
                return Err(DecodeError::decode("WavPack INT32_INFO 长度非法"));
            }
            self.int32_info = Some(four(data));
        } else if sub.id == ID_FLOAT_INFO {
            if data.len() != 4 {
                return Err(DecodeError::decode("WavPack FLOAT_INFO 长度非法"));
            }
            self.float_info = Some(four(data));
        } else if sub.id == ID_WVX_BITSTREAM || sub.id == ID_WVX_NEW_BITSTREAM {
            if data.len() <= 4 || data.len() % 2 != 0 {
                return Err(DecodeError::decode("WavPack WVX 载荷长度非法"));
            }
            self.wvx = Some(
                WvxStream {
                    crc: read_le32(data, 0),
                    stream: &data[4..data.len()],
                    is_new: sub.id == ID_WVX_NEW_BITSTREAM,
                },
            );
        } else if sub.id < 0x20 && !is_known_required_id(sub.id) {
            let mut text: String = "WavPack 未知必识子块 id ".to_owned();
            text.append(hexadecimal_text(sub.id as u64).as_str());
            return Err(DecodeError::Decode(text));
        }
        Ok(())
    }
}

/// Takes up all sub-blocks.
fn collect_raw<'a>(meta: &'a [u8]) -> (r: Result<RawParts<'a>, DecodeError>)
    ensures
        match gathered(meta@) {
            Ok(raw) => r matches Ok(p) && p.raw() == raw,
            Err(f) => r matches Err(e) && e@ == f,
        },
{
    let mut raw = RawParts::new();
    let mut walk = SubBlocks::new(meta);
    loop
        invariant
            walk.meta == meta,
            walk.pos <= meta.len(),
            gather(Raw::empty(), subs_from(meta@, 0)) == gather(
                raw.raw(),
                subs_from(meta@, walk.pos as int),
            ),
            subs_fault(meta@, 0) == subs_fault(meta@, walk.pos as int),
        decreases meta.len() - walk.pos,
    {
        let ghost at = walk.pos as int;
        match walk.next() {
            None => {
                return Ok(raw);
            },
            Some(Err(e)) => {
                return Err(e);
            },
            Some(Ok(sub)) => {
                proof {
                    let subs = subs_from(meta@, at);
                    assert(subs.drop_first() =~= subs_from(meta@, walk.pos as int));
                    assert(subs[0] == sub.sub());
                }
                match raw.absorb(sub) {
                    Ok(()) => {},
                    Err(e) => {
                        return Err(e);
                    },
                }
            },
        }
    }
}

/// The passes as they are modelled.
pub open spec fn pass_views(ps: Seq<DecorrPass>) -> Seq<Pass> {
    Seq::new(ps.len(), |i: int| ps[i]@)
}

/// Builds the passes out of the terms.
fn build_passes(terms: &[u8], mono: bool) -> (r: Result<Vec<DecorrPass>, DecodeError>)
    ensures
        match passes_of(terms@, mono) {
            Ok(ps) => r matches Ok(v) && pass_views(v@) == ps,
            Err(f) => r matches Err(e) && e@ == f,
        },
{
    let mut passes: Vec<DecorrPass> = Vec::new();
    let n: usize = terms.len();
    let mut k: usize = 0;
    assert(terms@.skip(n as int) =~= Seq::empty());
    assert(pass_views(passes@) =~= Seq::empty());
    while k < n
        invariant
            n == terms.len(),
            k <= n,
            passes_of(terms@.skip(n - k), mono) == Ok::<Seq<Pass>, Fault>(pass_views(passes@)),
        decreases n - k,
    {
        let ghost before = passes@;
        let ghost rest = terms@.skip(n - k - 1);
        assert(rest.drop_first() =~= terms@.skip(n - k));
        let b: u8 = terms[n - 1 - k];
        assert(rest[0] == b);
        let term: i32 = (b % 32) as i32 - 5;
        let own: bool = 1 <= term && term <= 8 || term == 17 || term == 18;
        let other: bool = -3 <= term && term <= -1;
        if !(own || other && !mono) {
            let mut text: String = "WavPack 非法去相关 term ".to_owned();
            text.append(decimal_text(term as i64).as_str());
            proof {
                lemma_bad_term(terms@, mono, n - k - 1);
            }
            return Err(DecodeError::Decode(text));
        }
        let p = DecorrPass {
            term,
            delta: (b / 32) as i32,
            weight_a: 0,
            weight_b: 0,
            samples_a: [0;8],
            samples_b: [0;8],
        };
        assert(p@ =~= pass_of(b)) by {
            assert(p@.a.s =~= pass_of(b).a.s);
            assert(p@.b.s =~= pass_of(b).b.s);
        }
        passes.push(p);
        assert(pass_views(passes@) =~= pass_views(before).push(p@));
        k = k + 1;
    }
    assert(terms@.skip(0) =~= terms@);
    Ok(passes)
}

/// What is wrong with the last terms is what is wrong with all of them.
proof fn lemma_bad_term(terms: Seq<u8>, mono: bool, j: int)
    requires
        0 <= j <= terms.len(),
        passes_of(terms.skip(j), mono) is Err,
    ensures
        passes_of(terms, mono) == passes_of(terms.skip(j), mono),
    decreases j,
{
    if j == 0 {
        assert(terms.skip(0) =~= terms);
    } else {
        assert(terms.skip(j - 1).drop_first() =~= terms.skip(j));
        lemma_bad_term(terms, mono, j - 1);
    }
}

/// Reads stored weight `i`, zero behind the last.
fn weight_at(data: &[u8], i: usize) -> (w: i32)
    ensures
        w == stored_weight(data@, i as int),
{
    if i < data.len() {
        restore_weight(data[i] as i8)
    } else {
        0
    }
}

/// Gives the passes their weights.
fn set_weights(passes: &mut Vec<DecorrPass>, data: &[u8], mono: bool)
    requires
        old(passes)@.len() <= MAX_NTERMS,
    ensures
        pass_views(final(passes)@) == with_weights(pass_views(old(passes)@), data@, mono),
{
    let ghost before = pass_views(passes@);
    let n: usize = passes.len();
    let mut k: usize = 0;
    while k < n
        invariant
            k <= n <= MAX_NTERMS,
            n == passes@.len(),
            before.len() == n,
            forall|i: int|
                0 <= i < n - k ==> #[trigger] passes@[i]@ == before[i],
            forall|i: int|
                n - k <= i < n ==> #[trigger] passes@[i]@ == with_weights(before, data@, mono)[i],
        decreases n - k,
    {
        let j: usize = n - 1 - k;
        let ghost held = passes@;
        assert(held[j as int]@ == before[j as int]);
        if mono {
            passes[j].weight_a = weight_at(data, k);
        } else {
            passes[j].weight_a = weight_at(data, 2 * k);
            passes[j].weight_b = weight_at(data, 2 * k + 1);
        }
        assert(passes@ =~= held.update(j as int, passes@[j as int]));
        assert(passes@[j as int]@ == with_weights(before, data@, mono)[j as int]);
        k = k + 1;
    }
    assert(pass_views(passes@) =~= with_weights(before, data@, mono));
}

/// Reads the kept sample at `pos`.
fn sample_at(data: &[u8], pos: usize) -> (v: i32)
    requires
        pos + 2 <= data.len(),
    ensures
        v == stored_sample(data@, pos as int),
{
    let raw: i16 = read_le16(data, pos) as i16;
    wp_exp2s(raw as i32)
}

/// Loads the kept samples of a pass that looks back a number of samples.
fn load_back_kept(p: &mut DecorrPass, data: &[u8], pos: &mut usize, mono: bool) -> (whole: bool)
    requires
        1 <= old(p).term <= 8,
        *old(pos) <= data.len(),
    ensures
        *final(pos) <= data.len(),
        (final(p)@, *final(pos) as int, whole) == load_back(
            old(p)@,
            data@,
            *old(pos) as int,
            mono,
            0,
        ),
{
    let ghost want = load_back(p@, data@, *pos as int, mono, 0);
    let mut m: usize = 0;
    while m < p.term as usize
        invariant
            1 <= p.term <= 8,
            m <= p.term,
            *pos <= data.len(),
            want == load_back(old(p)@, data@, *old(pos) as int, mono, 0),
            want == load_back(p@, data@, *pos as int, mono, m as int),
        decreases p.term - m,
    {
        let ghost start = p@;
        if data.len() - *pos < 2 {
            return false;
        }
        let a: i32 = sample_at(data, *pos);
        p.samples_a[m] = a;
        *pos = *pos + 2;
        assert(p@ == (Pass { a: keeping(start.a, m as int, a), ..start }));
        if !mono {
            if data.len() - *pos < 2 {
                return false;
            }
            let b: i32 = sample_at(data, *pos);
            p.samples_b[m] = b;
            *pos = *pos + 2;
        }
        m = m + 1;
    }
    true
}

/// Loads the kept samples of a pass.
fn load_kept(p: &mut DecorrPass, data: &[u8], pos: &mut usize, mono: bool) -> (whole: bool)
    requires
        own_past(old(p).term) || other_channel(old(p).term),
        *old(pos) <= data.len(),
    ensures
        *final(pos) <= data.len(),
        (final(p)@, *final(pos) as int, whole) == load_pass(
            old(p)@,
            data@,
            *old(pos) as int,
            mono,
        ),
{
    if p.term == 17 || p.term == 18 {
        if data.len() - *pos < 4 {
            return false;
        }
        p.samples_a[0] = sample_at(data, *pos);
        p.samples_a[1] = sample_at(data, *pos + 2);
        *pos = *pos + 4;
        if !mono {
            if data.len() - *pos < 4 {
                return false;
            }
            p.samples_b[0] = sample_at(data, *pos);
            p.samples_b[1] = sample_at(data, *pos + 2);
            *pos = *pos + 4;
        }
        true
    } else if p.term < 0 {
        if data.len() - *pos < 4 {
            return false;
        }
        p.samples_a[0] = sample_at(data, *pos);
        p.samples_b[0] = sample_at(data, *pos + 2);
        *pos = *pos + 4;
        true
    } else {
        load_back_kept(p, data, pos, mono)
    }
}

/// Loads the kept samples of all passes; the result is the place behind them.
fn load_all(passes: &mut Vec<DecorrPass>, data: &[u8], mono: bool) -> (end: usize)
    requires
        forall|i: int|
            0 <= i < old(passes)@.len() ==> own_past((#[trigger] old(passes)@[i]).term)
                || other_channel(old(passes)@[i].term),
    ensures
        (pass_views(final(passes)@), end as int) == load_passes(
            pass_views(old(passes)@),
            data@,
            0,
            mono,
            old(passes)@.len(),
        ),
{
    let ghost want = load_passes(pass_views(passes@), data@, 0, mono, passes@.len());
    let mut pos: usize = 0;
    let mut k: usize = passes.len();
    while k > 0
        invariant
            k <= passes@.len(),
            pos <= data.len(),
            want == load_passes(
                pass_views(old(passes)@),
                data@,
                0,
                mono,
                old(passes)@.len(),
            ),
            want == load_passes(pass_views(passes@), data@, pos as int, mono, k as nat),
            forall|i: int|
                0 <= i < passes@.len() ==> own_past((#[trigger] passes@[i]).term)
                    || other_channel(passes@[i].term),
        decreases k,
    {
        let ghost before = passes@;
        let j: usize = k - 1;
        let whole: bool = load_kept(&mut passes[j], data, &mut pos, mono);
        proof {
            lemma_load_keeps_term(pass_views(before)[j as int], data@, mono);
            assert(passes@ =~= before.update(j as int, passes@[j as int]));
            assert(pass_views(passes@) =~= pass_views(before).update(
                j as int,
                passes@[j as int]@,
            ));
        }
        if !whole {
            return pos;
        }
        k = j;
    }
    pos
}

/// Loading kept samples does not change the term.
proof fn lemma_load_keeps_term(p: Pass, data: Seq<u8>, mono: bool)
    ensures
        forall|pos: int| (#[trigger] load_pass(p, data, pos, mono)).0.term == p.term,
{
    assert forall|pos: int| (#[trigger] load_pass(p, data, pos, mono)).0.term == p.term by {
        lemma_back_keeps_term(p, data, pos, mono, 0);
    }
}

proof fn lemma_back_keeps_term(p: Pass, data: Seq<u8>, pos: int, mono: bool, m: int)
    ensures
        load_back(p, data, pos, mono, m).0.term == p.term,
    decreases p.term - m,
{
    if m < p.term && pos + 2 <= data.len() {
        let pa = Pass { a: keeping(p.a, m, stored_sample(data, pos)), ..p };
        if mono {
            lemma_back_keeps_term(pa, data, pos + 2, mono, m + 1);
        } else if pos + 4 <= data.len() {
            let pb = Pass { b: keeping(p.b, m, stored_sample(data, pos + 2)), ..pa };
            lemma_back_keeps_term(pb, data, pos + 4, mono, m + 1);
        }
    }
}

/// Reads the medians stored at `at`.
fn medians_at(data: &[u8], at: usize) -> (m: Medians)
    requires
        at + 6 <= data.len(),
    ensures
        m == stored_medians(data@, at as int),
{
    Medians {
        m0: wp_exp2s(read_le16(data, at) as i32) as u32,
        m1: wp_exp2s(read_le16(data, at + 2) as i32) as u32,
        m2: wp_exp2s(read_le16(data, at + 4) as i32) as u32,
    }
}

/// What a block is decoded with.
pub struct BlockParts<'a> {
    /// The passes, in the order in which they run.
    pub passes: Vec<DecorrPass>,
    /// The medians of the first channel.
    pub m0: Medians,
    /// The medians of the second channel.
    pub m1: Medians,
    /// The residuals.
    pub stream: &'a [u8],
    /// How samples of more than 24 bits were cut.
    pub int32_info: Option<[u8; 4]>,
    /// How floating-point samples were cut.
    pub float_info: Option<[u8; 4]>,
    /// The low bits.
    pub wvx: Option<WvxStream<'a>>,
}

impl<'a> BlockParts<'a> {
    /// What the parts hold.
    pub open spec fn parts(&self) -> Parts {
        Parts {
            passes: pass_views(self.passes@),
            m0: self.m0,
            m1: self.m1,
            stream: self.stream@,
            int32_info: info_of(self.int32_info),
            float_info: info_of(self.float_info),
            wvx: wvx_of(self.wvx),
        }
    }
}

/// The passes of a block have known terms.
proof fn lemma_fresh_passes(terms: Seq<u8>, mono: bool)
    ensures
        passes_of(terms, mono) matches Ok(ps) ==> ps.len() == terms.len() && forall|i: int|
            #![trigger ps[i]]
            0 <= i < ps.len() ==> (own_past(ps[i].term) || other_channel(ps[i].term) && !mono),
    decreases terms.len(),
{
    if terms.len() > 0 {
        lemma_fresh_passes(terms.drop_first(), mono);
    }
}

/// Collects what a block is decoded with.
pub fn collect_parts<'a>(header: &BlockHeader, meta: &'a [u8]) -> (r: Result<
    Option<BlockParts<'a>>,
    DecodeError,
>)
    ensures
        match parts_of(*header, meta@) {
            Ok(None) => r matches Ok(None),
            Ok(Some(parts)) => r matches Ok(Some(p)) && p.parts() == parts,
            Err(f) => r matches Err(e) && e@ == f,
        },
{
    let raw = match collect_raw(meta) {
        Ok(raw) => raw,
        Err(e) => {
            return Err(e);
        },
    };
    if header.block_samples == 0 {
        return Ok(None);
    }
    let terms: &'a [u8] = match raw.terms {
        Some(b) => b,
        None => {
            return Err(DecodeError::decode("WavPack 缺 TERMS"));
        },
    };
    let entropy: &'a [u8] = match raw.entropy {
        Some(b) => b,
        None => {
            return Err(DecodeError::decode("WavPack 缺 ENTROPY_VARS"));
        },
    };
    let stream: &'a [u8] = match raw.stream {
        Some(b) => b,
        None => {
            return Err(DecodeError::decode("WavPack 缺位流"));
        },
    };
    if terms.len() > MAX_NTERMS {
        return Err(DecodeError::decode("WavPack TERMS 超过 16 条"));
    }
    let mono: bool = header.mono_data();
    proof {
        lemma_fresh_passes(terms@, mono);
    }
    let mut passes = match build_passes(terms, mono) {
        Ok(passes) => passes,
        Err(e) => {
            return Err(e);
        },
    };
    let ghost fresh = pass_views(passes@);
    assert forall|i: int| 0 <= i < passes@.len() implies (#[trigger] passes@[i])@ == fresh[i] by {}
    match raw.weights {
        Some(data) => {
            let count: usize = if mono {
                data.len()
            } else {
                data.len() / 2
            };
            if count > passes.len() {
                return Err(DecodeError::decode("WavPack WEIGHTS 数量超 pass 数"));
            }
            set_weights(&mut passes, data, mono);
        },
        None => {},
    }
    let ghost weighted = pass_views(passes@);
    assert forall|i: int| 0 <= i < passes@.len() implies own_past((#[trigger] passes@[i]).term)
        || other_channel(passes@[i].term) by {
        assert(passes@[i]@ == weighted[i]);
        assert(weighted.len() == fresh.len());
        assert(weighted[i].term == fresh[i].term);
    }
    match raw.samples {
        Some(data) => {
            let end: usize = load_all(&mut passes, data, mono);
            if end != data.len() {
                return Err(DecodeError::decode("WavPack SAMPLES 载荷长度不符"));
            }
        },
        None => {},
    }
    let want: usize = if mono {
        6
    } else {
        12
    };
    if entropy.len() != want {
        return Err(DecodeError::decode("WavPack ENTROPY_VARS 长度非法"));
    }
    let m0: Medians = medians_at(entropy, 0);
    let m1: Medians = if mono {
        Medians::none()
    } else {
        medians_at(entropy, 6)
    };
    Ok(
        Some(
            BlockParts {
                passes,
                m0,
                m1,
                stream,
                int32_info: raw.int32_info,
                float_info: raw.float_info,
                wvx: raw.wvx,
            },
        ),
    )
}

} // verus!
