//! WavPack blocks and streams of them.

use super::bitstream::{BsReader, Cursor};
use super::decorr::{
    decorr_mono_pass, decorr_stereo_pass, mono_output, stereo_output, DecorrPass, Pass,
};
use super::fixup::{
    float_fixed, float_fixup, int32_fixed, int32_fixup, shift_up, shl, spread, spread_channels,
};
use super::header::{BlockHeader, MAX_BLOCK_SAMPLES};
use super::parts::{
    collect_parts, info_of, parts_of, pass_views, wvx_of, Wvx, WvxStream,
};
use super::words::{residual_count, WordsDecoder};
use crate::error::{DecodeError, Fault};
use vstd::arithmetic::power2::{lemma2_to64, lemma_pow2_strictly_increases, pow2};
use vstd::bits::lemma_u64_shl_is_mul;
use vstd::prelude::*;

verus! {

/// The samples after the first `k` passes.
pub open spec fn after_passes(ps: Seq<Pass>, xs: Seq<i32>, mono: bool, k: nat) -> Seq<i32>
    decreases k,
{
    if k == 0 {
        xs
    } else {
        let ys = after_passes(ps, xs, mono, (k - 1) as nat);
        if mono {
            mono_output(ps[k - 1], ys)
        } else {
            stereo_output(ps[k - 1], ys)
        }
    }
}

/// Left and right out of their difference and their middle, which are stored
/// in this order.
pub open spec fn unjoined(xs: Seq<i32>) -> Seq<i32> {
    Seq::new(
        xs.len(),
        |i: int|
            {
                let k = i / 2 * 2;
                if k + 1 >= xs.len() {
                    xs[i]
                } else {
                    let right = xs[k + 1].wrapping_sub(xs[k] >> 1);
                    if i % 2 == 0 {
                        xs[k].wrapping_add(right)
                    } else {
                        right
                    }
                }
            },
    )
}

/// Left and right as their difference and their middle.
pub open spec fn joined(left: i32, right: i32) -> (i32, i32) {
    let difference = left.wrapping_sub(right);
    (difference, right.wrapping_add(difference >> 1))
}

/// Joining the channels loses nothing.
pub proof fn law_joint_stereo_lossless(left: i32, right: i32)
    ensures
        unjoined(seq![joined(left, right).0, joined(left, right).1]) == seq![left, right],
{
    let (d, m) = joined(left, right);
    assert(unjoined(seq![d, m]) =~= seq![left, right]);
}

/// A sample larger than the block declares.
pub open spec fn too_loud(x: i32, magnitude: nat) -> bool {
    x > pow2(magnitude) + 2 || -x > pow2(magnitude) + 2
}

/// Some sample is larger than the block declares.
pub open spec fn any_too_loud(xs: Seq<i32>, magnitude: nat) -> bool {
    exists|i: int| 0 <= i < xs.len() && too_loud(#[trigger] xs[i], magnitude)
}

/// The checksum of the first `n` samples.
pub open spec fn checksum(xs: Seq<i32>, n: nat) -> u32
    decreases n,
{
    if n == 0 {
        0xFFFF_FFFF
    } else {
        checksum(xs, (n - 1) as nat).wrapping_mul(3).wrapping_add(xs[n - 1] as u32)
    }
}

/// The samples in their final form: floating-point bits, or integers with
/// their low bits, shifted up; each twice for two equal channels.
pub open spec fn finished(
    header: BlockHeader,
    int32_info: Option<Seq<u8>>,
    float_info: Option<Seq<u8>>,
    wvx: Option<Wvx>,
    xs: Seq<i32>,
) -> Result<Seq<i32>, Fault> {
    if header.float_data() {
        match float_info {
            None => Err(Fault::Decode("WavPack 缺 FLOAT_INFO"@)),
            Some(info) => float_fixed(xs, info, wvx, header.false_stereo()),
        }
    } else if header.int32_data() && int32_info is None {
        Err(Fault::Decode("WavPack 缺 INT32_INFO"@))
    } else {
        let fixed = if header.int32_data() {
            int32_fixed(xs, int32_info->Some_0, wvx, header.output_shift() as nat)
        } else {
            Ok((xs, header.output_shift() as nat))
        };
        match fixed {
            Err(f) => Err(f),
            Ok((ys, shift)) => Ok(
                spread(
                    if shift % 32 != 0 {
                        ys.map_values(|v: i32| shl(v, (shift % 32) as u32))
                    } else {
                        ys
                    },
                    header.false_stereo(),
                ),
            ),
        }
    }
}

/// The samples of a block with audio before their final form, or what is wrong
/// with them.
pub open spec fn restored_block(
    header: BlockHeader,
    passes: Seq<Pass>,
    words: WordsDecoder,
    stream: Seq<u8>,
) -> Result<Seq<i32>, Fault> {
    let mono = header.mono_data();
    let n = residual_count(header.block_samples, mono);
    let (xs, end) = words.words(Cursor::start(stream), 0, n, mono);
    if xs.len() != n || end.exhausted() {
        Err(Fault::Decode("WavPack 位流耗尽（截断或损坏）"@))
    } else {
        let ys = after_passes(passes, xs, mono, passes.len());
        let zs = if !mono && header.joint_stereo() {
            unjoined(ys)
        } else {
            ys
        };
        if any_too_loud(zs, header.magnitude() as nat) {
            Err(Fault::Decode("WavPack 样本超声明幅度"@))
        } else if checksum(zs, zs.len()) != header.crc {
            Err(Fault::Decode("WavPack 块 CRC 校验失败"@))
        } else {
            Ok(zs)
        }
    }
}

/// The samples of a block, or what is wrong with it.
pub open spec fn block_of(header: BlockHeader, meta: Seq<u8>) -> Result<Seq<i32>, Fault> {
    match parts_of(header, meta) {
        Err(f) => Err(f),
        Ok(None) => Ok(Seq::empty()),
        Ok(Some(parts)) => match restored_block(
            header,
            parts.passes,
            WordsDecoder::start(parts.m0, parts.m1),
            parts.stream,
        ) {
            Err(f) => Err(f),
            Ok(xs) => finished(header, parts.int32_info, parts.float_info, parts.wvx, xs),
        },
    }
}

/// Turns differences and middles into left and right.
fn unjoin(buffer: &mut Vec<i32>)
    ensures
        final(buffer)@ == unjoined(old(buffer)@),
{
    let ghost xs = buffer@;
    let n: usize = buffer.len() / 2;
    let mut f: usize = 0;
    while f < n
        invariant
            f <= n,
            n <= usize::MAX / 2,
            n == xs.len() / 2,
            buffer@.len() == xs.len(),
            forall|i: int| 0 <= i < 2 * f ==> buffer@[i] == unjoined(xs)[i],
            forall|i: int| 2 * f <= i < xs.len() ==> buffer@[i] == xs[i],
        decreases n - f,
    {
        let k: usize = 2 * f;
        let d: i32 = buffer[k];
        let right: i32 = buffer[k + 1].wrapping_sub(d >> 1);
        let left: i32 = d.wrapping_add(right);
        buffer[k + 1] = right;
        buffer[k] = left;
        assert(unjoined(xs)[k as int] == left);
        assert(unjoined(xs)[k + 1] == right);
        f = f + 1;
    }
    assert(buffer@ =~= unjoined(xs));
}

/// Checks the samples against the declared magnitude and the checksum.
fn check_block(header: &BlockHeader, xs: &Vec<i32>) -> (r: Result<(), DecodeError>)
    ensures
        ({
            let loud = any_too_loud(xs@, header.magnitude() as nat);
            match r {
                Ok(()) => !loud && checksum(xs@, xs@.len()) == header.crc,
                Err(e) => if loud {
                    e@ == Fault::Decode("WavPack 样本超声明幅度"@)
                } else {
                    &&& checksum(xs@, xs@.len()) != header.crc
                    &&& e@ == Fault::Decode("WavPack 块 CRC 校验失败"@)
                },
            }
        }),
{
    let magnitude: u32 = header.magnitude();
    proof {
        lemma2_to64();
        lemma_pow2_strictly_increases(magnitude as nat, 32);
        lemma_u64_shl_is_mul(1, magnitude as u64);
    }
    let limit: i64 = (1u64 << magnitude) as i64 + 2;
    let mut crc: u32 = 0xFFFF_FFFF;
    let mut i: usize = 0;
    while i < xs.len()
        invariant
            i <= xs@.len(),
            magnitude == header.magnitude(),
            limit == pow2(magnitude as nat) + 2,
            limit < 0x1_0000_0010,
            crc == checksum(xs@, i as nat),
            forall|j: int| 0 <= j < i ==> !too_loud(xs@[j], magnitude as nat),
        decreases xs@.len() - i,
    {
        let x: i64 = xs[i] as i64;
        if x > limit || x < -limit {
            assert(too_loud(xs@[i as int], magnitude as nat));
            return Err(DecodeError::decode("WavPack 样本超声明幅度"));
        }
        crc = crc.wrapping_mul(3).wrapping_add(xs[i] as u32);
        i = i + 1;
    }
    if crc != header.crc {
        return Err(DecodeError::decode("WavPack 块 CRC 校验失败"));
    }
    Ok(())
}

/// Runs all passes over the samples.
fn run_passes(passes: Vec<DecorrPass>, buffer: &mut Vec<i32>, mono: bool)
    ensures
        final(buffer)@ == after_passes(
            pass_views(passes@),
            old(buffer)@,
            mono,
            passes@.len(),
        ),
{
    let ghost residuals = buffer@;
    let mut passes = passes;
    let ghost model_passes = pass_views(passes@);
    let mut k: usize = 0;
    while k < passes.len()
        invariant
            k <= passes@.len(),
            passes@.len() == model_passes.len(),
            forall|j: int| k <= j < passes@.len() ==> (#[trigger] passes@[j])@ == model_passes[j],
            buffer@ == after_passes(model_passes, residuals, mono, k as nat),
        decreases passes@.len() - k,
    {
        let ghost before = passes@;
        assert(before[k as int]@ == model_passes[k as int]);
        if mono {
            decorr_mono_pass(&mut passes[k], buffer);
        } else {
            decorr_stereo_pass(&mut passes[k], buffer);
        }
        assert(passes@ =~= before.update(k as int, passes@[k as int]));
        k = k + 1;
    }
}

/// Decodes the samples of a block up to their final form.
fn restore_block(
    header: &BlockHeader,
    passes: Vec<DecorrPass>,
    words: WordsDecoder,
    stream: &[u8],
) -> (r: Result<Vec<i32>, DecodeError>)
    requires
        header.block_samples <= MAX_BLOCK_SAMPLES,
        words.holding_one <= 1,
    ensures
        match restored_block(*header, pass_views(passes@), words, stream@) {
            Ok(xs) => r matches Ok(v) && v@ == xs,
            Err(f) => r matches Err(e) && e@ == f,
        },
{
    let mono: bool = header.mono_data();
    let mut buffer: Vec<i32> = Vec::new();
    let mut words = words;
    let mut reader = BsReader::new(stream);
    if !words.get_words_lossless(&mut reader, header.block_samples, mono, &mut buffer) {
        return Err(DecodeError::decode("WavPack 位流耗尽（截断或损坏）"));
    }
    run_passes(passes, &mut buffer, mono);
    if !mono && header.joint_stereo() {
        unjoin(&mut buffer);
    }
    match check_block(header, &buffer) {
        Ok(()) => Ok(buffer),
        Err(e) => Err(e),
    }
}

/// Gives the samples of a block their final form.
fn finish_block(
    header: &BlockHeader,
    xs: Vec<i32>,
    int32_info: Option<[u8; 4]>,
    float_info: Option<[u8; 4]>,
    wvx: Option<WvxStream>,
) -> (r: Result<Vec<i32>, DecodeError>)
    ensures
        match finished(*header, info_of(int32_info), info_of(float_info), wvx_of(wvx), xs@) {
            Ok(ys) => r matches Ok(v) && v@ == ys,
            Err(f) => r matches Err(e) && e@ == f,
        },
{
    if header.float_data() {
        return match float_info {
            None => Err(DecodeError::decode("WavPack 缺 FLOAT_INFO")),
            Some(info) => float_fixup(&xs, &info, wvx, header.false_stereo()),
        };
    }
    let mut buffer = xs;
    let mut shift: u32 = header.output_shift();
    if header.int32_data() {
        match int32_info {
            None => {
                return Err(DecodeError::decode("WavPack 缺 INT32_INFO"));
            },
            Some(info) => match int32_fixup(buffer, &info, wvx, shift) {
                Ok((fixed, total)) => {
                    buffer = fixed;
                    shift = total;
                },
                Err(e) => {
                    return Err(e);
                },
            },
        }
    }
    shift = shift % 32;
    if shift != 0 {
        shift_all(&mut buffer, shift);
    }
    Ok(spread_channels(buffer, header.false_stereo()))
}

/// Decodes a block.
pub fn decode_block(header: &BlockHeader, meta: &[u8]) -> (r: Result<Vec<i32>, DecodeError>)
    requires
        header.block_samples <= MAX_BLOCK_SAMPLES,
    ensures
        match block_of(*header, meta@) {
            Ok(xs) => r matches Ok(v) && v@ == xs,
            Err(f) => r matches Err(e) && e@ == f,
        },
{
    match collect_parts(header, meta) {
        Ok(Some(parts)) => {
            let words = WordsDecoder::new(parts.m0, parts.m1);
            match restore_block(header, parts.passes, words, parts.stream) {
                Ok(xs) => finish_block(
                    header,
                    xs,
                    parts.int32_info,
                    parts.float_info,
                    parts.wvx,
                ),
                Err(e) => Err(e),
            }
        },
        Ok(None) => Ok(Vec::new()),
        Err(e) => Err(e),
    }
}

/// Shifts all samples up.
fn shift_all(buffer: &mut Vec<i32>, k: u32)
    requires
        k < 32,
    ensures
        final(buffer)@ == old(buffer)@.map_values(|v: i32| shl(v, k)),
{
    let ghost xs = buffer@;
    let mut i: usize = 0;
    while i < buffer.len()
        invariant
            k < 32,
            i <= buffer@.len(),
            buffer@.len() == xs.len(),
            forall|j: int| 0 <= j < i ==> buffer@[j] == shl(xs[j], k),
            forall|j: int| i <= j < xs.len() ==> buffer@[j] == xs[j],
        decreases buffer@.len() - i,
    {
        buffer[i] = shift_up(buffer[i], k);
        i = i + 1;
    }
    assert(buffer@ =~= xs.map_values(|v: i32| shl(v, k)));
}

} // verus!
