//! Files that an installed `ffmpeg` decodes: how it is called, and what its output
//! means.

use crate::bytes::{le16, read_le16};
use crate::chars::{chars_of, string_of, trim, trimmed};
use crate::cue::{to_upper, upper};
use crate::decoder::{texts, AudioParams, Params};
use crate::error::{DecodeError, Fault};
use crate::text::{decimal, decimal_text};
use crate::wav::twos;
use vstd::prelude::*;

verus! {

/// The sample rate that is asked for.
pub const SAMPLE_RATE: u32 = 48000;

/// The channels that are asked for.
pub const CHANNELS: u16 = 2;

/// Bits per sample.
pub const BITS_PER_SAMPLE: u32 = 16;

/// The bytes read at a time: a tenth of a second.
pub const BUFFER_LEN: usize = 19200;

/// The arguments in front of the name of the file. `seek` is a time in seconds.
pub open spec fn leading_arguments(seek: Option<Seq<char>>) -> Seq<Seq<char>> {
    let first = seq!["-hide_banner"@, "-loglevel"@, "error"@];
    match seek {
        Some(secs) => first + seq!["-ss"@, secs, "-i"@],
        None => first + seq!["-i"@],
    }
}

/// The arguments behind the name of the file: only sound, two channels of 16-bit
/// samples at 48 kHz, to standard output.
pub open spec fn trailing_arguments() -> Seq<Seq<char>> {
    seq![
        "-vn"@,
        "-sn"@,
        "-f"@,
        "s16le"@,
        "-ac"@,
        "2"@,
        "-ar"@,
        "48000"@,
        "pipe:1"@,
    ]
}

/// The arguments in front of the name of the file.
pub fn arguments_before<'a>(seek: Option<&'a str>) -> (v: Vec<&'a str>)
    ensures
        texts(v@) == leading_arguments(
            match seek {
                Some(s) => Some(s@),
                None => None,
            },
        ),
{
    let mut v: Vec<&'a str> = Vec::new();
    v.push("-hide_banner");
    v.push("-loglevel");
    v.push("error");
    if let Some(secs) = seek {
        v.push("-ss");
        v.push(secs);
    }
    v.push("-i");
    assert(texts(v@) =~= leading_arguments(
        match seek {
            Some(s) => Some(s@),
            None => None,
        },
    ));
    v
}

/// The arguments behind the name of the file.
pub fn arguments_after() -> (v: Vec<&'static str>)
    ensures
        texts(v@) == trailing_arguments(),
{
    let mut v: Vec<&'static str> = Vec::new();
    v.push("-vn");
    v.push("-sn");
    v.push("-f");
    v.push("s16le");
    v.push("-ac");
    v.push("2");
    v.push("-ar");
    v.push("48000");
    v.push("pipe:1");
    assert(texts(v@) =~= trailing_arguments());
    v
}

/// The name shown for the codec of a file, by its extension.
pub fn codec_name(ext: Option<&str>) -> (name: String)
    ensures
        name@ == "FFmpeg/"@ + (match ext {
            Some(e) => upper(e@),
            None => "UNKNOWN"@,
        }),
{
    let mut name: String = "FFmpeg/".to_owned();
    match ext {
        Some(e) => {
            name.append(to_upper(e).as_str());
        },
        None => {
            name.append("UNKNOWN");
        },
    }
    name
}

/// What is known of a file, by its extension: the form of the output that is asked
/// for. Its length is not known.
pub fn params(ext: Option<&str>) -> (p: AudioParams)
    ensures
        p@ == (Params {
            sample_rate: Some(SAMPLE_RATE),
            channels: Some(CHANNELS),
            bits_per_sample: Some(BITS_PER_SAMPLE),
            codec_name: "FFmpeg/"@ + (match ext {
                Some(e) => upper(e@),
                None => "UNKNOWN"@,
            }),
            track_id: 0,
            duration: None,
        }),
{
    AudioParams::new(
        Some(SAMPLE_RATE),
        Some(CHANNELS),
        Some(BITS_PER_SAMPLE),
        codec_name(ext),
        0,
        None,
    )
}

/// The samples in the output; half a sample at its end is left out.
pub open spec fn samples_in(b: Seq<u8>) -> Seq<i16> {
    Seq::new(b.len() / 2, |i: int| twos(le16(b, 2 * i), 0x8000) as i16)
}

/// Reads the samples in the output.
pub fn read_samples(b: &[u8]) -> (out: Vec<i16>)
    ensures
        out@ == samples_in(b@),
{
    let n: usize = b.len() / 2;
    let mut out: Vec<i16> = Vec::new();
    let mut i: usize = 0;
    while i < n
        invariant
            n == b.len() / 2,
            i <= n,
            out@ == samples_in(b@).take(i as int),
        decreases n - i,
    {
        let x: i32 = read_le16(b, 2 * i) as i32;
        let v: i16 = if x >= 0x8000 {
            (x - 0x1_0000) as i16
        } else {
            x as i16
        };
        out.push(v);
        assert(out@ =~= samples_in(b@).take(i + 1));
        i = i + 1;
    }
    assert(out@ =~= samples_in(b@));
    out
}

/// What is said of a failure: what was written to standard error, or the exit code
/// where that is nothing.
pub open spec fn failure_text(stderr: Seq<char>, code: Option<i32>) -> Seq<char> {
    "FFmpeg 解码失败："@ + if trimmed(stderr).len() > 0 {
        trimmed(stderr)
    } else {
        match code {
            Some(c) => "退出码 Some("@ + decimal(c as int) + ")"@,
            None => "退出码 None"@,
        }
    }
}

/// The error for a failure.
pub fn failure(stderr: &str, code: Option<i32>) -> (e: DecodeError)
    ensures
        e@ == Fault::Decode(failure_text(stderr@, code)),
{
    let cs: Vec<char> = chars_of(stderr);
    let said: &[char] = trim(cs.as_slice());
    let mut text: String = "FFmpeg 解码失败：".to_owned();
    let ghost head = text@;
    if said.len() > 0 {
        text.append(string_of(said).as_str());
    } else {
        match code {
            Some(c) => {
                let mut tail: String = "退出码 Some(".to_owned();
                tail.append(decimal_text(c as i64).as_str());
                tail.append(")");
                text.append(tail.as_str());
            },
            None => {
                text.append("退出码 None");
            },
        }
    }
    assert(text@ =~= failure_text(stderr@, code));
    DecodeError::Decode(text)
}

/// What a block of output leads to, if it holds `b` and the process has ended with
/// `exit`: whether it succeeded, and its exit code.
pub open spec fn block_outcome(
    b: Seq<u8>,
    exit: Option<(bool, Option<i32>)>,
    stderr: Seq<char>,
) -> Result<Option<Seq<i16>>, Fault> {
    if b.len() > 0 {
        Ok(Some(samples_in(b)))
    } else {
        match exit {
            Some((false, code)) => Err(Fault::Decode(failure_text(stderr, code))),
            _ => Ok(None),
        }
    }
}

/// Takes a block of output: its samples, the end where it is empty, or the error of
/// a process that failed.
pub fn take_block(b: &[u8], exit: Option<(bool, Option<i32>)>, stderr: &str) -> (r: Result<
    Option<Vec<i16>>,
    DecodeError,
>)
    ensures
        match block_outcome(b@, exit, stderr@) {
            Ok(Some(v)) => r matches Ok(Some(w)) && w@ == v,
            Ok(None) => r matches Ok(None),
            Err(f) => r matches Err(e) && e@ == f,
        },
{
    if b.len() > 0 {
        return Ok(Some(read_samples(b)));
    }
    match exit {
        Some((false, code)) => Err(failure(stderr, code)),
        _ => Ok(None),
    }
}

/// The error where `ffmpeg` is not installed.
pub fn missing() -> (e: DecodeError)
    ensures
        e@ == Fault::Unsupported("ffmpeg 未安装或不可用；请安装 FFmpeg 后重试"@),
{
    DecodeError::unsupported("ffmpeg 未安装或不可用；请安装 FFmpeg 后重试")
}

} // verus!
