//! Which decoder a file goes to, what is known of it before decoding, and the
//! names of codecs. Of the path of a file only the extension counts, and how paths
//! are taken apart is up to the system: functions take the extension, if there is
//! one.

use crate::cdda;
use crate::chars::{caseless, chars_of, same_caseless, string_of};
use crate::cue::{to_upper, upper};
use crate::error::{DecodeError, Fault};
use crate::flac;
use crate::ogg_opus::{looks_like, looks_like_ogg_opus};
use crate::opus;
use crate::wav;
use crate::wavpack;
use vstd::prelude::*;

verus! {

/// The contents of an extension, which a path may have or not.
pub open spec fn ext_text(ext: Option<&str>) -> Option<Seq<char>> {
    match ext {
        Some(e) => Some(e@),
        None => None,
    }
}

/// Whether an extension is a given one, in any case.
pub open spec fn has_extension(ext: Option<Seq<char>>, name: Seq<char>) -> bool {
    ext matches Some(e) && caseless(e) == caseless(name)
}

fn ends_in(ext: Option<&str>, name: &str) -> (r: bool)
    ensures
        r == has_extension(ext_text(ext), name@),
{
    match ext {
        Some(e) => same_caseless(chars_of(e).as_slice(), name),
        None => false,
    }
}

/// The name shown for a codec; empty where it is not one of those known.
pub open spec fn display_name(codec: Seq<char>) -> Seq<char> {
    if codec == "flac"@ {
        "FLAC"@
    } else if codec == "mp3"@ {
        "MP3"@
    } else if codec == "aac"@ {
        "AAC"@
    } else if codec == "alac"@ {
        "ALAC"@
    } else if codec == "vorbis"@ {
        "Vorbis"@
    } else if codec == "pcm"@ {
        "PCM"@
    } else {
        Seq::empty()
    }
}

/// The name shown for a codec; empty where it is not one of those known, so that the
/// caller can fall back on something else.
pub fn codec_display_name(codec_name: &str) -> (name: String)
    ensures
        name@ == display_name(codec_name@),
{
    let text: Vec<char> = chars_of(codec_name);
    let cs: &[char] = text.as_slice();
    if crate::chars::same(cs, "flac") {
        "FLAC".to_owned()
    } else if crate::chars::same(cs, "mp3") {
        "MP3".to_owned()
    } else if crate::chars::same(cs, "aac") {
        "AAC".to_owned()
    } else if crate::chars::same(cs, "alac") {
        "ALAC".to_owned()
    } else if crate::chars::same(cs, "vorbis") {
        "Vorbis".to_owned()
    } else if crate::chars::same(cs, "pcm") {
        "PCM".to_owned()
    } else {
        string_of(Vec::new().as_slice())
    }
}

/// The name shown for a codec, or the extension of the file in capital letters
/// where it has none, or a question mark where that is missing too.
pub fn codec_name_or_ext(codec_name: &str, ext: Option<&str>) -> (name: String)
    ensures
        name@ == (if display_name(codec_name@).len() > 0 {
            display_name(codec_name@)
        } else {
            match ext {
                Some(e) => upper(e@),
                None => "?"@,
            }
        }),
{
    let name: String = codec_display_name(codec_name);
    if name.as_str().unicode_len() > 0 {
        return name;
    }
    match ext {
        Some(e) => to_upper(e),
        None => "?".to_owned(),
    }
}

/// What is known of a file before it is decoded.
#[derive(Debug, Clone)]
pub struct AudioParams {
    /// The sample rate in Hz.
    pub sample_rate: Option<u32>,
    /// The number of channels.
    pub channels: Option<u16>,
    /// Bits per sample.
    pub bits_per_sample: Option<u32>,
    /// The name of the codec.
    pub codec_name: String,
    /// The number of the track in the file.
    pub track_id: u32,
    /// The length: the bits of a number in seconds.
    pub duration: Option<u64>,
}

/// What is known of a file, by its contents.
pub struct Params {
    /// The sample rate in Hz.
    pub sample_rate: Option<u32>,
    /// The number of channels.
    pub channels: Option<u16>,
    /// Bits per sample.
    pub bits_per_sample: Option<u32>,
    /// The name of the codec.
    pub codec_name: Seq<char>,
    /// The number of the track in the file.
    pub track_id: u32,
    /// The length: the bits of a number in seconds.
    pub duration: Option<u64>,
}

impl View for AudioParams {
    type V = Params;

    open spec fn view(&self) -> Params {
        Params {
            sample_rate: self.sample_rate,
            channels: self.channels,
            bits_per_sample: self.bits_per_sample,
            codec_name: self.codec_name@,
            track_id: self.track_id,
            duration: self.duration,
        }
    }
}

impl AudioParams {
    /// Puts it together.
    pub fn new(
        sample_rate: Option<u32>,
        channels: Option<u16>,
        bits_per_sample: Option<u32>,
        codec_name: String,
        track_id: u32,
        duration: Option<u64>,
    ) -> (p: AudioParams)
        ensures
            p == (AudioParams {
                sample_rate,
                channels,
                bits_per_sample,
                codec_name,
                track_id,
                duration,
            }),
    {
        AudioParams { sample_rate, channels, bits_per_sample, codec_name, track_id, duration }
    }
}

/// The extensions of the files that an installed `ffmpeg` decodes.
pub open spec fn ffmpeg_extensions() -> Seq<Seq<char>> {
    seq![
        "ape"@,
        "wma"@,
        "flv"@,
        "tak"@,
        "ofr"@,
        "mpc"@,
        "shn"@,
        "ac3"@,
        "dts"@,
        "tta"@,
        "dsf"@,
        "dff"@,
    ]
}

/// The extensions of the files that are decoded here.
pub open spec fn native_extensions() -> Seq<Seq<char>> {
    seq![
        "mp3"@,
        "flac"@,
        "wav"@,
        "ogg"@,
        "m4a"@,
        "aac"@,
        "alac"@,
        "opus"@,
        "wv"@,
    ]
}

/// The texts of a list.
pub open spec fn texts(v: Seq<&str>) -> Seq<Seq<char>> {
    v.map_values(|s: &str| s@)
}

fn list_ffmpeg() -> (v: Vec<&'static str>)
    ensures
        texts(v@) == ffmpeg_extensions(),
{
    let mut v: Vec<&'static str> = Vec::new();
    v.push("ape");
    v.push("wma");
    v.push("flv");
    v.push("tak");
    v.push("ofr");
    v.push("mpc");
    v.push("shn");
    v.push("ac3");
    v.push("dts");
    v.push("tta");
    v.push("dsf");
    v.push("dff");
    assert(texts(v@) =~= ffmpeg_extensions());
    v
}

/// The extensions of all files that are known: those decoded here, then those
/// that an installed `ffmpeg` decodes.
pub fn known_audio_exts() -> (v: Vec<&'static str>)
    ensures
        texts(v@) == native_extensions() + ffmpeg_extensions(),
{
    let mut v: Vec<&'static str> = Vec::new();
    v.push("mp3");
    v.push("flac");
    v.push("wav");
    v.push("ogg");
    v.push("m4a");
    v.push("aac");
    v.push("alac");
    v.push("opus");
    v.push("wv");
    assert(texts(v@) =~= native_extensions());
    let mut rest: Vec<&'static str> = list_ffmpeg();
    let ghost a = v@;
    let ghost b = rest@;
    v.append(&mut rest);
    assert(texts(a + b) =~= texts(a) + texts(b));
    v
}

/// Whether an extension is in a list, in any case.
pub open spec fn listed(ext: Seq<char>, list: Seq<Seq<char>>) -> bool {
    exists|i: int| 0 <= i < list.len() && caseless(ext) == caseless(#[trigger] list[i])
}

/// Whether an installed `ffmpeg` decodes files with an extension.
pub open spec fn for_ffmpeg(ext: Option<Seq<char>>) -> bool {
    ext matches Some(e) && listed(e, ffmpeg_extensions())
}

/// No file that can be decoded here is left to `ffmpeg`: what needs none to be
/// installed never asks for one.
pub proof fn law_native_needs_no_ffmpeg(ext: Seq<char>)
    requires
        listed(ext, native_extensions()),
    ensures
        !for_ffmpeg(Some(ext)),
{
    reveal_strlit("mp3");
    reveal_strlit("flac");
    reveal_strlit("wav");
    reveal_strlit("ogg");
    reveal_strlit("m4a");
    reveal_strlit("aac");
    reveal_strlit("alac");
    reveal_strlit("opus");
    reveal_strlit("wv");
    reveal_strlit("ape");
    reveal_strlit("wma");
    reveal_strlit("flv");
    reveal_strlit("tak");
    reveal_strlit("ofr");
    reveal_strlit("mpc");
    reveal_strlit("shn");
    reveal_strlit("ac3");
    reveal_strlit("dts");
    reveal_strlit("tta");
    reveal_strlit("dsf");
    reveal_strlit("dff");
    let native = native_extensions();
    let others = ffmpeg_extensions();
    assert forall|i: int, j: int|
        0 <= i < native.len() && 0 <= j < others.len() implies caseless(#[trigger] native[i])
        != caseless(#[trigger] others[j]) by {
        let a = caseless(native[i]);
        let b = caseless(others[j]);
        assert(a.len() == b.len() ==> a[0] != b[0] || a[1] != b[1] || a[2] != b[2]);
    }
}

/// Tests whether an installed `ffmpeg` decodes files with an extension.
pub fn is_ffmpeg_path(ext: Option<&str>) -> (r: bool)
    ensures
        r == for_ffmpeg(ext_text(ext)),
{
    let name: Vec<char> = match ext {
        Some(e) => chars_of(e),
        None => return false,
    };
    let list: Vec<&'static str> = list_ffmpeg();
    let mut i: usize = 0;
    while i < list.len()
        invariant
            i <= list.len(),
            ext_text(ext) == Some(name@),
            texts(list@) == ffmpeg_extensions(),
            forall|j: int|
                0 <= j < i ==> caseless(name@) != caseless(#[trigger] ffmpeg_extensions()[j]),
        decreases list.len() - i,
    {
        assert(texts(list@)[i as int] == list@[i as int]@);
        if same_caseless(name.as_slice(), list[i]) {
            assert(caseless(name@) == caseless(ffmpeg_extensions()[i as int]));
            return true;
        }
        i = i + 1;
    }
    assert(texts(list@).len() == list@.len());
    false
}

/// A decoder.
#[derive(Debug, Clone, Copy, PartialEq, Eq, Structural)]
pub enum Route {
    /// Opus in Ogg.
    Opus,
    /// WavPack.
    WavPack,
    /// An installed `ffmpeg`.
    Ffmpeg,
    /// WAV.
    Wav,
    /// FLAC.
    Flac,
    /// The image of an audio disc.
    Cdda,
    /// A general decoder, which finds the format itself.
    Symphonia,
}

/// The decoder that a file goes to: by its extension, or by how it begins.
pub open spec fn routed(ext: Option<Seq<char>>, data: Seq<u8>) -> Route {
    if has_extension(ext, "opus"@) || looks_like(data) {
        Route::Opus
    } else if has_extension(ext, "wv"@) {
        Route::WavPack
    } else if for_ffmpeg(ext) {
        Route::Ffmpeg
    } else if has_extension(ext, "wav"@) || wav::is_riff_wave(data) {
        Route::Wav
    } else if has_extension(ext, "flac"@) || crate::bytes::has_at(
        data,
        0,
        flac::metadata::flac_magic(),
    ) {
        Route::Flac
    } else if has_extension(ext, "bin"@) && cdda::sector_size(data) is Some {
        Route::Cdda
    } else {
        Route::Symphonia
    }
}

/// Tests for Opus in Ogg.
pub fn is_opus_path(ext: Option<&str>, data: &[u8]) -> (r: bool)
    ensures
        r == (has_extension(ext_text(ext), "opus"@) || looks_like(data@)),
{
    ends_in(ext, "opus") || looks_like_ogg_opus(data)
}

/// Tests for WavPack.
pub fn is_wavpack_path(ext: Option<&str>) -> (r: bool)
    ensures
        r == has_extension(ext_text(ext), "wv"@),
{
    ends_in(ext, "wv")
}

/// Tests for WAV.
pub fn is_wav_path(ext: Option<&str>, data: &[u8]) -> (r: bool)
    ensures
        r == (has_extension(ext_text(ext), "wav"@) || wav::is_riff_wave(data@)),
{
    ends_in(ext, "wav") || wav::has_wave_magic(data)
}

/// Tests for FLAC.
pub fn is_flac_path(ext: Option<&str>, data: &[u8]) -> (r: bool)
    ensures
        r == (has_extension(ext_text(ext), "flac"@) || crate::bytes::has_at(
            data@,
            0,
            flac::metadata::flac_magic(),
        )),
{
    ends_in(ext, "flac") || flac::metadata::has_flac_magic(data)
}

/// Tests for the image of an audio disc.
pub fn is_bin_path(ext: Option<&str>, data: &[u8]) -> (r: bool)
    ensures
        r == (has_extension(ext_text(ext), "bin"@) && cdda::sector_size(data@) is Some),
{
    ends_in(ext, "bin") && cdda::detect_sector_size(data).is_some()
}

/// Finds the decoder for a file.
pub fn route(ext: Option<&str>, data: &[u8]) -> (r: Route)
    ensures
        r == routed(ext_text(ext), data@),
{
    if is_opus_path(ext, data) {
        Route::Opus
    } else if is_wavpack_path(ext) {
        Route::WavPack
    } else if is_ffmpeg_path(ext) {
        Route::Ffmpeg
    } else if is_wav_path(ext, data) {
        Route::Wav
    } else if is_flac_path(ext, data) {
        Route::Flac
    } else if is_bin_path(ext, data) {
        Route::Cdda
    } else {
        Route::Symphonia
    }
}

/// Whether another decoder may try a file that this one refused: the general one,
/// where a WAV or FLAC file is in a form that is not supported here.
pub fn may_fall_back(r: Route, e: &DecodeError) -> (again: bool)
    ensures
        again == ((r == Route::Wav || r == Route::Flac) && e@ is Unsupported),
{
    match e {
        DecodeError::Unsupported(_) => match r {
            Route::Wav => true,
            Route::Flac => true,
            _ => false,
        },
        _ => false,
    }
}

/// The sample rate that a probe finds. `outside` is what the general decoder
/// finds.
pub open spec fn probed_rate(
    ext: Option<Seq<char>>,
    data: Option<Seq<u8>>,
    outside: Option<u32>,
) -> Option<u32> {
    match data {
        None => None,
        Some(b) => if has_extension(ext, "wv"@) {
            wavpack::backend::probed_rate(b)
        } else {
            match routed(ext, b) {
                Route::Opus => opus::probed_rate(b),
                Route::WavPack => wavpack::backend::probed_rate(b),
                Route::Ffmpeg => None,
                Route::Wav => match wav::header_of(b) {
                    Ok(h) => Some(h.sample_rate),
                    Err(_) => None,
                },
                Route::Flac => match flac::metadata::metadata_of(b) {
                    Ok(m) => Some(m.info.sample_rate),
                    Err(_) => None,
                },
                Route::Cdda => Some(cdda::SAMPLE_RATE),
                Route::Symphonia => outside,
            }
        },
    }
}

/// Probes the sample rate of a file, without decoding. There is none of a file
/// that cannot be read, nor of one that `ffmpeg` decodes. (No slice is longer than
/// is asked here.)
pub fn probe_sample_rate(
    ext: Option<&str>,
    data: Option<&[u8]>,
    outside: Option<u32>,
) -> (rate: Option<u32>)
    requires
        data matches Some(b) ==> b.len() <= i64::MAX,
    ensures
        rate == probed_rate(
            ext_text(ext),
            match data {
                Some(b) => Some(b@),
                None => None,
            },
            outside,
        ),
{
    let b: &[u8] = match data {
        Some(b) => b,
        None => return None,
    };
    if is_wavpack_path(ext) {
        return wavpack::backend::probe_sample_rate(b);
    }
    match route(ext, b) {
        Route::Opus => opus::probe_sample_rate(b),
        Route::WavPack => wavpack::backend::probe_sample_rate(b),
        Route::Ffmpeg => None,
        Route::Wav => wav::probe_sample_rate(b),
        Route::Flac => flac::backend::probe_sample_rate(b),
        Route::Cdda => Some(cdda::SAMPLE_RATE),
        Route::Symphonia => outside,
    }
}

/// Whether the bits of a double-precision number are those of a time to seek to:
/// a number that is neither infinite nor below zero.
pub open spec fn seekable(secs: u64) -> bool {
    secs < 0x7FF0_0000_0000_0000 || secs == 0x8000_0000_0000_0000
}

/// What is said of a time that cannot be sought; nothing where the decoder judges
/// the time itself.
pub open spec fn seek_refusal(r: Route, shown: Seq<char>) -> Option<Seq<char>> {
    match r {
        Route::Wav | Route::Flac | Route::Cdda => Some("非法 seek 秒数："@ + shown),
        Route::Opus | Route::WavPack | Route::Ffmpeg => Some("seek 秒数必须为非负有限值"@),
        Route::Symphonia => None,
    }
}

/// Tests a time in seconds before a seek. It is given by its bits, and as it is
/// shown.
pub fn check_seek(r: Route, secs: u64, shown: &str) -> (res: Result<(), DecodeError>)
    ensures
        match seek_refusal(r, shown@) {
            Some(text) => if seekable(secs) {
                res is Ok
            } else {
                res matches Err(e) && e@ == Fault::Seek(text)
            },
            None => res is Ok,
        },
{
    if secs < 0x7FF0_0000_0000_0000 || secs == 0x8000_0000_0000_0000 {
        return Ok(());
    }
    match r {
        Route::Wav | Route::Flac | Route::Cdda => {
            let mut text: String = "非法 seek 秒数：".to_owned();
            text.append(shown);
            Err(DecodeError::Seek(text))
        },
        Route::Opus | Route::WavPack | Route::Ffmpeg => Err(
            DecodeError::seek("seek 秒数必须为非负有限值"),
        ),
        Route::Symphonia => Ok(()),
    }
}

/// What the general decoder reports.
pub enum OutsideFault {
    /// The underlying I/O failed.
    Io(String),
    /// The data is malformed.
    Decode(String),
    /// Something is not supported.
    Unsupported(String),
    /// A seek failed.
    Seek(String),
    /// Anything else.
    Other(String),
}

/// The error for what the general decoder reports.
pub fn map_outside_error(e: OutsideFault) -> (r: DecodeError)
    ensures
        r@ == (match e {
            OutsideFault::Io(m) => Fault::Io(m@),
            OutsideFault::Decode(m) => Fault::Decode(m@),
            OutsideFault::Unsupported(m) => Fault::Unsupported(m@),
            OutsideFault::Seek(m) => Fault::Seek(m@),
            OutsideFault::Other(m) => Fault::Decode(m@),
        }),
{
    match e {
        OutsideFault::Io(m) => DecodeError::Io(m),
        OutsideFault::Decode(m) => DecodeError::Decode(m),
        OutsideFault::Unsupported(m) => DecodeError::Unsupported(m),
        OutsideFault::Seek(m) => DecodeError::Seek(m),
        OutsideFault::Other(m) => DecodeError::Decode(m),
    }
}

} // verus!
