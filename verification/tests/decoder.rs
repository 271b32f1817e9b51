//! Which decoder a file goes to.

use tuneux_corex::decoder::{
    check_seek, codec_display_name, codec_name_or_ext, is_ffmpeg_path, is_opus_path,
    is_wav_path, is_wavpack_path, known_audio_exts, map_outside_error, may_fall_back,
    probe_sample_rate, route, AudioParams, OutsideFault, Route,
};
use tuneux_corex::error::DecodeError;

/// The extension of a path.
fn ext(path: &str) -> Option<&str> {
    std::path::Path::new(path).extension().and_then(|e| e.to_str())
}

#[test]
fn probe_missing_returns_none() {
    let path = "nonexistent_test_file_12345.wav";
    assert_eq!(probe_sample_rate(ext(path), None, None), None, "不存在文件应返回 None");
}

#[test]
fn extensions_count_as_the_system_finds_them() {
    assert_eq!(route(None, b""), Route::Symphonia);
    assert_eq!(route(Some(""), b""), Route::Symphonia);
    assert_eq!(route(Some("x\\a.wav"), b""), Route::Symphonia);
    assert_eq!(route(ext(".wav"), b""), Route::Symphonia);
    assert_eq!(route(ext("dir.wav/a"), b""), Route::Symphonia);
    assert_eq!(route(ext("dir/a.b.Wav"), b""), Route::Wav);
    assert_eq!(codec_name_or_ext("", None), "?");
    assert_eq!(codec_name_or_ext("", Some("ogg")), "OGG");
}

#[test]
fn codecs_have_names() {
    assert_eq!(codec_display_name("flac"), "FLAC");
    assert_eq!(codec_display_name("mp3"), "MP3");
    assert_eq!(codec_display_name("aac"), "AAC");
    assert_eq!(codec_display_name("alac"), "ALAC");
    assert_eq!(codec_display_name("vorbis"), "Vorbis");
    assert_eq!(codec_display_name("pcm"), "PCM");
    assert_eq!(codec_display_name("0x1234"), "");
    assert_eq!(codec_display_name("xyz"), "");
    assert_eq!(codec_display_name("speex"), "");
    assert_eq!(codec_name_or_ext("speex", ext("a/b.spx")), "SPX");
    assert_eq!(codec_name_or_ext("0x1", ext("a/b.m4a")), "M4A");
    assert_eq!(codec_name_or_ext("", ext("a/b")), "?");
    assert_eq!(codec_name_or_ext("mp3", ext("a.x")), "MP3");
    assert_eq!(codec_name_or_ext("", ext("a.straße")), "STRASSE");
}

#[test]
fn files_go_to_their_decoders() {
    assert_eq!(route(ext("a.OPUS"), b""), Route::Opus);
    assert_eq!(route(ext("a.wv"), b""), Route::WavPack);
    assert_eq!(route(ext("a.Ape"), b""), Route::Ffmpeg);
    assert_eq!(route(ext("a.wav"), b""), Route::Wav);
    assert_eq!(route(ext("a"), b"RIFF....WAVE"), Route::Wav);
    assert_eq!(route(ext("a.flac"), b""), Route::Flac);
    assert_eq!(route(ext("a"), b"fLaC"), Route::Flac);
    assert_eq!(route(ext("a.bin"), &vec![0u8; 2352]), Route::Cdda);
    assert_eq!(route(ext("a.bin"), &vec![0u8; 2353]), Route::Symphonia);
    assert_eq!(route(ext("a.mp3"), b""), Route::Symphonia);
    assert!(is_opus_path(ext("x.opus"), b""));
    assert!(!is_wav_path(ext("x"), b"RIFF"));
    assert!(is_wavpack_path(ext("X.WV")));
}

#[test]
fn probe_asks_the_decoder_of_the_file() {
    assert_eq!(probe_sample_rate(ext("a.mp3"), Some(b""), Some(22_050)), Some(22_050));
    assert_eq!(probe_sample_rate(ext("a.ape"), Some(b""), Some(22_050)), None);
    assert_eq!(probe_sample_rate(ext("a.wv"), Some(b"x"), Some(22_050)), None);
    assert_eq!(probe_sample_rate(ext("a.bin"), Some(&vec![0u8; 2352]), None), Some(44_100));
}

#[test]
fn only_wav_and_flac_fall_back() {
    let no = DecodeError::Unsupported("x".to_string());
    let bad = DecodeError::Decode("x".to_string());
    assert!(may_fall_back(Route::Wav, &no));
    assert!(may_fall_back(Route::Flac, &no));
    assert!(!may_fall_back(Route::Cdda, &no));
    assert!(!may_fall_back(Route::Wav, &bad));
}

#[test]
fn known_extensions_are_all_listed() {
    let all = known_audio_exts();
    assert_eq!(all.len(), 21);
    assert_eq!(all[0], "mp3");
    for e in ["ape", "wma", "flv", "tak", "ofr", "mpc", "shn", "ac3", "dts", "tta", "dsf", "dff"] {
        assert!(all.contains(&e));
        assert!(is_ffmpeg_path(ext(&format!("a.{e}"))));
    }
    assert!(!all.contains(&"bin"));
    assert!(!is_ffmpeg_path(ext("a.mp3")));
}

#[test]
fn refused_times_are_named() {
    let inf = f64::INFINITY.to_bits();
    let neg = (-0.5f64).to_bits();
    for (r, text) in [
        (Route::Wav, "Seek 错误：非法 seek 秒数：x"),
        (Route::Flac, "Seek 错误：非法 seek 秒数：x"),
        (Route::Cdda, "Seek 错误：非法 seek 秒数：x"),
        (Route::Opus, "Seek 错误：seek 秒数必须为非负有限值"),
        (Route::WavPack, "Seek 错误：seek 秒数必须为非负有限值"),
        (Route::Ffmpeg, "Seek 错误：seek 秒数必须为非负有限值"),
    ] {
        for bad in [inf, neg] {
            assert_eq!(check_seek(r, bad, "x").unwrap_err().message(), text);
        }
        for good in [0.0f64, -0.0, 1e300, f64::MIN_POSITIVE] {
            assert!(check_seek(r, good.to_bits(), "x").is_ok());
        }
    }
    assert!(check_seek(Route::Symphonia, inf, "x").is_ok());
}

#[test]
fn outside_faults_keep_their_kind() {
    let s = || "m".to_string();
    assert_eq!(map_outside_error(OutsideFault::Io(s())).message(), "IO 错误：m");
    assert_eq!(map_outside_error(OutsideFault::Decode(s())).message(), "解码错误：m");
    assert_eq!(map_outside_error(OutsideFault::Unsupported(s())).message(), "不支持：m");
    assert_eq!(map_outside_error(OutsideFault::Seek(s())).message(), "Seek 错误：m");
    assert_eq!(map_outside_error(OutsideFault::Other(s())).message(), "解码错误：m");
}

#[test]
fn params_hold_what_they_are_given() {
    let p = AudioParams::new(Some(1), Some(2), None, "c".to_string(), 4, Some(5));
    assert_eq!(p.sample_rate, Some(1));
    assert_eq!(p.channels, Some(2));
    assert_eq!(p.bits_per_sample, None);
    assert_eq!(p.codec_name, "c");
    assert_eq!(p.track_id, 4);
    assert_eq!(p.duration, Some(5));
}
