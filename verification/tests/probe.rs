//! Tags, covers, the outside decoder's process, and texts.

use tuneux_corex::bytes::{matches_at, read_be24, read_be32, read_be64, read_le16, read_le24, read_le32, read_le64};
use tuneux_corex::chars::{chars_of, contains, parse_u32, same_caseless, string_of, trim, word_at};
use tuneux_corex::error::DecodeError;
use tuneux_corex::ffmpeg::{
    arguments_after, arguments_before, codec_name, failure, missing, params, read_samples,
    take_block, BUFFER_LEN, CHANNELS, SAMPLE_RATE,
};
use tuneux_corex::probe::{choose_cover, fill_tags, ProbeTags, Tag, Usage, Visual};
use tuneux_corex::text::{decimal_text, hexadecimal_padded_text, hexadecimal_text, natural_text};

/// The extension of a path.
fn ext(path: &str) -> Option<&str> {
    std::path::Path::new(path).extension().and_then(|e| e.to_str())
}

fn t(s: &str) -> String {
    s.to_string()
}

#[test]
fn tags_are_taken_over() {
    let mut tags = ProbeTags::default();
    fill_tags(
        &mut tags,
        &vec![
            Tag::Other,
            Tag::TrackTitle(t("title")),
            Tag::Album(t("album")),
            Tag::TrackNumber(7),
            Tag::Lyrics(t("la")),
        ],
    );
    assert_eq!(tags.title.as_deref(), Some("title"));
    assert_eq!(tags.album.as_deref(), Some("album"));
    assert_eq!(tags.track_number, Some(7));
    assert_eq!(tags.lyrics.as_deref(), Some("la"));
    assert!(tags.artist.is_none() && tags.cover.is_none());
}

#[test]
fn artist_of_the_track_wins() {
    let mut tags = ProbeTags::new();
    fill_tags(&mut tags, &vec![Tag::Artist(t("a")), Tag::AlbumArtist(t("b"))]);
    assert_eq!(tags.artist.as_deref(), Some("a"));
    let mut tags = ProbeTags::new();
    fill_tags(&mut tags, &vec![Tag::AlbumArtist(t("b"))]);
    assert_eq!(tags.artist.as_deref(), Some("b"));
}

#[test]
fn front_cover_comes_first() {
    let v = |usage: Usage, data: &[u8], ty: Option<&str>| Visual {
        usage,
        data: data.to_vec(),
        media_type: ty.map(t),
    };
    let list = vec![
        v(Usage::Other, &[1], Some("image/png")),
        v(Usage::BackCover, &[2], Some("image/png")),
        v(Usage::FrontCover, &[], Some("image/png")),
        v(Usage::FrontCover, &[3], Some("image/jpeg")),
    ];
    assert_eq!(choose_cover(&list), Some((vec![3], t("image/jpeg"))));
    assert_eq!(choose_cover(&list[..2].iter().map(|x| v(x.usage, &x.data, x.media_type.as_deref())).collect()), Some((vec![2], t("image/png"))));
    assert_eq!(choose_cover(&vec![v(Usage::Other, &[1], Some("x"))]), Some((vec![1], t("x"))));
    assert_eq!(choose_cover(&vec![v(Usage::Other, &[1], None)]), None);
    assert_eq!(choose_cover(&vec![]), None);
}

#[test]
fn process_gets_its_arguments() {
    assert_eq!(arguments_before(None), vec!["-hide_banner", "-loglevel", "error", "-i"]);
    assert_eq!(
        arguments_before(Some("1.5")),
        vec!["-hide_banner", "-loglevel", "error", "-ss", "1.5", "-i"]
    );
    assert_eq!(
        arguments_after(),
        vec!["-vn", "-sn", "-f", "s16le", "-ac", "2", "-ar", "48000", "pipe:1"]
    );
    assert_eq!((SAMPLE_RATE, CHANNELS, BUFFER_LEN), (48_000, 2, 19_200));
}

#[test]
fn process_output_is_read() {
    assert_eq!(read_samples(&[0, 0x80, 0xFF, 0x7F, 1]), vec![-32768, 32767]);
    assert!(read_samples(&[]).is_empty());
    assert_eq!(codec_name(ext("a.ape")), "FFmpeg/APE");
    assert_eq!(codec_name(ext("a")), "FFmpeg/UNKNOWN");
    let p = params(ext("a.dsf"));
    assert_eq!((p.sample_rate, p.channels, p.bits_per_sample), (Some(48_000), Some(2), Some(16)));
    assert_eq!((p.codec_name.as_str(), p.track_id, p.duration), ("FFmpeg/DSF", 0, None));
}

#[test]
fn process_failure_is_named() {
    assert_eq!(failure("  no file \n", Some(1)).message(), "解码错误：FFmpeg 解码失败：no file");
    assert_eq!(failure(" \n", Some(-7)).message(), "解码错误：FFmpeg 解码失败：退出码 Some(-7)");
    assert_eq!(failure("", None).message(), "解码错误：FFmpeg 解码失败：退出码 None");
    assert!(matches!(missing(), DecodeError::Unsupported(_)));
}

#[test]
fn numerals_are_written() {
    assert_eq!(decimal_text(i64::MIN), "-9223372036854775808");
    assert_eq!(decimal_text(0), "0");
    assert_eq!(natural_text(u64::MAX), "18446744073709551615");
    assert_eq!(hexadecimal_text(0xBEEF), "0xbeef");
    assert_eq!(hexadecimal_padded_text(0xF, 4), "0x000f");
    assert_eq!(hexadecimal_padded_text(0x12345, 2), "0x12345");
}

#[test]
fn characters_are_handled() {
    let cs = chars_of(" a\u{3000} 12 ");
    assert_eq!(string_of(trim(&cs)), "a\u{3000} 12");
    assert_eq!(string_of(word_at(&cs, 1).unwrap()), "12");
    assert!(word_at(&cs, 2).is_none());
    assert_eq!(parse_u32(&chars_of("+12")), "+12".parse().ok());
    assert_eq!(parse_u32(&chars_of("4294967295")), Some(u32::MAX));
    assert_eq!(parse_u32(&chars_of("4294967296")), None);
    assert_eq!(parse_u32(&chars_of("")), None);
    assert_eq!(parse_u32(&chars_of("-1")), None);
    assert!(same_caseless(&chars_of("AbC"), "aBc"));
    assert!(!same_caseless(&chars_of("Ä"), "ä"));
    assert!(contains("abcd", "bc"));
    assert!(!contains("abcd", "cb"));
}

#[test]
fn numbers_are_read_from_bytes() {
    let b = [1u8, 2, 3, 4, 5, 6, 7, 8, 9];
    assert_eq!(read_le16(&b, 1), 0x0302);
    assert_eq!(read_le24(&b, 0), 0x030201);
    assert_eq!(read_le32(&b, 0), 0x04030201);
    assert_eq!(read_le64(&b, 1), 0x0908070605040302);
    assert_eq!(read_be24(&b, 0), 0x010203);
    assert_eq!(read_be32(&b, 1), 0x02030405);
    assert_eq!(read_be64(&b, 0), 0x0102030405060708);
    assert!(matches_at(&b, 7, &[8, 9]));
    assert!(!matches_at(&b, 8, &[9, 10]));
}

#[test]
fn blocks_of_output_are_taken() {
    assert_eq!(take_block(&[1, 0, 255, 255], None, "").unwrap(), Some(vec![1, -1]));
    assert_eq!(take_block(&[], Some((true, Some(0))), "words").unwrap(), None);
    assert_eq!(take_block(&[], None, "").unwrap(), None);
    match take_block(&[], Some((false, Some(1))), " bad input\n") {
        Err(DecodeError::Decode(text)) => assert_eq!(text, "FFmpeg 解码失败：bad input"),
        _ => panic!(),
    }
    match take_block(&[], Some((false, None)), "") {
        Err(DecodeError::Decode(text)) => assert_eq!(text, "FFmpeg 解码失败：退出码 None"),
        _ => panic!(),
    }
}
