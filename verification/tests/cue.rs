//! Reading CUE sheets.

use tuneux_corex::cue::{
    decode_cue_bytes, parse_cue, parse_cue_sheet, parse_cue_time, parse_file_name, parse_quoted,
    sniff_bom, Charset, CueParseError, FRAMES_PER_SECOND,
};

fn secs(frames: u64) -> f64 {
    frames as f64 / FRAMES_PER_SECOND as f64
}

fn fault(content: &str) -> (u32, String) {
    match parse_cue_sheet(content) {
        Ok(_) => panic!("the sheet must be refused"),
        Err(CueParseError::Syntax { line, message }) => (line, message),
    }
}

#[test]
fn parses_basic_tracks() {
    let cue = r#"
REM GENRE "Classical"
FILE "album.flac" WAVE
  TRACK 01 AUDIO
    TITLE "第一乐章"
    PERFORMER "乐团A"
    INDEX 01 00:00:00
  TRACK 02 AUDIO
    TITLE "第二乐章"
    PERFORMER "乐团A"
    INDEX 01 05:30:00
  TRACK 03 AUDIO
    TITLE "第三乐章"
    PERFORMER "乐团A"
    INDEX 01 12:45:37
"#;
    let tracks = parse_cue(cue).unwrap();
    assert_eq!(tracks.len(), 3);
    assert_eq!(tracks[0].index, 1);
    assert_eq!(tracks[0].title, "第一乐章");
    assert_eq!(tracks[0].performer.as_deref(), Some("乐团A"));
    assert_eq!(secs(tracks[0].start_frames), 0.0);
    assert_eq!(secs(tracks[1].start_frames), 330.0);
    assert!((secs(tracks[2].start_frames) - (12.0 * 60.0 + 45.0 + 37.0 / 75.0)).abs() < 1e-9);
}

#[test]
fn handles_unquoted_and_missing_title() {
    let cue = "TRACK 01 AUDIO\n  INDEX 01 00:00:00\nTRACK 02 AUDIO\n  TITLE PlainTitle\n  INDEX 01 01:00:00\n";
    let tracks = parse_cue(cue).unwrap();
    assert_eq!(tracks[0].title, "Track 1");
    assert_eq!(tracks[1].title, "PlainTitle");
}

#[test]
fn errors_on_no_tracks() {
    assert!(parse_cue("REM nothing here\n").is_err());
    assert!(parse_cue("").is_err());
}

#[test]
fn errors_on_bad_time() {
    let cue = "TRACK 01 AUDIO\n  INDEX 01 99:99:99\n";
    assert!(parse_cue(cue).is_err());
}

#[test]
fn track_number_missing_errors() {
    let cue = "TRACK AUDIO\n  INDEX 01 00:00:00\n";
    assert!(parse_cue(cue).is_err());
}

#[test]
fn multi_file_rejected() {
    let cue = "FILE \"a.flac\" WAVE\n  TRACK 01 AUDIO\n    INDEX 01 00:00:00\nFILE \"b.flac\" WAVE\n  TRACK 02 AUDIO\n    INDEX 01 01:00:00\n";
    assert!(parse_cue(cue).is_err());
}

#[test]
fn missing_index01_errors() {
    let cue = "TRACK 01 AUDIO\n  INDEX 01 00:00:00\nTRACK 02 AUDIO\n  INDEX 00 01:00:00\n";
    assert!(parse_cue(cue).is_err());
}

#[test]
fn bom_is_ignored() {
    let cue = "\u{feff}TRACK 01 AUDIO\n  INDEX 01 00:00:00\nTRACK 02 AUDIO\n  INDEX 01 01:00:00\n";
    let tracks = parse_cue(cue).unwrap();
    assert_eq!(tracks.len(), 2);
}

#[test]
fn frame_precision() {
    assert!((secs(parse_cue_time("00:00:37").unwrap()) - 37.0 / 75.0).abs() < 1e-9);
    assert_eq!(parse_cue_time("01:30:00").map(secs), Some(90.0));
    assert_eq!(parse_cue_time("00:00:75"), None);
    assert_eq!(parse_cue_time("bad"), None);
}

#[test]
fn sheet_album_fields_and_end_secs() {
    let cue = r#"TITLE "测试专辑"
PERFORMER "测试乐团"
FILE "album.bin" BINARY
  TRACK 01 AUDIO
    INDEX 01 00:00:00
  TRACK 02 AUDIO
    INDEX 01 03:00:00
  TRACK 03 AUDIO
    INDEX 01 07:30:00
"#;
    let sheet = parse_cue_sheet(cue).unwrap();
    assert_eq!(sheet.album_title.as_deref(), Some("测试专辑"));
    assert_eq!(sheet.album_performer.as_deref(), Some("测试乐团"));
    assert_eq!(sheet.audio_file.as_deref(), Some("album.bin"));
    assert_eq!(sheet.track_count(), 3);
    assert_eq!(sheet.tracks[0].end_frames.map(secs), Some(180.0));
    assert_eq!(sheet.tracks[1].end_frames.map(secs), Some(450.0));
    assert_eq!(sheet.tracks[2].end_frames, None);
    assert_eq!(sheet.tracks[0].duration_frames().map(secs), Some(180.0));
    assert!(sheet.track(2).is_some());
    assert!(sheet.track(9).is_none());
}

#[test]
fn pregap_and_sector() {
    let cue = "FILE \"a.bin\" BINARY\n  TRACK 01 AUDIO\n    INDEX 01 00:00:00\n  TRACK 02 AUDIO\n    INDEX 00 01:28:00\n    INDEX 01 01:30:00\n";
    let sheet = parse_cue_sheet(cue).unwrap();
    let t2 = sheet.track(2).unwrap();
    assert!((secs(t2.pregap_start_frames.unwrap()) - 88.0).abs() < 1e-9);
    assert!((secs(t2.start_frames) - 90.0).abs() < 1e-9);
    assert_eq!(t2.start_sector(), 90 * 75);
    assert!(sheet.track(1).unwrap().pregap_start_frames.is_none());
}

#[test]
fn data_track_marked_unplayable() {
    let cue = "FILE \"a.bin\" BINARY\n  TRACK 01 MODE1/2352\n    INDEX 01 00:00:00\n  TRACK 02 AUDIO\n    INDEX 01 03:00:00\n";
    let sheet = parse_cue_sheet(cue).unwrap();
    assert!(!sheet.tracks[0].is_audio);
    assert!(sheet.tracks[1].is_audio);
    assert_eq!(sheet.audio_tracks().len(), 1);
    assert_eq!(sheet.audio_tracks()[0].index, 2);
}

#[test]
fn decode_bytes_encoding_chain() {
    assert_eq!(decode_cue_bytes("标题".as_bytes()), "标题");
    let mut utf16 = vec![0xFFu8, 0xFE];
    utf16.extend("标".encode_utf16().flat_map(|u| u.to_le_bytes()));
    assert_eq!(decode_cue_bytes(&utf16), "标");
    assert_eq!(decode_cue_bytes(&[0xB1, 0xEA]), "标");
}

#[test]
fn file_unquoted_fallback() {
    let cue = "FILE album.wav WAVE\n  TRACK 01 AUDIO\n    INDEX 01 00:00:00\n";
    let sheet = parse_cue_sheet(cue).unwrap();
    assert_eq!(sheet.audio_file.as_deref(), Some("album.wav"));
}

#[test]
fn high_byte_first_text_is_decoded() {
    let mut bytes = vec![0xFEu8, 0xFF];
    bytes.extend("标题".encode_utf16().flat_map(|u| u.to_be_bytes()));
    assert_eq!(decode_cue_bytes(&bytes), "标题");
}

#[test]
fn byte_order_marks_are_told_apart() {
    assert_eq!(sniff_bom(&[0xEF, 0xBB, 0xBF, 65]), Some((Charset::Utf8, 3)));
    assert_eq!(sniff_bom(&[0xFF, 0xFE]), Some((Charset::Utf16Le, 2)));
    assert_eq!(sniff_bom(&[0xFE, 0xFF]), Some((Charset::Utf16Be, 2)));
    assert_eq!(sniff_bom(&[0xFF]), None);
    assert_eq!(sniff_bom(&[]), None);
}

#[test]
fn keywords_in_small_letters_are_read() {
    let sheet = parse_cue_sheet("file \"x.wav\" wave\ntrack 03 audio\nindex 01 00:00:00\n").unwrap();
    assert_eq!(sheet.tracks[0].index, 3);
    assert_eq!(sheet.audio_file.as_deref(), Some("x.wav"));
    assert!(sheet.tracks[0].is_audio);
}

#[test]
fn each_fault_names_its_line() {
    assert_eq!(fault("").0, 1);
    assert_eq!(fault("REM a\nTRACK AUDIO\n").0, 2);
    assert_eq!(fault("TRACK 01 AUDIO\nINDEX 01 00:60:00\n").0, 2);
    assert_eq!(fault("FILE \"a\" WAVE\nFILE \"b\" WAVE\n").0, 2);
    let (_, text) = fault("TRACK 01 AUDIO\nINDEX 01 1:2\n");
    assert!(!text.is_empty());
}

#[test]
fn fault_message_shows_line_and_text() {
    let e = CueParseError::Syntax { line: 12, message: "缺号".to_string() };
    assert_eq!(e.message(), "CUE 语法错误（第 12 行）：缺号");
}

#[test]
fn times_are_counted_in_frames() {
    assert_eq!(parse_cue_time("00:00:00"), Some(0));
    assert_eq!(parse_cue_time("00:01:00"), Some(75));
    assert_eq!(parse_cue_time("01:00:01"), Some(4501));
    assert_eq!(parse_cue_time("00:60:00"), None);
    assert_eq!(parse_cue_time("00:00"), None);
}

#[test]
fn times_that_differ_stand_for_different_frames() {
    assert_ne!(parse_cue_time("00:01:74"), parse_cue_time("00:02:00"));
    assert_eq!(parse_cue_time("00:01:74").map(|f| f + 1), parse_cue_time("00:02:00"));
}

#[test]
fn each_track_ends_where_the_next_starts() {
    let cue = "TRACK 01 AUDIO\nINDEX 01 00:00:10\nTRACK 02 AUDIO\nINDEX 01 00:02:00\nTRACK 03 AUDIO\nINDEX 01 00:09:30\n";
    let tracks = parse_cue(cue).unwrap();
    assert_eq!(tracks[0].end_frames, Some(tracks[1].start_frames));
    assert_eq!(tracks[1].end_frames, Some(tracks[2].start_frames));
    assert_eq!(tracks[2].end_frames, None);
    assert_eq!(tracks[1].duration_frames(), Some(9 * 75 + 30 - 150));
}

#[test]
fn quotation_marks_are_taken_off() {
    assert_eq!(parse_quoted("\"a b\"").as_deref(), Some("a b"));
    assert_eq!(parse_quoted("\"\"").as_deref(), Some(""));
    assert_eq!(parse_file_name("\"a b.wav\" WAVE"), "a b.wav");
    assert_eq!(parse_file_name("a.wav WAVE"), "a.wav");
}

#[test]
fn keywords_in_front_of_other_scripts_are_read() {
    let sheet = parse_cue_sheet(
        "title \"专辑 straße\"\nPerformer 乐团\nTrack 01 audio\nTitle \"第一乐章\"\nindex 01 00:00:00\n",
    )
    .unwrap();
    assert_eq!(sheet.album_title.as_deref(), Some("专辑 straße"));
    assert_eq!(sheet.album_performer.as_deref(), Some("乐团"));
    assert_eq!(sheet.tracks[0].title, "第一乐章");
}

#[test]
fn sheets_can_be_compared() {
    let text = "TRACK 01 AUDIO\nTITLE A\nINDEX 01 00:00:00\n";
    let sheet = parse_cue_sheet(text).unwrap();
    assert_eq!(parse_cue_sheet(text), Ok(sheet.clone()));
    assert_ne!(parse_cue_sheet(&text.replace('A', "B")), Ok(sheet));
    assert_eq!(parse_cue(""), parse_cue(" \n"));
}
