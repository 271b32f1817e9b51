//! CUE sheets: one audio file taken apart into tracks.
//!
//! Times are counted in CD frames, 75 to the second.

use crate::bytes::{has_at, matches_at};
use crate::chars::{
    begins, chars_of, find, parse_u32, same, starts, string_of, trim, trimmed, u32_of, until,
    word, word_at,
};
use crate::text::{decimal, decimal_text, join3};
use vstd::prelude::*;
use vstd::utf8::{decode_utf8, valid_utf8};

verus! {

/// CD frames, which are also sectors, per second.
pub const FRAMES_PER_SECOND: u64 = 75;

/// A track.
#[derive(Debug, Clone, PartialEq)]
pub struct CueTrack {
    /// The track number, from 1.
    pub index: u32,
    /// The title; `Track n` where the sheet gives none.
    pub title: String,
    /// The performer.
    pub performer: Option<String>,
    /// Where the track starts.
    pub start_frames: u64,
    /// Where the gap in front of the track starts.
    pub pregap_start_frames: Option<u64>,
    /// Where the track ends; the last one plays to the end of the file.
    pub end_frames: Option<u64>,
    /// An audio track; a data track cannot be played.
    pub is_audio: bool,
}

/// What a track says.
pub struct Track {
    /// The track number.
    pub index: u32,
    /// The title.
    pub title: Seq<char>,
    /// The performer.
    pub performer: Option<Seq<char>>,
    /// Where it starts.
    pub start: u64,
    /// Where the gap in front of it starts.
    pub pregap: Option<u64>,
    /// Where it ends.
    pub end: Option<u64>,
    /// It is audio.
    pub is_audio: bool,
}

/// What an optional text says.
pub open spec fn text_of(s: Option<String>) -> Option<Seq<char>> {
    match s {
        Some(t) => Some(t@),
        None => None,
    }
}

impl View for CueTrack {
    type V = Track;

    open spec fn view(&self) -> Track {
        Track {
            index: self.index,
            title: self.title@,
            performer: text_of(self.performer),
            start: self.start_frames,
            pregap: self.pregap_start_frames,
            end: self.end_frames,
            is_audio: self.is_audio,
        }
    }
}

/// What tracks say.
pub open spec fn tracks_of(ts: Seq<CueTrack>) -> Seq<Track> {
    Seq::new(ts.len(), |i: int| ts[i]@)
}

impl CueTrack {
    /// The sector that the track starts at.
    pub fn start_sector(&self) -> (s: u64)
        ensures
            s == self@.start,
    {
        self.start_frames
    }

    /// The length of the track, zero where it ends before it starts; unknown
    /// for the last track.
    pub fn duration_frames(&self) -> (d: Option<u64>)
        ensures
            d == (match self@.end {
                None => None,
                Some(end) => Some(
                    if end < self@.start {
                        0u64
                    } else {
                        (end - self@.start) as u64
                    },
                ),
            }),
    {
        match self.end_frames {
            None => None,
            Some(end) => Some(
                if end < self.start_frames {
                    0
                } else {
                    end - self.start_frames
                },
            ),
        }
    }
}

/// A sheet.
#[derive(Debug, Clone, PartialEq)]
pub struct CueSheet {
    /// The title of the album.
    pub album_title: Option<String>,
    /// The performer of the album.
    pub album_performer: Option<String>,
    /// The audio file, relative to the sheet.
    pub audio_file: Option<String>,
    /// The tracks, in the order of the sheet.
    pub tracks: Vec<CueTrack>,
}

/// What a sheet says.
pub struct Sheet {
    /// The title of the album.
    pub album_title: Option<Seq<char>>,
    /// The performer of the album.
    pub album_performer: Option<Seq<char>>,
    /// The audio file.
    pub audio_file: Option<Seq<char>>,
    /// The tracks.
    pub tracks: Seq<Track>,
}

impl View for CueSheet {
    type V = Sheet;

    open spec fn view(&self) -> Sheet {
        Sheet {
            album_title: text_of(self.album_title),
            album_performer: text_of(self.album_performer),
            audio_file: text_of(self.audio_file),
            tracks: tracks_of(self.tracks@),
        }
    }
}

/// The places of the audio tracks among the first `n`.
pub open spec fn audio_places(ts: Seq<Track>, n: nat) -> Seq<int>
    decreases n,
{
    if n == 0 {
        Seq::empty()
    } else {
        let before = audio_places(ts, (n - 1) as nat);
        if ts[n - 1].is_audio {
            before.push(n - 1)
        } else {
            before
        }
    }
}

impl CueSheet {
    /// Finds the first track with this number.
    pub fn track(&self, number: u32) -> (r: Option<&CueTrack>)
        ensures
            match r {
                None => forall|i: int| 0 <= i < self@.tracks.len() ==> self@.tracks[i].index != number,
                Some(t) => exists|k: int|
                    {
                        &&& 0 <= k < self@.tracks.len()
                        &&& self@.tracks[k].index == number
                        &&& *t == self.tracks@[k]
                        &&& forall|i: int| 0 <= i < k ==> self@.tracks[i].index != number
                    },
            },
    {
        let mut k: usize = 0;
        while k < self.tracks.len()
            invariant
                k <= self.tracks@.len(),
                forall|i: int| 0 <= i < k ==> self@.tracks[i].index != number,
            decreases self.tracks@.len() - k,
        {
            if self.tracks[k].index == number {
                assert(self@.tracks[k as int].index == number);
                return Some(&self.tracks[k]);
            }
            k = k + 1;
        }
        None
    }

    /// The number of tracks.
    pub fn track_count(&self) -> (n: usize)
        ensures
            n == self@.tracks.len(),
    {
        self.tracks.len()
    }

    /// The audio tracks.
    pub fn audio_tracks(&self) -> (r: Vec<&CueTrack>)
        ensures
            r@.len() == audio_places(self@.tracks, self@.tracks.len()).len(),
            forall|i: int|
                0 <= i < r@.len() ==> *(#[trigger] r@[i]) == self.tracks@[audio_places(
                    self@.tracks,
                    self@.tracks.len(),
                )[i]],
    {
        let mut r: Vec<&CueTrack> = Vec::new();
        let mut k: usize = 0;
        while k < self.tracks.len()
            invariant
                k <= self.tracks@.len(),
                r@.len() == audio_places(self@.tracks, k as nat).len(),
                forall|i: int|
                    0 <= i < r@.len() ==> *(#[trigger] r@[i]) == self.tracks@[audio_places(
                        self@.tracks,
                        k as nat,
                    )[i]],
            decreases self.tracks@.len() - k,
        {
            if self.tracks[k].is_audio {
                r.push(&self.tracks[k]);
            }
            k = k + 1;
        }
        r
    }
}

/// Why a sheet cannot be read.
#[derive(Debug, Clone, PartialEq, Eq)]
pub enum CueParseError {
    /// A line does not follow the syntax.
    Syntax {
        /// The line, from 1.
        line: u32,
        /// What is wrong with it.
        message: String,
    },
}

/// What an error says.
pub struct SyntaxFault {
    /// The line.
    pub line: u32,
    /// What is wrong with it.
    pub message: Seq<char>,
}

impl View for CueParseError {
    type V = SyntaxFault;

    open spec fn view(&self) -> SyntaxFault {
        match self {
            CueParseError::Syntax { line, message } => SyntaxFault {
                line: *line,
                message: message@,
            },
        }
    }
}

impl CueParseError {
    fn at(line: u32, message: &str) -> (e: CueParseError)
        ensures
            e@ == (SyntaxFault { line, message: message@ }),
    {
        CueParseError::Syntax { line, message: message.to_owned() }
    }

    /// The text shown for this error.
    pub fn message(&self) -> (text: String)
        ensures
            text@ == "CUE 语法错误（第 "@ + decimal(self@.line as int) + " 行）："@
                + self@.message,
    {
        match self {
            CueParseError::Syntax { line, message } => {
                let mut text: String = join3(
                    "CUE 语法错误（第 ",
                    decimal_text(*line as i64).as_str(),
                    " 行）：",
                );
                text.append(message.as_str());
                text
            },
        }
    }
}

/// A way to encode text in bytes.
#[derive(Clone, Copy, Debug, PartialEq, Eq, Structural)]
pub enum Charset {
    /// UTF-8.
    Utf8,
    /// UTF-16, low byte first.
    Utf16Le,
    /// UTF-16, high byte first.
    Utf16Be,
    /// GB 18030.
    Gb18030,
}

impl Charset {
    /// The name in the Encoding Standard.
    pub open spec fn label(self) -> Seq<char> {
        match self {
            Charset::Utf8 => "UTF-8"@,
            Charset::Utf16Le => "UTF-16LE"@,
            Charset::Utf16Be => "UTF-16BE"@,
            Charset::Gb18030 => "gb18030"@,
        }
    }
}

/// What `encoding_rs::Encoding::decode` makes of bytes, for the encoding of
/// this name.
pub uninterp spec fn decoded_text(label: Seq<char>, bytes: Seq<u8>) -> Seq<char>;

/// Decodes bytes with `encoding_rs::Encoding::decode`. The text is a function
/// of the encoding and the bytes alone; what it is in each case is left to that
/// crate. The buffer that it allocates must have a size that fits.
#[verifier::external_body]
fn decode_text(charset: Charset, bytes: &[u8]) -> (text: String)
    requires
        8 * bytes@.len() + 64 <= isize::MAX,
    ensures
        text@ == decoded_text(charset.label(), bytes@),
{
    let encoding = match charset {
        Charset::Utf8 => encoding_rs::UTF_8,
        Charset::Utf16Le => encoding_rs::UTF_16LE,
        Charset::Utf16Be => encoding_rs::UTF_16BE,
        Charset::Gb18030 => encoding_rs::GB18030,
    };
    encoding.decode(bytes).0.into_owned()
}

/// Reads bytes as UTF-8 with `std::str::from_utf8`: the characters that they
/// encode, or nothing where they are not valid UTF-8.
#[verifier::external_body]
fn utf8_text(bytes: &[u8]) -> (r: Option<&str>)
    ensures
        match r {
            Some(s) => valid_utf8(bytes@) && s@ == decode_utf8(bytes@),
            None => !valid_utf8(bytes@),
        },
{
    match std::str::from_utf8(bytes) {
        Ok(s) => Some(s),
        Err(_) => None,
    }
}

/// The byte order mark at the front, and its length.
pub open spec fn bom_of(bytes: Seq<u8>) -> Option<(Charset, int)> {
    if has_at(bytes, 0, seq![0xEFu8, 0xBBu8, 0xBFu8]) {
        Some((Charset::Utf8, 3))
    } else if has_at(bytes, 0, seq![0xFFu8, 0xFEu8]) {
        Some((Charset::Utf16Le, 2))
    } else if has_at(bytes, 0, seq![0xFEu8, 0xFFu8]) {
        Some((Charset::Utf16Be, 2))
    } else {
        None
    }
}

/// Looks for a byte order mark.
pub fn sniff_bom(bytes: &[u8]) -> (r: Option<(Charset, usize)>)
    ensures
        match bom_of(bytes@) {
            Some((c, n)) => r matches Some(p) && p.0 == c && p.1 == n && n <= bytes@.len(),
            None => r is None,
        },
{
    let utf8: [u8; 3] = [0xEF, 0xBB, 0xBF];
    let utf16le: [u8; 2] = [0xFF, 0xFE];
    let utf16be: [u8; 2] = [0xFE, 0xFF];
    assert(utf8@ =~= seq![0xEFu8, 0xBBu8, 0xBFu8]);
    assert(utf16le@ =~= seq![0xFFu8, 0xFEu8]);
    assert(utf16be@ =~= seq![0xFEu8, 0xFFu8]);
    if matches_at(bytes, 0, utf8.as_slice()) {
        Some((Charset::Utf8, 3))
    } else if matches_at(bytes, 0, utf16le.as_slice()) {
        Some((Charset::Utf16Le, 2))
    } else if matches_at(bytes, 0, utf16be.as_slice()) {
        Some((Charset::Utf16Be, 2))
    } else {
        None
    }
}

/// The text of a sheet: UTF-8 where the bytes are, else as their byte order
/// mark says, else GB 18030.
pub open spec fn sheet_text(bytes: Seq<u8>) -> Seq<char> {
    if valid_utf8(bytes) {
        decode_utf8(bytes)
    } else {
        match bom_of(bytes) {
            Some((charset, n)) => decoded_text(charset.label(), bytes.skip(n)),
            None => decoded_text(Charset::Gb18030.label(), bytes),
        }
    }
}

/// Decodes the bytes of a sheet.
#[must_use]
pub fn decode_cue_bytes(bytes: &[u8]) -> (text: String)
    requires
        8 * bytes@.len() + 64 <= isize::MAX,
    ensures
        text@ == sheet_text(bytes@),
{
    match utf8_text(bytes) {
        Some(s) => {
            return s.to_owned();
        },
        None => {},
    }
    match sniff_bom(bytes) {
        Some((charset, n)) => {
            let rest = &bytes[n..bytes.len()];
            assert(rest@ =~= bytes@.skip(n as int));
            decode_text(charset, rest)
        },
        None => decode_text(Charset::Gb18030, bytes),
    }
}

/// The time that `MM:SS:FF` stands for. Seconds are below 60 and frames below
/// 75; what follows a third colon does not count.
pub open spec fn time_of(s: Seq<char>) -> Option<u64> {
    let a = until(s, ':') as int;
    if a >= s.len() {
        None
    } else {
        let s1 = s.skip(a + 1);
        let b = until(s1, ':') as int;
        if b >= s1.len() {
            None
        } else {
            let s2 = s1.skip(b + 1);
            let c = until(s2, ':') as int;
            match (u32_of(s.take(a)), u32_of(s1.take(b)), u32_of(s2.take(c))) {
                (Some(mm), Some(ss), Some(ff)) => if ss >= 60 || ff >= 75 {
                    None
                } else {
                    Some(((mm * 60 + ss) * 75 + ff) as u64)
                },
                _ => None,
            }
        }
    }
}

/// Reads a time.
fn read_time(s: &[char]) -> (r: Option<u64>)
    ensures
        r == time_of(s@),
{
    let a: usize = find(s, ':');
    if a >= s.len() {
        return None;
    }
    let s1 = &s[a + 1..s.len()];
    assert(s1@ =~= s@.skip(a + 1));
    let b: usize = find(s1, ':');
    if b >= s1.len() {
        return None;
    }
    let s2 = &s1[b + 1..s1.len()];
    assert(s2@ =~= s1@.skip(b + 1));
    let c: usize = find(s2, ':');
    let t0 = &s[0..a];
    let t1 = &s1[0..b];
    let t2 = &s2[0..c];
    assert(t0@ =~= s@.take(a as int));
    assert(t1@ =~= s1@.take(b as int));
    assert(t2@ =~= s2@.take(c as int));
    match (parse_u32(t0), parse_u32(t1), parse_u32(t2)) {
        (Some(mm), Some(ss), Some(ff)) => {
            if ss >= 60 || ff >= 75 {
                None
            } else {
                Some((mm as u64 * 60 + ss as u64) * 75 + ff as u64)
            }
        },
        _ => None,
    }
}

/// The text between quotation marks that enclose all of it.
pub open spec fn quoted(s: Seq<char>) -> Option<Seq<char>> {
    let t = trimmed(s);
    if t.len() >= 2 && t[0] == '"' && t.last() == '"' {
        Some(t.subrange(1, t.len() - 1))
    } else {
        None
    }
}

/// Takes off quotation marks.
fn read_quoted(s: &[char]) -> (r: Option<String>)
    ensures
        text_of(r) == quoted(s@),
{
    let t = trim(s);
    if t.len() >= 2 && t[0] == '"' && t[t.len() - 1] == '"' {
        Some(string_of(&t[1..t.len() - 1]))
    } else {
        None
    }
}

/// A title or a name: without quotation marks where they enclose it.
pub open spec fn name_of(s: Seq<char>) -> Seq<char> {
    match quoted(s) {
        Some(t) => t,
        None => trimmed(s),
    }
}

/// Reads a title or a name.
fn parse_name(s: &[char]) -> (r: String)
    ensures
        r@ == name_of(s@),
{
    match read_quoted(s) {
        Some(t) => t,
        None => string_of(trim(s)),
    }
}

/// The file that a `FILE` line names: between the first two quotation marks,
/// or the first word.
pub open spec fn file_of(s: Seq<char>) -> Seq<char> {
    let t = trimmed(s);
    let inner = t.drop_first();
    if t.len() > 0 && t[0] == '"' && until(inner, '"') < inner.len() {
        inner.take(until(inner, '"') as int)
    } else {
        match word(t, 0) {
            Some(w) => w,
            None => Seq::empty(),
        }
    }
}

/// Reads the file name of a `FILE` line.
fn read_file_name(s: &[char]) -> (r: String)
    ensures
        r@ == file_of(s@),
{
    let t = trim(s);
    if t.len() > 0 && t[0] == '"' {
        let inner = &t[1..t.len()];
        assert(inner@ =~= t@.drop_first());
        let n: usize = find(inner, '"');
        if n < inner.len() {
            let name = &inner[0..n];
            assert(name@ =~= inner@.take(n as int));
            return string_of(name);
        }
    }
    match word_at(t, 0) {
        Some(w) => string_of(w),
        None => String::new(),
    }
}

/// Reads a time `MM:SS:FF`.
pub fn parse_cue_time(s: &str) -> (r: Option<u64>)
    ensures
        r == time_of(s@),
{
    read_time(chars_of(s).as_slice())
}

/// Takes off quotation marks that enclose a text.
pub fn parse_quoted(s: &str) -> (r: Option<String>)
    ensures
        text_of(r) == quoted(s@),
{
    read_quoted(chars_of(s).as_slice())
}

/// Reads the file name of a `FILE` line.
pub fn parse_file_name(s: &str) -> (r: String)
    ensures
        r@ == file_of(s@),
{
    read_file_name(chars_of(s).as_slice())
}

/// What `str::to_uppercase` of the standard library makes of a text.
pub uninterp spec fn uppercase(s: Seq<char>) -> Seq<char>;

/// An ASCII letter in upper case; another character as it is.
pub open spec fn ascii_upper(c: char) -> char {
    if 'a' <= c <= 'z' {
        (c as u32 - 32) as char
    } else {
        c
    }
}

/// The number of characters before the first that is not ASCII.
pub open spec fn ascii_len(s: Seq<char>) -> nat
    decreases s.len(),
{
    if s.len() == 0 || s[0] >= '\u{80}' {
        0
    } else {
        1 + ascii_len(s.drop_first())
    }
}

/// A text in upper case: its ASCII letters up to the first character that is not
/// ASCII, and behind them what the standard library makes of the rest.
pub open spec fn upper(s: Seq<char>) -> Seq<char> {
    let n = ascii_len(s) as int;
    let head = s.take(n).map_values(|c: char| ascii_upper(c));
    if n < s.len() {
        head + uppercase(s.skip(n))
    } else {
        head
    }
}

/// Turns a text into upper case with `str::to_uppercase`. The result is a
/// function of the text alone, by the tables of Unicode. Each character is turned
/// into upper case by itself, so that ASCII letters in front become the capital
/// letters that they are in ASCII, whatever follows. What becomes of the rest is
/// only named.
#[verifier::external_body]
pub(crate) fn to_upper(s: &str) -> (r: String)
    ensures
        r@ == uppercase(s@),
        r@ == upper(s@),
{
    s.to_uppercase()
}

/// What follows the keyword of a line: all behind the first space.
pub open spec fn argument(line: Seq<char>) -> Seq<char> {
    let n = until(line, ' ') as int;
    if n < line.len() {
        line.skip(n + 1)
    } else {
        Seq::empty()
    }
}

/// The kind of a track, the word behind its number.
pub open spec fn track_kind(line: Seq<char>) -> Seq<char> {
    match word(argument(line), 1) {
        Some(w) => w,
        None => Seq::empty(),
    }
}

/// A line number, kept in 32 bits.
pub open spec fn line_number(n: nat) -> u32 {
    (n % 0x1_0000_0000) as u32
}

/// What has been read of a sheet.
pub struct Progress {
    /// The tracks that are complete.
    pub tracks: Seq<Track>,
    /// The track that lines belong to.
    pub current: Option<Track>,
    /// The audio file.
    pub audio_file: Option<Seq<char>>,
    /// The title of the album.
    pub album_title: Option<Seq<char>>,
    /// The performer of the album.
    pub album_performer: Option<Seq<char>>,
}

impl Progress {
    /// Nothing read.
    pub open spec fn start() -> Progress {
        Progress {
            tracks: Seq::empty(),
            current: None,
            audio_file: None,
            album_title: None,
            album_performer: None,
        }
    }

    /// The tracks with the one that lines belong to.
    pub open spec fn all_tracks(self) -> Seq<Track> {
        match self.current {
            Some(t) => self.tracks.push(t),
            None => self.tracks,
        }
    }

    /// A `TRACK` line.
    pub open spec fn track_line(self, line: Seq<char>, kind: Seq<char>, no: u32) -> Result<
        Progress,
        SyntaxFault,
    > {
        let number = match word(argument(line), 0) {
            Some(w) => u32_of(w),
            None => None,
        };
        match number {
            None => Err(
                SyntaxFault {
                    line: no,
                    message: "TRACK 后缺少合法的十进制曲目号（如 TRACK 01 AUDIO）"@,
                },
            ),
            Some(index) => Ok(
                Progress {
                    tracks: self.all_tracks(),
                    current: Some(
                        Track {
                            index,
                            title: "Track "@ + decimal(index as int),
                            performer: None,
                            start: 0,
                            pregap: None,
                            end: None,
                            is_audio: kind == "AUDIO"@,
                        },
                    ),
                    ..self
                },
            ),
        }
    }

    /// An `INDEX` line of a track: 00 is the gap, 01 the start.
    pub open spec fn index_line(self, t: Track, line: Seq<char>, no: u32) -> Result<
        Progress,
        SyntaxFault,
    > {
        let number = match word(argument(line), 0) {
            Some(w) => match u32_of(w) {
                Some(n) => n,
                None => 0,
            },
            None => 0u32,
        };
        let time = word(argument(line), 1);
        if number == 0 {
            match time {
                None => Ok(self),
                Some(w) => match time_of(w) {
                    None => Err(
                        SyntaxFault { line: no, message: "INDEX 00 时间格式应为 MM:SS:FF"@ },
                    ),
                    Some(at) => Ok(
                        Progress { current: Some(Track { pregap: Some(at), ..t }), ..self },
                    ),
                },
            }
        } else if number == 1 {
            let at = match time {
                Some(w) => time_of(w),
                None => None,
            };
            match at {
                None => Err(
                    SyntaxFault { line: no, message: "INDEX 01 时间格式应为 MM:SS:FF"@ },
                ),
                Some(at) => Ok(Progress { current: Some(Track { start: at, ..t }), ..self }),
            }
        } else {
            Ok(self)
        }
    }

    /// One line that is not empty. `upper` is the line and `kind` the kind of
    /// its track, both in upper case; `no` is its number.
    pub open spec fn line(
        self,
        line: Seq<char>,
        upper: Seq<char>,
        kind: Seq<char>,
        no: u32,
    ) -> Result<Progress, SyntaxFault> {
        if begins(upper, "REM "@) || begins(upper, "CATALOG "@) || begins(upper, "CDTEXTFILE "@) {
            Ok(self)
        } else if begins(upper, "FILE "@) {
            if self.audio_file is Some {
                Err(
                    SyntaxFault {
                        line: no,
                        message:
                            "多 FILE 段 CUE 暂不支持（当前仅支持单整轨 + 多 INDEX 分轨）"@,
                    },
                )
            } else {
                Ok(Progress { audio_file: Some(file_of(argument(line))), ..self })
            }
        } else if begins(upper, "TRACK "@) {
            self.track_line(line, kind, no)
        } else {
            match self.current {
                Some(t) => if begins(upper, "TITLE "@) {
                    Ok(
                        Progress {
                            current: Some(Track { title: name_of(argument(line)), ..t }),
                            ..self
                        },
                    )
                } else if begins(upper, "PERFORMER "@) {
                    Ok(
                        Progress {
                            current: Some(
                                Track { performer: Some(name_of(argument(line))), ..t },
                            ),
                            ..self
                        },
                    )
                } else if begins(upper, "INDEX "@) {
                    self.index_line(t, line, no)
                } else {
                    Ok(self)
                },
                None => if begins(upper, "TITLE "@) {
                    Ok(Progress { album_title: Some(name_of(argument(line))), ..self })
                } else if begins(upper, "PERFORMER "@) {
                    Ok(Progress { album_performer: Some(name_of(argument(line))), ..self })
                } else {
                    Ok(self)
                },
            }
        }
    }

    /// One line as it stands in the text; lines of white space do not count.
    #[verifier::opaque]
    pub open spec fn raw_line(self, raw: Seq<char>, no: u32) -> Result<Progress, SyntaxFault> {
        let line = trimmed(raw);
        if line.len() == 0 {
            Ok(self)
        } else {
            self.line(line, upper(line), upper(track_kind(line)), no)
        }
    }

    /// The rest of a text, of which `no` lines have been read.
    pub open spec fn lines(self, s: Seq<char>, no: nat) -> Result<Progress, SyntaxFault>
        decreases s.len(),
    {
        if s.len() == 0 {
            Ok(self)
        } else {
            let n = until(s, '\n') as int;
            let raw = if n < s.len() {
                s.take(n)
            } else {
                s
            };
            let rest = if n < s.len() {
                s.skip(n + 1)
            } else {
                Seq::empty()
            };
            match self.raw_line(raw, line_number(no + 1)) {
                Err(f) => Err(f),
                Ok(p) => p.lines(rest, no + 1),
            }
        }
    }
}

/// The first track from `i` on that starts at zero.
pub open spec fn first_at_zero(ts: Seq<Track>, i: nat) -> Option<Track>
    decreases ts.len() - i,
{
    if i >= ts.len() {
        None
    } else if ts[i as int].start == 0 {
        Some(ts[i as int])
    } else {
        first_at_zero(ts, i + 1)
    }
}

/// The tracks, each but the last ending where the next starts.
pub open spec fn with_ends(ts: Seq<Track>) -> Seq<Track> {
    Seq::new(
        ts.len(),
        |i: int|
            if i + 1 < ts.len() {
                Track { end: Some(ts[i + 1].start), ..ts[i] }
            } else {
                ts[i]
            },
    )
}

/// The sheet behind what was read. There must be a track, and none but the
/// first may start at zero.
pub open spec fn completed(p: Progress) -> Result<Sheet, SyntaxFault> {
    let ts = p.all_tracks();
    if ts.len() == 0 {
        Err(SyntaxFault { line: 1, message: "未找到任何 TRACK 条目"@ })
    } else {
        match first_at_zero(ts, 1) {
            Some(t) => Err(
                SyntaxFault {
                    line: 1,
                    message: "曲目 "@ + decimal(t.index as int)
                        + " 缺少 INDEX 01 起点（仅 INDEX 00 pregap 不被支持）"@,
                },
            ),
            None => Ok(
                Sheet {
                    album_title: p.album_title,
                    album_performer: p.album_performer,
                    audio_file: p.audio_file,
                    tracks: with_ends(ts),
                },
            ),
        }
    }
}

/// What a text says, read as a sheet. A byte order mark in front does not
/// count.
pub open spec fn sheet_of(content: Seq<char>) -> Result<Sheet, SyntaxFault> {
    let s = if content.len() > 0 && content[0] == '\u{feff}' {
        content.drop_first()
    } else {
        content
    };
    match Progress::start().lines(s, 0) {
        Err(f) => Err(f),
        Ok(p) => completed(p),
    }
}

/// Reads a sheet line by line.
pub struct CueReader {
    tracks: Vec<CueTrack>,
    current: Option<CueTrack>,
    audio_file: Option<String>,
    album_title: Option<String>,
    album_performer: Option<String>,
}

impl CueReader {
    /// What has been read.
    pub closed spec fn progress(&self) -> Progress {
        Progress {
            tracks: tracks_of(self.tracks@),
            current: match self.current {
                Some(t) => Some(t@),
                None => None,
            },
            audio_file: text_of(self.audio_file),
            album_title: text_of(self.album_title),
            album_performer: text_of(self.album_performer),
        }
    }

    /// Nothing read.
    pub fn new() -> (r: Self)
        ensures
            r.progress() == Progress::start(),
    {
        let r = CueReader {
            tracks: Vec::new(),
            current: None,
            audio_file: None,
            album_title: None,
            album_performer: None,
        };
        assert(r.progress().tracks =~= Seq::empty());
        r
    }

    /// Makes the current track complete.
    fn flush(&mut self)
        ensures
            final(self).progress() == (Progress {
                tracks: old(self).progress().all_tracks(),
                current: None,
                ..old(self).progress()
            }),
    {
        let ghost before = self.tracks@;
        match self.current.take() {
            Some(t) => {
                self.tracks.push(t);
                assert(tracks_of(self.tracks@) =~= tracks_of(before).push(t@));
            },
            None => {},
        }
    }

    fn read_track(&mut self, line: &[char], arg: &[char], kind: &[char], no: u32) -> (r: Result<
        (),
        CueParseError,
    >)
        requires
            arg@ == argument(line@),
        ensures
            match old(self).progress().track_line(line@, kind@, no) {
                Ok(p) => r is Ok && final(self).progress() == p,
                Err(f) => r matches Err(e) && e@ == f,
            },
    {
        let number: Option<u32> = match word_at(arg, 0) {
            Some(w) => parse_u32(w),
            None => None,
        };
        match number {
            None => Err(
                CueParseError::at(
                    no,
                    "TRACK 后缺少合法的十进制曲目号（如 TRACK 01 AUDIO）",
                ),
            ),
            Some(index) => {
                self.flush();
                let mut title: String = "Track ".to_owned();
                title.append(decimal_text(index as i64).as_str());
                self.current = Some(
                    CueTrack {
                        index,
                        title,
                        performer: None,
                        start_frames: 0,
                        pregap_start_frames: None,
                        end_frames: None,
                        is_audio: same(kind, "AUDIO"),
                    },
                );
                Ok(())
            },
        }
    }

    fn read_index(t: &mut CueTrack, arg: &[char], no: u32) -> (r: Result<(), CueParseError>)
        ensures
            forall|p: Progress, line: Seq<char>|
                #![trigger p.index_line(old(t)@, line, no)]
                p.current == Some(old(t)@) && arg@ == argument(line) ==> match p.index_line(
                    old(t)@,
                    line,
                    no,
                ) {
                    Ok(q) => r is Ok && q == (Progress { current: Some(final(t)@), ..p }),
                    Err(f) => r matches Err(e) && e@ == f,
                },
    {
        let number: u32 = match word_at(arg, 0) {
            Some(w) => match parse_u32(w) {
                Some(n) => n,
                None => 0,
            },
            None => 0,
        };
        let time = word_at(arg, 1);
        if number == 0 {
            match time {
                None => {},
                Some(w) => match read_time(w) {
                    None => {
                        return Err(
                            CueParseError::at(no, "INDEX 00 时间格式应为 MM:SS:FF"),
                        );
                    },
                    Some(at) => {
                        t.pregap_start_frames = Some(at);
                    },
                },
            }
        } else if number == 1 {
            let at: Option<u64> = match time {
                Some(w) => read_time(w),
                None => None,
            };
            match at {
                None => {
                    return Err(CueParseError::at(no, "INDEX 01 时间格式应为 MM:SS:FF"));
                },
                Some(at) => {
                    t.start_frames = at;
                },
            }
        }
        Ok(())
    }

    /// Reads one line that is not empty. `upper` is the line and `kind` the
    /// kind of its track, both in upper case; `no` is its number.
    pub fn read_line(&mut self, line: &[char], upper: &[char], kind: &[char], no: u32) -> (r: Result<
        (),
        CueParseError,
    >)
        ensures
            match old(self).progress().line(line@, upper@, kind@, no) {
                Ok(p) => r is Ok && final(self).progress() == p,
                Err(f) => r matches Err(e) && e@ == f,
            },
    {
        if starts(upper, "REM ") || starts(upper, "CATALOG ") || starts(upper, "CDTEXTFILE ") {
            return Ok(());
        }
        let n: usize = find(line, ' ');
        let from: usize = if n < line.len() {
            n + 1
        } else {
            line.len()
        };
        let arg = &line[from..line.len()];
        assert(arg@ =~= argument(line@));
        if starts(upper, "FILE ") {
            if self.audio_file.is_some() {
                return Err(
                    CueParseError::at(
                        no,
                        "多 FILE 段 CUE 暂不支持（当前仅支持单整轨 + 多 INDEX 分轨）",
                    ),
                );
            }
            self.audio_file = Some(read_file_name(arg));
            return Ok(());
        }
        if starts(upper, "TRACK ") {
            return self.read_track(line, arg, kind, no);
        }
        let ghost before = self.progress();
        match self.current.take() {
            Some(mut t) => {
                let mut r: Result<(), CueParseError> = Ok(());
                if starts(upper, "TITLE ") {
                    t.title = parse_name(arg);
                } else if starts(upper, "PERFORMER ") {
                    t.performer = Some(parse_name(arg));
                } else if starts(upper, "INDEX ") {
                    let ghost held = t@;
                    r = Self::read_index(&mut t, arg, no);
                    assert(before.index_line(held, line@, no) == before.index_line(
                        held,
                        line@,
                        no,
                    ));
                }
                self.current = Some(t);
                r
            },
            None => {
                if starts(upper, "TITLE ") {
                    self.album_title = Some(parse_name(arg));
                } else if starts(upper, "PERFORMER ") {
                    self.album_performer = Some(parse_name(arg));
                }
                Ok(())
            },
        }
    }
}

impl CueReader {
    /// Reads one line as it stands in the text.
    fn read_raw_line(&mut self, raw: &[char], no: u32) -> (r: Result<(), CueParseError>)
        ensures
            match old(self).progress().raw_line(raw@, no) {
                Ok(p) => r is Ok && final(self).progress() == p,
                Err(f) => r matches Err(e) && e@ == f,
            },
    {
        proof {
            reveal(Progress::raw_line);
        }
        let line = trim(raw);
        if line.len() == 0 {
            return Ok(());
        }
        let upper: Vec<char> = chars_of(to_upper(string_of(line).as_str()).as_str());
        let kind: Vec<char> = chars_of(to_upper(kind_of(line).as_str()).as_str());
        self.read_line(line, upper.as_slice(), kind.as_slice(), no)
    }
}

/// Gives each track but the last its end.
fn set_ends(tracks: &mut Vec<CueTrack>)
    ensures
        tracks_of(final(tracks)@) == with_ends(tracks_of(old(tracks)@)),
{
    let ghost before = tracks_of(tracks@);
    let n: usize = tracks.len();
    let mut i: usize = 0;
    while i < n && i < n - 1
        invariant
            n == tracks@.len(),
            n == before.len(),
            i <= n,
            forall|j: int|
                0 <= j < i ==> (#[trigger] tracks@[j])@ == with_ends(before)[j],
            forall|j: int| i <= j < n ==> (#[trigger] tracks@[j])@ == before[j],
        decreases n - i,
    {
        let ghost held = tracks@;
        assert(held[i as int]@ == before[i as int]);
        assert(held[i + 1]@ == before[i + 1]);
        let next: u64 = tracks[i + 1].start_frames;
        tracks[i].end_frames = Some(next);
        assert(tracks@ =~= held.update(i as int, tracks@[i as int]));
        i = i + 1;
    }
    assert(tracks_of(tracks@) =~= with_ends(before)) by {
        assert forall|j: int| 0 <= j < n implies tracks_of(tracks@)[j] == with_ends(before)[j] by {
            assert(tracks@[j]@ == tracks_of(tracks@)[j]);
        }
    }
}

impl CueReader {
    /// Makes a sheet of what was read.
    pub fn complete(self) -> (r: Result<CueSheet, CueParseError>)
        ensures
            match completed(self.progress()) {
                Ok(sheet) => r matches Ok(c) && c@ == sheet,
                Err(f) => r matches Err(e) && e@ == f,
            },
    {
        let mut reader = self;
        reader.flush();
        let ghost ts = tracks_of(reader.tracks@);
        let n: usize = reader.tracks.len();
        if n == 0 {
            return Err(CueParseError::at(1, "未找到任何 TRACK 条目"));
        }
        let mut i: usize = 1;
        while i < n
            invariant
                1 <= i <= n,
                n == reader.tracks@.len(),
                ts == tracks_of(reader.tracks@),
                ts.len() > 0,
                ts == self.progress().all_tracks(),
                first_at_zero(ts, 1) == first_at_zero(ts, i as nat),
            decreases n - i,
        {
            assert(ts[i as int] == reader.tracks@[i as int]@);
            if reader.tracks[i].start_frames == 0 {
                return Err(
                    CueParseError::Syntax {
                        line: 1,
                        message: join3(
                            "曲目 ",
                            decimal_text(reader.tracks[i].index as i64).as_str(),
                            " 缺少 INDEX 01 起点（仅 INDEX 00 pregap 不被支持）",
                        ),
                    },
                );
            }
            i = i + 1;
        }
        set_ends(&mut reader.tracks);
        Ok(
            CueSheet {
                album_title: reader.album_title,
                album_performer: reader.album_performer,
                audio_file: reader.audio_file,
                tracks: reader.tracks,
            },
        )
    }
}

/// Reads a sheet.
pub fn parse_cue_sheet(content: &str) -> (r: Result<CueSheet, CueParseError>)
    ensures
        match sheet_of(content@) {
            Ok(sheet) => r matches Ok(c) && c@ == sheet,
            Err(f) => r matches Err(e) && e@ == f,
        },
{
    let all: Vec<char> = chars_of(content);
    let mut pos: usize = if all.len() > 0 && all[0] == '\u{feff}' {
        1
    } else {
        0
    };
    let ghost text = all@.skip(pos as int);
    assert(pos == 0 ==> text =~= content@);
    assert(pos == 1 ==> text =~= content@.drop_first());
    let mut reader = CueReader::new();
    let mut no: u64 = 0;
    let ghost mut count: nat = 0;
    while pos < all.len()
        invariant
            pos <= all@.len(),
            no == count % 0x1_0000_0000,
            Progress::start().lines(text, 0) == reader.progress().lines(
                all@.skip(pos as int),
                count,
            ),
            sheet_of(content@) == (match Progress::start().lines(text, 0) {
                Err(f) => Err(f),
                Ok(p) => completed(p),
            }),
        decreases all@.len() - pos,
    {
        let rest = &all.as_slice()[pos..all.len()];
        assert(rest@ =~= all@.skip(pos as int));
        let n: usize = find(rest, '\n');
        let raw = &rest[0..n];
        assert(n < rest@.len() ==> raw@ =~= rest@.take(n as int));
        assert(n == rest@.len() ==> raw@ =~= rest@);
        no = if no == 0xFFFF_FFFF {
            0
        } else {
            no + 1
        };
        match reader.read_raw_line(raw, no as u32) {
            Ok(()) => {},
            Err(e) => {
                return Err(e);
            },
        }
        proof {
            count = count + 1;
        }
        if n < rest.len() {
            assert(rest@.skip(n + 1) =~= all@.skip(pos + n + 1));
            pos = pos + n + 1;
        } else {
            pos = all.len();
            assert(all@.skip(pos as int) =~= Seq::<char>::empty());
        }
    }
    assert(all@.skip(pos as int) =~= Seq::<char>::empty());
    reader.complete()
}

/// Finds the kind of a track.
fn kind_of(line: &[char]) -> (r: String)
    ensures
        r@ == track_kind(line@),
{
    let n: usize = find(line, ' ');
    let from: usize = if n < line.len() {
        n + 1
    } else {
        line.len()
    };
    let arg = &line[from..line.len()];
    assert(arg@ =~= argument(line@));
    match word_at(arg, 1) {
        Some(w) => string_of(w),
        None => String::new(),
    }
}

/// Reads the tracks of a sheet.
pub fn parse_cue(content: &str) -> (r: Result<Vec<CueTrack>, CueParseError>)
    ensures
        match sheet_of(content@) {
            Ok(sheet) => r matches Ok(v) && tracks_of(v@) == sheet.tracks,
            Err(f) => r matches Err(e) && e@ == f,
        },
{
    match parse_cue_sheet(content) {
        Ok(sheet) => Ok(sheet.tracks),
        Err(e) => Err(e),
    }
}

proof fn lemma_ascii_len(s: Seq<char>, n: int)
    requires
        0 <= n <= s.len(),
        forall|i: int| 0 <= i < n ==> #[trigger] s[i] < '\u{80}',
    ensures
        n <= ascii_len(s),
        ascii_len(s) <= s.len(),
    decreases s.len(),
{
    if s.len() > 0 && !(s[0] >= '\u{80}') {
        let t = s.drop_first();
        let m = if n == 0 {
            0
        } else {
            n - 1
        };
        assert forall|i: int| 0 <= i < m implies #[trigger] t[i] < '\u{80}' by {
            assert(t[i] == s[i + 1]);
        }
        lemma_ascii_len(t, m);
    }
}

/// Keywords are read in capital and in small letters, and whatever text follows
/// them: whether a line in upper case begins with a keyword rests on as many of its
/// characters alone, where these are ASCII.
pub proof fn law_keyword(line: Seq<char>, keyword: Seq<char>)
    requires
        keyword.len() <= line.len(),
        forall|i: int| 0 <= i < keyword.len() ==> #[trigger] line[i] < '\u{80}',
    ensures
        begins(upper(line), keyword) <==> forall|i: int|
            0 <= i < keyword.len() ==> ascii_upper(#[trigger] line[i]) == keyword[i],
{
    let n = keyword.len() as int;
    lemma_ascii_len(line, n);
    let u = upper(line);
    assert forall|i: int| 0 <= i < n implies #[trigger] u[i] == ascii_upper(line[i]) by {
        assert(line.take(ascii_len(line) as int)[i] == line[i]);
    }
    assert(n <= u.len());
    if begins(u, keyword) {
        assert forall|i: int| 0 <= i < n implies ascii_upper(#[trigger] line[i]) == keyword[i] by {
            assert(u[i] == u.take(n)[i]);
        }
    }
    let fits = forall|i: int| 0 <= i < n ==> ascii_upper(#[trigger] line[i]) == keyword[i];
    if fits {
        assert forall|i: int| 0 <= i < n implies #[trigger] u.take(n)[i] == keyword[i] by {
            assert(ascii_upper(line[i]) == keyword[i]);
        }
        assert(u.take(n) =~= keyword);
    }
}

/// An ASCII text in upper case is that text with capital letters.
pub proof fn law_ascii_upper(s: Seq<char>)
    requires
        forall|i: int| 0 <= i < s.len() ==> #[trigger] s[i] < '\u{80}',
    ensures
        upper(s) == s.map_values(|c: char| ascii_upper(c)),
{
    lemma_ascii_len(s, s.len() as int);
    assert(s.take(s.len() as int) =~= s);
}

/// While a sheet is read, no track has an end yet.
pub open spec fn open_ended(p: Progress) -> bool {
    forall|i: int| 0 <= i < p.all_tracks().len() ==> (#[trigger] p.all_tracks()[i]).end is None
}

proof fn lemma_line_open_ended(
    p: Progress,
    line: Seq<char>,
    upper: Seq<char>,
    kind: Seq<char>,
    no: u32,
)
    requires
        open_ended(p),
    ensures
        p.line(line, upper, kind, no) matches Ok(q) ==> open_ended(q),
{
    match p.line(line, upper, kind, no) {
        Err(_) => {},
        Ok(q) => {
            assert forall|i: int| 0 <= i < q.all_tracks().len() implies (
            #[trigger] q.all_tracks()[i]).end is None by {
                if i < p.all_tracks().len() {
                    assert(p.all_tracks()[i].end is None);
                }
            }
        },
    }
}

proof fn lemma_lines_open_ended(p: Progress, s: Seq<char>, no: nat)
    requires
        open_ended(p),
    ensures
        p.lines(s, no) matches Ok(q) ==> open_ended(q),
    decreases s.len(),
{
    reveal(Progress::raw_line);
    if s.len() > 0 {
        let n = until(s, '\n') as int;
        let raw = if n < s.len() {
            s.take(n)
        } else {
            s
        };
        let rest = if n < s.len() {
            s.skip(n + 1)
        } else {
            Seq::empty()
        };
        let line = trimmed(raw);
        if line.len() == 0 {
            lemma_lines_open_ended(p, rest, no + 1);
        } else {
            let caps = upper(line);
            let kind = upper(track_kind(line));
            lemma_line_open_ended(p, line, caps, kind, line_number(no + 1));
            match p.line(line, caps, kind, line_number(no + 1)) {
                Ok(q) => lemma_lines_open_ended(q, rest, no + 1),
                Err(_) => {},
            }
        }
    }
}

proof fn lemma_none_at_zero(ts: Seq<Track>, i: nat)
    requires
        first_at_zero(ts, i) is None,
    ensures
        forall|j: int| i <= j < ts.len() ==> (#[trigger] ts[j]).start != 0,
    decreases ts.len() - i,
{
    if i < ts.len() {
        lemma_none_at_zero(ts, i + 1);
    }
}

/// Every sheet has a track; each track but the last ends where the next one
/// starts, the last has no end, and none but the first starts at zero.
pub proof fn law_tracks_meet(content: Seq<char>)
    ensures
        sheet_of(content) matches Ok(sheet) ==> {
            &&& sheet.tracks.len() > 0
            &&& forall|i: int|
                #![trigger sheet.tracks[i].end]
                0 <= i < sheet.tracks.len() - 1 ==> sheet.tracks[i].end == Some(
                    sheet.tracks[i + 1].start,
                )
            &&& sheet.tracks.last().end is None
            &&& forall|i: int|
                1 <= i < sheet.tracks.len() ==> (#[trigger] sheet.tracks[i]).start != 0
        },
{
    let s = if content.len() > 0 && content[0] == '\u{feff}' {
        content.drop_first()
    } else {
        content
    };
    lemma_lines_open_ended(Progress::start(), s, 0);
    match Progress::start().lines(s, 0) {
        Err(_) => {},
        Ok(p) => {
            let ts = p.all_tracks();
            if ts.len() > 0 && first_at_zero(ts, 1) is None {
                lemma_none_at_zero(ts, 1);
                assert(ts[ts.len() - 1].end is None);
                assert forall|i: int| 1 <= i < ts.len() implies (
                #[trigger] with_ends(ts)[i]).start != 0 by {
                    assert(ts[i].start != 0);
                }
            }
        },
    }
}

/// Two times with the same number of frames have the same minutes, seconds and
/// frames.
pub proof fn law_time_unique(mm: u32, ss: u32, ff: u32, m2: u32, s2: u32, f2: u32)
    requires
        ss < 60,
        ff < 75,
        s2 < 60,
        f2 < 75,
        (mm * 60 + ss) * 75 + ff == (m2 * 60 + s2) * 75 + f2,
    ensures
        mm == m2 && ss == s2 && ff == f2,
{
}

} // verus!
