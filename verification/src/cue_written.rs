//! Whole CUE sheets as they are written: reading gives back what they say.

use crate::chars::{begins, is_white, word};
use crate::cue::{
    argument, completed, file_of, first_at_zero, law_ascii_upper, law_keyword, name_of, quoted,
    sheet_of, track_kind, upper, with_ends, Progress, SyntaxFault, Track,
};
use crate::cue_laws::{
    blank, lacks, law_number_read, law_time_read, law_trimmed, law_words, lemma_digits_solid,
    lemma_time_solid, lemma_until, solid, Number, Time,
};
use crate::text::decimal;
use vstd::prelude::*;

verus! {

/// A line of a sheet.
pub enum Entry {
    /// The audio file.
    File(Seq<char>),
    /// A track: its number, and whether it is audio.
    Track(Number, bool),
    /// A title.
    Title(Seq<char>),
    /// A performer.
    Performer(Seq<char>),
    /// A place in a track.
    Index(Number, Time),
}

/// A text in quotation marks.
pub open spec fn in_quotes(s: Seq<char>) -> Seq<char> {
    seq!['"'] + (s + seq!['"'])
}

impl Entry {
    /// The keyword, and the space behind it.
    pub open spec fn keyword(self) -> Seq<char> {
        match self {
            Entry::File(_) => seq!['F', 'I', 'L', 'E', ' '],
            Entry::Track(_, _) => seq!['T', 'R', 'A', 'C', 'K', ' '],
            Entry::Title(_) => seq!['T', 'I', 'T', 'L', 'E', ' '],
            Entry::Performer(_) => seq!['P', 'E', 'R', 'F', 'O', 'R', 'M', 'E', 'R', ' '],
            Entry::Index(_, _) => seq!['I', 'N', 'D', 'E', 'X', ' '],
        }
    }

    /// What stands behind the keyword.
    pub open spec fn rest(self) -> Seq<char> {
        match self {
            Entry::File(name) => in_quotes(name) + seq![' ', 'W', 'A', 'V', 'E'],
            Entry::Track(n, audio) => n.text() + (seq![' '] + kind_text(audio)),
            Entry::Title(s) => in_quotes(s),
            Entry::Performer(s) => in_quotes(s),
            Entry::Index(n, t) => n.text() + (seq![' '] + t.text()),
        }
    }

    /// The line.
    pub open spec fn text(self) -> Seq<char> {
        self.keyword() + self.rest()
    }

    /// Whether it can be written in a line.
    pub open spec fn writable(self) -> bool {
        match self {
            Entry::File(name) => lacks(name, '"') && lacks(name, '\n'),
            Entry::Title(s) => lacks(s, '\n'),
            Entry::Performer(s) => lacks(s, '\n'),
            Entry::Index(_, t) => t.exists_so(),
            Entry::Track(_, _) => true,
        }
    }
}

/// The kind of a track.
pub open spec fn kind_text(audio: bool) -> Seq<char> {
    if audio {
        seq!['A', 'U', 'D', 'I', 'O']
    } else {
        seq!['M', 'O', 'D', 'E', '1', '/', '2', '3', '5', '2']
    }
}

/// What a line says, in a sheet of which something has been read.
pub open spec fn meant(p: Progress, e: Entry) -> Progress {
    match e {
        Entry::File(name) => Progress { audio_file: Some(name), ..p },
        Entry::Track(n, audio) => Progress {
            tracks: match p.current {
                Some(t) => p.tracks.push(t),
                None => p.tracks,
            },
            current: Some(
                Track {
                    index: n.value,
                    title: seq!['T', 'r', 'a', 'c', 'k', ' '] + decimal(n.value as int),
                    performer: None,
                    start: 0,
                    pregap: None,
                    end: None,
                    is_audio: audio,
                },
            ),
            ..p
        },
        Entry::Title(s) => match p.current {
            Some(t) => Progress { current: Some(Track { title: s, ..t }), ..p },
            None => Progress { album_title: Some(s), ..p },
        },
        Entry::Performer(s) => match p.current {
            Some(t) => Progress { current: Some(Track { performer: Some(s), ..t }), ..p },
            None => Progress { album_performer: Some(s), ..p },
        },
        Entry::Index(n, at) => match p.current {
            None => p,
            Some(t) => if n.value == 0 {
                Progress {
                    current: Some(Track { pregap: Some(at.count() as u64), ..t }),
                    ..p
                }
            } else if n.value == 1 {
                Progress { current: Some(Track { start: at.count() as u64, ..t }), ..p }
            } else {
                p
            },
        },
    }
}

proof fn lemma_keyword(e: Entry)
    ensures
        begins(upper(e.text()), e.keyword()),
        argument(e.text()) == e.rest(),
        e.text().len() > 0,
        !is_white(e.text()[0]),
{
    let k = e.keyword();
    let s = e.text();
    let n = k.len() - 1;
    assert forall|i: int| 0 <= i < k.len() implies #[trigger] s[i] == k[i] by {}
    assert forall|i: int| 0 <= i < n implies 'A' <= #[trigger] k[i] <= 'Z' by {}
    assert(k[n] == ' ');
    assert forall|i: int| 0 <= i < k.len() implies #[trigger] s[i] < '\u{80}' by {
        assert(s[i] == k[i]);
        assert(i == n || 'A' <= k[i] <= 'Z');
    }
    assert forall|i: int| 0 <= i < k.len() implies crate::cue::ascii_upper(#[trigger] s[i])
        == k[i] by {
        assert(s[i] == k[i]);
        assert(i == n || 'A' <= k[i] <= 'Z');
    }
    law_keyword(s, k);
    let word = k.take(n);
    let behind = seq![' '] + e.rest();
    assert forall|i: int| 0 <= i < word.len() implies #[trigger] word[i] != ' ' by {
        assert(word[i] == k[i]);
        assert('A' <= k[i] <= 'Z');
    }
    lemma_until(word, ' ', behind);
    assert(word + behind =~= s);
    assert(s.skip(n + 1) =~= e.rest());
    assert(s[0] == k[0]);
    assert('A' <= k[0] <= 'Z');
}

proof fn lemma_not(u: Seq<char>, k: Seq<char>, other: Seq<char>, i: int)
    requires
        begins(u, k),
        0 <= i < k.len(),
        i < other.len(),
        k[i] != other[i],
    ensures
        !begins(u, other),
{
    assert(u.take(k.len() as int)[i] == k[i]);
    if begins(u, other) {
        assert(u.take(other.len() as int)[i] == other[i]);
    }
}

proof fn lemma_no_remark(e: Entry)
    ensures
        !begins(upper(e.text()), "REM "@),
        !begins(upper(e.text()), "CATALOG "@),
        !begins(upper(e.text()), "CDTEXTFILE "@),
        e is File <==> begins(upper(e.text()), "FILE "@),
        e is Track <==> begins(upper(e.text()), "TRACK "@),
        e is Title <==> begins(upper(e.text()), "TITLE "@),
        e is Performer <==> begins(upper(e.text()), "PERFORMER "@),
        e is Index <==> begins(upper(e.text()), "INDEX "@),
{
    lemma_keyword(e);
    reveal_strlit("REM ");
    reveal_strlit("CATALOG ");
    reveal_strlit("CDTEXTFILE ");
    reveal_strlit("FILE ");
    reveal_strlit("TRACK ");
    reveal_strlit("TITLE ");
    reveal_strlit("PERFORMER ");
    reveal_strlit("INDEX ");
    let u = upper(e.text());
    let k = e.keyword();
    lemma_not(u, k, "REM "@, 0);
    lemma_not(u, k, "CATALOG "@, 0);
    lemma_not(u, k, "CDTEXTFILE "@, 0);
    if e is File {
        assert("FILE "@ =~= k);
    } else {
        lemma_not(u, k, "FILE "@, 0);
    }
    if e is Track {
        assert("TRACK "@ =~= k);
    } else {
        lemma_not(u, k, "TRACK "@, if e is Title { 1 } else { 0 });
    }
    if e is Title {
        assert("TITLE "@ =~= k);
    } else {
        lemma_not(u, k, "TITLE "@, if e is Track { 1 } else { 0 });
    }
    if e is Performer {
        assert("PERFORMER "@ =~= k);
    } else {
        lemma_not(u, k, "PERFORMER "@, 0);
    }
    if e is Index {
        assert("INDEX "@ =~= k);
    } else {
        lemma_not(u, k, "INDEX "@, 0);
    }
}

/// A text in quotation marks is read as it is, white space, quotation marks and all.
pub proof fn law_quoted_read(s: Seq<char>)
    ensures
        quoted(in_quotes(s)) == Some(s),
        name_of(in_quotes(s)) == s,
{
    let t = in_quotes(s);
    law_trimmed(Seq::empty(), t, Seq::empty());
    assert(Seq::<char>::empty() + (t + Seq::<char>::empty()) =~= t);
    assert(t.subrange(1, t.len() - 1) =~= s);
}

/// The name of a file between quotation marks is read as it is, whatever follows it.
pub proof fn law_file_read(name: Seq<char>, after: Seq<char>)
    requires
        lacks(name, '"'),
        after.len() > 0 ==> !is_white(after.last()),
    ensures
        file_of(in_quotes(name) + after) == name,
{
    let t = in_quotes(name) + after;
    assert(!is_white(t.last())) by {
        if after.len() > 0 {
            assert(t.last() == after.last());
        } else {
            assert(t.last() == '"');
        }
    }
    law_trimmed(Seq::empty(), t, Seq::empty());
    assert(Seq::<char>::empty() + (t + Seq::<char>::empty()) =~= t);
    let behind = seq!['"'] + after;
    lemma_until(name, '"', behind);
    assert(t.drop_first() =~= name + behind);
    assert((name + behind).take(name.len() as int) =~= name);
}

/// Two words behind a keyword.
proof fn lemma_two_words(a: Seq<char>, b: Seq<char>)
    requires
        solid(a),
        solid(b),
        a.len() > 0,
        b.len() > 0,
    ensures
        word(a + (seq![' '] + b), 0) == Some(a),
        word(a + (seq![' '] + b), 1) == Some(b),
{
    let none = Seq::<char>::empty();
    let behind = seq![' '] + b;
    law_words(none, a, behind, 0);
    assert(none + (a + behind) =~= a + behind);
    law_words(seq![' '], b, none, 0);
    assert(seq![' '] + (b + none) =~= behind);
}

proof fn lemma_kind(audio: bool)
    ensures
        solid(kind_text(audio)),
        kind_text(audio).len() > 0,
        lacks(kind_text(audio), '\n'),
        upper(kind_text(audio)) == kind_text(audio),
        kind_text(audio) == "AUDIO"@ <==> audio,
{
    let k = kind_text(audio);
    reveal_strlit("AUDIO");
    assert forall|i: int| 0 <= i < k.len() implies ('A' <= #[trigger] k[i] <= 'Z' || '/' <= k[i]
        <= '9') by {}
    assert forall|i: int| 0 <= i < k.len() implies #[trigger] k[i] < '\u{80}' by {
        assert('A' <= k[i] <= 'Z' || '/' <= k[i] <= '9');
    }
    assert forall|i: int| 0 <= i < k.len() implies !is_white(#[trigger] k[i]) by {
        assert('A' <= k[i] <= 'Z' || '/' <= k[i] <= '9');
    }
    assert forall|i: int| 0 <= i < k.len() implies #[trigger] k[i] != '\n' by {
        assert('A' <= k[i] <= 'Z' || '/' <= k[i] <= '9');
    }
    law_ascii_upper(k);
    let m = k.map_values(|c: char| crate::cue::ascii_upper(c));
    assert forall|i: int| 0 <= i < k.len() implies m[i] == k[i] by {
        assert('A' <= k[i] <= 'Z' || '/' <= k[i] <= '9');
    }
    assert(m =~= k);
    if audio {
        assert(k =~= "AUDIO"@);
    } else {
        assert(k.len() != "AUDIO"@.len());
    }
}

proof fn lemma_ends(e: Entry)
    requires
        e.writable(),
    ensures
        e.rest().len() > 0,
        !is_white(e.rest().last()),
        lacks(e.text(), '\n'),
{
    let r = e.rest();
    match e {
        Entry::File(name) => {
            assert(r.last() == 'E');
            assert forall|i: int| 0 <= i < r.len() implies #[trigger] r[i] != '\n' by {
                if 1 <= i < 1 + name.len() {
                    assert(r[i] == name[i - 1]);
                }
            }
        },
        Entry::Track(n, audio) => {
            law_number_read(n);
            lemma_digits_solid(n.text());
            lemma_kind(audio);
            lemma_joined(n.text(), kind_text(audio));
        },
        Entry::Title(s) => {
            assert(r.last() == '"');
            lemma_quotes_lack(s);
        },
        Entry::Performer(s) => {
            assert(r.last() == '"');
            lemma_quotes_lack(s);
        },
        Entry::Index(n, t) => {
            law_number_read(n);
            lemma_digits_solid(n.text());
            lemma_time_solid(t);
            lemma_joined(n.text(), t.text());
        },
    }
    let k = e.keyword();
    let s = e.text();
    assert(lacks(r, '\n'));
    assert forall|i: int| 0 <= i < s.len() implies #[trigger] s[i] != '\n' by {
        if i < k.len() {
            assert(s[i] == k[i]);
        } else {
            assert(s[i] == r[i - k.len()]);
        }
    }
}

proof fn lemma_quotes_lack(s: Seq<char>)
    requires
        lacks(s, '\n'),
    ensures
        lacks(in_quotes(s), '\n'),
{
    let r = in_quotes(s);
    assert forall|i: int| 0 <= i < r.len() implies #[trigger] r[i] != '\n' by {
        if 1 <= i < 1 + s.len() {
            assert(r[i] == s[i - 1]);
        }
    }
}

proof fn lemma_joined(a: Seq<char>, b: Seq<char>)
    requires
        lacks(a, '\n'),
        lacks(b, '\n'),
        solid(b),
        b.len() > 0,
    ensures
        lacks(a + (seq![' '] + b), '\n'),
        !is_white((a + (seq![' '] + b)).last()),
        (a + (seq![' '] + b)).len() > 0,
{
    let r = a + (seq![' '] + b);
    assert(r.last() == b.last());
    assert(b.last() == b[b.len() - 1]);
    assert forall|i: int| 0 <= i < r.len() implies #[trigger] r[i] != '\n' by {
        if i < a.len() {
            assert(r[i] == a[i]);
        } else if i > a.len() {
            assert(r[i] == b[i - a.len() - 1]);
        }
    }
}

proof fn lemma_line(p: Progress, e: Entry, no: u32)
    requires
        e.writable(),
        e is File ==> p.audio_file is None,
    ensures
        p.line(e.text(), upper(e.text()), upper(track_kind(e.text())), no) == Ok::<
            Progress,
            SyntaxFault,
        >(meant(p, e)),
{
    lemma_keyword(e);
    lemma_no_remark(e);
    match e {
        Entry::File(name) => {
            law_file_read(name, seq![' ', 'W', 'A', 'V', 'E']);
        },
        Entry::Track(n, audio) => {
            law_number_read(n);
            lemma_digits_solid(n.text());
            lemma_kind(audio);
            lemma_two_words(n.text(), kind_text(audio));
            reveal_strlit("Track ");
            assert("Track "@ =~= seq!['T', 'r', 'a', 'c', 'k', ' ']);
        },
        Entry::Title(s) => {
            law_quoted_read(s);
        },
        Entry::Performer(s) => {
            law_quoted_read(s);
        },
        Entry::Index(n, t) => {
            law_number_read(n);
            lemma_digits_solid(n.text());
            lemma_time_solid(t);
            lemma_two_words(n.text(), t.text());
            law_time_read(t, Seq::empty());
            assert(t.text() + Seq::<char>::empty() =~= t.text());
        },
    }
}

/// A line with what may stand in front of it and behind.
pub struct Line {
    /// White space in front.
    pub front: Seq<char>,
    /// The line itself.
    pub entry: Entry,
    /// White space behind, such as a carriage return.
    pub back: Seq<char>,
}

impl Line {
    /// All of it.
    pub open spec fn row(self) -> Seq<char> {
        self.front + (self.entry.text() + self.back)
    }

    /// Whether it can be written.
    pub open spec fn writable(self) -> bool {
        &&& self.entry.writable()
        &&& blank(self.front)
        &&& blank(self.back)
        &&& lacks(self.front, '\n')
        &&& lacks(self.back, '\n')
    }
}

/// A line that is written is read, whatever white space stands round it.
pub proof fn law_line_read(p: Progress, l: Line, no: u32)
    requires
        l.writable(),
        l.entry is File ==> p.audio_file is None,
    ensures
        p.raw_line(l.row(), no) == Ok::<Progress, SyntaxFault>(meant(p, l.entry)),
        lacks(l.row(), '\n'),
{
    reveal(Progress::raw_line);
    let e = l.entry;
    lemma_keyword(e);
    lemma_ends(e);
    assert(e.text().last() == e.rest().last());
    law_trimmed(l.front, e.text(), l.back);
    lemma_line(p, e, no);
    let r = l.row();
    let t = e.text();
    assert forall|i: int| 0 <= i < r.len() implies #[trigger] r[i] != '\n' by {
        let j = i - l.front.len();
        if j < 0 {
            assert(r[i] == l.front[i]);
        } else if j < t.len() {
            assert(r[i] == t[j]);
        } else {
            assert(r[i] == l.back[j - t.len()]);
        }
    }
}

/// Lines, each with its end.
pub open spec fn text_of_lines(ls: Seq<Line>) -> Seq<char>
    decreases ls.len(),
{
    if ls.len() == 0 {
        Seq::empty()
    } else {
        ls[0].row() + (seq!['\n'] + text_of_lines(ls.drop_first()))
    }
}

/// What lines say.
pub open spec fn all_meant(p: Progress, es: Seq<Entry>) -> Progress
    decreases es.len(),
{
    if es.len() == 0 {
        p
    } else {
        meant(all_meant(p, es.drop_last()), es.last())
    }
}

/// Whether lines name no more than one file.
pub open spec fn one_file(es: Seq<Entry>) -> bool {
    forall|i: int, j: int|
        #![trigger es[i], es[j]]
        0 <= i < es.len() && 0 <= j < es.len() && es[i] is File && es[j] is File ==> i == j
}

/// The lines without what stands round them.
pub open spec fn entries(ls: Seq<Line>) -> Seq<Entry> {
    Seq::new(ls.len(), |i: int| ls[i].entry)
}

proof fn lemma_file_kept(p: Progress, es: Seq<Entry>)
    requires
        forall|i: int| 0 <= i < es.len() ==> !(#[trigger] es[i] is File),
    ensures
        all_meant(p, es).audio_file == p.audio_file,
    decreases es.len(),
{
    if es.len() > 0 {
        let before = es.drop_last();
        assert forall|i: int| 0 <= i < before.len() implies !(#[trigger] before[i] is File) by {
            assert(before[i] == es[i]);
        }
        lemma_file_kept(p, before);
        assert(!(es[es.len() - 1] is File));
    }
}

proof fn lemma_lines_from(p: Progress, ls: Seq<Line>, k: int, no: nat)
    requires
        0 <= k <= ls.len(),
        forall|i: int| 0 <= i < ls.len() ==> (#[trigger] ls[i]).writable(),
        one_file(entries(ls)),
        p.audio_file is None,
    ensures
        all_meant(p, entries(ls).take(k)).lines(text_of_lines(ls.skip(k)), no) == Ok::<
            Progress,
            SyntaxFault,
        >(all_meant(p, entries(ls))),
    decreases ls.len() - k,
{
    let es = entries(ls);
    let q = all_meant(p, es.take(k));
    let rest = ls.skip(k);
    if k == ls.len() {
        assert(es.take(k) =~= es);
        assert(rest =~= Seq::empty());
    } else {
        let l = ls[k];
        assert(rest[0] == l);
        assert(rest.drop_first() =~= ls.skip(k + 1));
        let later = text_of_lines(ls.skip(k + 1));
        let s = text_of_lines(rest);
        assert(s == l.row() + (seq!['\n'] + later));
        if l.entry is File {
            let front = es.take(k);
            assert forall|i: int| 0 <= i < front.len() implies !(#[trigger] front[i] is File) by {
                assert(front[i] == es[i]);
                assert(es[k] is File);
            }
            lemma_file_kept(p, front);
        }
        law_line_read(q, l, crate::cue::line_number(no + 1));
        lemma_until(l.row(), '\n', seq!['\n'] + later);
        assert(s.take(l.row().len() as int) =~= l.row());
        assert(s.skip(l.row().len() as int + 1) =~= later);
        assert(es.take(k + 1).drop_last() =~= es.take(k));
        assert(es.take(k + 1).last() == l.entry);
        lemma_lines_from(p, ls, k + 1, no + 1);
    }
}

/// Lines that are written are read, one after the other.
pub proof fn law_lines_read(ls: Seq<Line>)
    requires
        forall|i: int| 0 <= i < ls.len() ==> (#[trigger] ls[i]).writable(),
        one_file(entries(ls)),
    ensures
        Progress::start().lines(text_of_lines(ls), 0) == Ok::<Progress, SyntaxFault>(
            all_meant(Progress::start(), entries(ls)),
        ),
{
    assert(entries(ls).take(0) =~= Seq::empty());
    assert(ls.skip(0) =~= ls);
    lemma_lines_from(Progress::start(), ls, 0, 0);
}

/// A track as it is written.
pub struct Piece {
    /// Its number.
    pub number: Number,
    /// Whether it is audio.
    pub audio: bool,
    /// Its title.
    pub title: Option<Seq<char>>,
    /// Its performer.
    pub performer: Option<Seq<char>>,
    /// Where the gap in front of it starts.
    pub gap: Option<Time>,
    /// Where it starts.
    pub start: Time,
}

/// A line that may be missing.
pub open spec fn title_line(s: Option<Seq<char>>) -> Seq<Entry> {
    match s {
        Some(s) => seq![Entry::Title(s)],
        None => Seq::empty(),
    }
}

/// A line that may be missing.
pub open spec fn performer_line(s: Option<Seq<char>>) -> Seq<Entry> {
    match s {
        Some(s) => seq![Entry::Performer(s)],
        None => Seq::empty(),
    }
}

/// A line that may be missing.
pub open spec fn gap_line(t: Option<Time>) -> Seq<Entry> {
    match t {
        Some(t) => seq![Entry::Index(Number { zeros: 1, value: 0 }, t)],
        None => Seq::empty(),
    }
}

/// A line that may be missing.
pub open spec fn file_line(s: Option<Seq<char>>) -> Seq<Entry> {
    match s {
        Some(s) => seq![Entry::File(s)],
        None => Seq::empty(),
    }
}

impl Piece {
    /// Its lines.
    pub open spec fn lines(self) -> Seq<Entry> {
        seq![Entry::Track(self.number, self.audio)] + title_line(self.title) + performer_line(
            self.performer,
        ) + gap_line(self.gap) + seq![Entry::Index(Number { zeros: 1, value: 1 }, self.start)]
    }

    /// What it says, but for its end.
    pub open spec fn track(self) -> Track {
        Track {
            index: self.number.value,
            title: match self.title {
                Some(s) => s,
                None => seq!['T', 'r', 'a', 'c', 'k', ' '] + decimal(self.number.value as int),
            },
            performer: self.performer,
            start: self.start.count() as u64,
            pregap: match self.gap {
                Some(t) => Some(t.count() as u64),
                None => None,
            },
            end: None,
            is_audio: self.audio,
        }
    }
}

/// The lines of tracks.
pub open spec fn pieces_lines(ps: Seq<Piece>) -> Seq<Entry>
    decreases ps.len(),
{
    if ps.len() == 0 {
        Seq::empty()
    } else {
        pieces_lines(ps.drop_last()) + ps.last().lines()
    }
}

/// A sheet as it is written.
pub struct Album {
    /// Its title.
    pub title: Option<Seq<char>>,
    /// Its performer.
    pub performer: Option<Seq<char>>,
    /// The audio file.
    pub file: Option<Seq<char>>,
    /// Its tracks.
    pub pieces: Seq<Piece>,
}

impl Album {
    /// Its lines.
    pub open spec fn lines(self) -> Seq<Entry> {
        (title_line(self.title) + performer_line(self.performer) + file_line(self.file))
            + pieces_lines(self.pieces)
    }
}

proof fn lemma_all_meant(p: Progress, a: Seq<Entry>, b: Seq<Entry>)
    ensures
        all_meant(p, a + b) == all_meant(all_meant(p, a), b),
    decreases b.len(),
{
    if b.len() == 0 {
        assert(a + b =~= a);
    } else {
        assert((a + b).drop_last() =~= a + b.drop_last());
        assert((a + b).last() == b.last());
        lemma_all_meant(p, a, b.drop_last());
    }
}

proof fn lemma_one(p: Progress, e: Entry)
    ensures
        all_meant(p, seq![e]) == meant(p, e),
{
    let s = seq![e];
    assert(s.drop_last() =~= Seq::empty());
    reveal_with_fuel(all_meant, 2);
}

proof fn lemma_maybe(p: Progress, t: Option<Seq<char>>, at: Option<Time>)
    ensures
        all_meant(p, title_line(t)) == (match t {
            Some(s) => meant(p, Entry::Title(s)),
            None => p,
        }),
        all_meant(p, performer_line(t)) == (match t {
            Some(s) => meant(p, Entry::Performer(s)),
            None => p,
        }),
        all_meant(p, file_line(t)) == (match t {
            Some(s) => meant(p, Entry::File(s)),
            None => p,
        }),
        all_meant(p, gap_line(at)) == (match at {
            Some(u) => meant(p, Entry::Index(Number { zeros: 1, value: 0 }, u)),
            None => p,
        }),
{
    if let Some(s) = t {
        lemma_one(p, Entry::Title(s));
        lemma_one(p, Entry::Performer(s));
        lemma_one(p, Entry::File(s));
    }
    if let Some(u) = at {
        lemma_one(p, Entry::Index(Number { zeros: 1, value: 0 }, u));
    }
}

proof fn lemma_piece(p: Progress, piece: Piece)
    ensures
        all_meant(p, piece.lines()) == (Progress {
            tracks: p.all_tracks(),
            current: Some(piece.track()),
            ..p
        }),
{
    let a = seq![Entry::Track(piece.number, piece.audio)];
    let b = title_line(piece.title);
    let c = performer_line(piece.performer);
    let d = gap_line(piece.gap);
    let e = seq![Entry::Index(Number { zeros: 1, value: 1 }, piece.start)];
    lemma_all_meant(p, a + b + c + d, e);
    lemma_all_meant(p, a + b + c, d);
    lemma_all_meant(p, a + b, c);
    lemma_all_meant(p, a, b);
    lemma_one(p, Entry::Track(piece.number, piece.audio));
    let p1 = all_meant(p, a);
    lemma_maybe(p1, piece.title, None);
    let p2 = all_meant(p1, b);
    lemma_maybe(p2, piece.performer, None);
    let p3 = all_meant(p2, c);
    lemma_maybe(p3, None, piece.gap);
    let p4 = all_meant(p3, d);
    lemma_one(p4, Entry::Index(Number { zeros: 1, value: 1 }, piece.start));
}

proof fn lemma_pieces(p: Progress, ps: Seq<Piece>)
    requires
        p.current is None,
        p.tracks.len() == 0,
    ensures
        all_meant(p, pieces_lines(ps)).all_tracks() == Seq::new(
            ps.len(),
            |i: int| ps[i].track(),
        ),
        all_meant(p, pieces_lines(ps)).audio_file == p.audio_file,
        all_meant(p, pieces_lines(ps)).album_title == p.album_title,
        all_meant(p, pieces_lines(ps)).album_performer == p.album_performer,
    decreases ps.len(),
{
    let all = Seq::new(ps.len(), |i: int| ps[i].track());
    if ps.len() == 0 {
        assert(all =~= p.tracks);
    } else {
        let before = ps.drop_last();
        lemma_pieces(p, before);
        lemma_all_meant(p, pieces_lines(before), ps.last().lines());
        let q = all_meant(p, pieces_lines(before));
        lemma_piece(q, ps.last());
        assert(q.all_tracks().push(ps.last().track()) =~= all);
    }
}

proof fn lemma_none_zero(ts: Seq<Track>, i: nat)
    requires
        forall|j: int| i <= j < ts.len() ==> (#[trigger] ts[j]).start != 0,
    ensures
        first_at_zero(ts, i) is None,
    decreases ts.len() - i,
{
    if i < ts.len() {
        lemma_none_zero(ts, i + 1);
    }
}

proof fn lemma_pieces_files(ps: Seq<Piece>, i: int)
    requires
        0 <= i < pieces_lines(ps).len(),
    ensures
        !(pieces_lines(ps)[i] is File),
    decreases ps.len(),
{
    if ps.len() > 0 {
        let before = pieces_lines(ps.drop_last());
        if i < before.len() {
            lemma_pieces_files(ps.drop_last(), i);
        } else {
            let last = ps.last().lines();
            assert(pieces_lines(ps)[i] == last[i - before.len()]);
        }
    }
}

/// A sheet that is written is read: its title, its performer and its file, and of each
/// track what is written of it. A track without a title is called by its number, and
/// each track but the last ends where the next one starts.
pub proof fn law_sheet_read(album: Album, ls: Seq<Line>)
    requires
        forall|i: int| 0 <= i < ls.len() ==> (#[trigger] ls[i]).writable(),
        entries(ls) == album.lines(),
        album.pieces.len() > 0,
        forall|i: int|
            0 <= i < album.pieces.len() ==> (#[trigger] album.pieces[i]).start.exists_so(),
        forall|i: int|
            1 <= i < album.pieces.len() ==> (#[trigger] album.pieces[i]).start.count() > 0,
    ensures
        sheet_of(seq!['\u{feff}'] + text_of_lines(ls)) == sheet_of(text_of_lines(ls)),
        sheet_of(text_of_lines(ls)) matches Ok(sheet) && {
            let ps = album.pieces;
            &&& sheet.album_title == album.title
            &&& sheet.album_performer == album.performer
            &&& sheet.audio_file == album.file
            &&& sheet.tracks.len() == ps.len()
            &&& forall|i: int|
                #![trigger sheet.tracks[i]]
                0 <= i < ps.len() ==> sheet.tracks[i] == (Track {
                    end: if i + 1 < ps.len() {
                        Some(ps[i + 1].start.count() as u64)
                    } else {
                        None
                    },
                    ..ps[i].track()
                })
        },
{
    let es = album.lines();
    let a = title_line(album.title);
    let b = performer_line(album.performer);
    let c = file_line(album.file);
    let d = pieces_lines(album.pieces);
    let p0 = Progress::start();
    assert forall|i: int, j: int|
        #![trigger es[i], es[j]]
        0 <= i < es.len() && 0 <= j < es.len() && es[i] is File && es[j] is File implies i
        == j by {
        lemma_head_file(album, i);
        lemma_head_file(album, j);
    }
    law_lines_read(ls);
    let text = text_of_lines(ls);
    assert((seq!['\u{feff}'] + text).drop_first() =~= text);
    if ls.len() > 0 {
        let l = ls[0];
        lemma_keyword(l.entry);
        if l.front.len() > 0 {
            assert(is_white(l.front[0]));
            assert(text[0] == l.front[0]);
        } else {
            assert(text[0] == l.entry.keyword()[0]);
        }
    }
    lemma_all_meant(p0, a + b + c, d);
    lemma_all_meant(p0, a + b, c);
    lemma_all_meant(p0, a, b);
    lemma_maybe(p0, album.title, None);
    let p1 = all_meant(p0, a);
    lemma_maybe(p1, album.performer, None);
    let p2 = all_meant(p1, b);
    lemma_maybe(p2, album.file, None);
    let p3 = all_meant(p2, c);
    lemma_pieces(p3, album.pieces);
    let end = all_meant(p3, d);
    let ts = end.all_tracks();
    assert forall|j: int| 1 <= j < ts.len() implies (#[trigger] ts[j]).start != 0 by {
        let piece = album.pieces[j];
        assert(piece.start.count() > 0);
        law_time_read(piece.start, Seq::empty());
    }
    lemma_none_zero(ts, 1);
    assert(with_ends(ts).len() == album.pieces.len());
}

proof fn lemma_head_file(album: Album, i: int)
    requires
        0 <= i < album.lines().len(),
        album.lines()[i] is File,
    ensures
        i == title_line(album.title).len() + performer_line(album.performer).len(),
{
    let head = title_line(album.title) + performer_line(album.performer) + file_line(album.file);
    if i >= head.len() {
        lemma_pieces_files(album.pieces, i - head.len());
    }
}

/// Whether lines have been read up to this text, of which `no` lines are behind.
proof fn lemma_read_up_to(p: Progress, ls: Seq<Line>, k: int, rest: Seq<char>, no: nat)
    requires
        0 <= k <= ls.len(),
        forall|i: int| 0 <= i < ls.len() ==> (#[trigger] ls[i]).writable(),
        one_file(entries(ls)),
        p.audio_file is None,
    ensures
        all_meant(p, entries(ls).take(k)).lines(text_of_lines(ls.skip(k)) + rest, no) == all_meant(
            p,
            entries(ls),
        ).lines(rest, no + (ls.len() - k) as nat),
    decreases ls.len() - k,
{
    let es = entries(ls);
    let q = all_meant(p, es.take(k));
    let left = ls.skip(k);
    if k == ls.len() {
        assert(es.take(k) =~= es);
        assert(left =~= Seq::empty());
        assert(text_of_lines(left) + rest =~= rest);
    } else {
        let l = ls[k];
        assert(left[0] == l);
        assert(left.drop_first() =~= ls.skip(k + 1));
        let later = text_of_lines(ls.skip(k + 1)) + rest;
        let s = text_of_lines(left) + rest;
        assert(s =~= l.row() + (seq!['\n'] + later));
        if l.entry is File {
            let front = es.take(k);
            assert forall|i: int| 0 <= i < front.len() implies !(#[trigger] front[i] is File) by {
                assert(front[i] == es[i]);
                assert(es[k] is File);
            }
            lemma_file_kept(p, front);
        }
        law_line_read(q, l, crate::cue::line_number(no + 1));
        lemma_until(l.row(), '\n', seq!['\n'] + later);
        assert(s.take(l.row().len() as int) =~= l.row());
        assert(s.skip(l.row().len() as int + 1) =~= later);
        assert(es.take(k + 1).drop_last() =~= es.take(k));
        assert(es.take(k + 1).last() == l.entry);
        lemma_read_up_to(p, ls, k + 1, rest, no + 1);
    }
}

/// What a line with something wrong in it is: a second file, or a time that there is not.
pub open spec fn wrong(p: Progress, e: Entry) -> bool {
    match e {
        Entry::File(name) => p.audio_file is Some && lacks(name, '\n'),
        Entry::Index(n, t) => p.current is Some && n.value <= 1 && !t.exists_so(),
        _ => false,
    }
}

proof fn lemma_wrong_text(p: Progress, e: Entry)
    requires
        wrong(p, e),
    ensures
        lacks(e.text(), '\n'),
        e.text().len() > 0,
        !is_white(e.text().last()),
{
    let r = e.rest();
    match e {
        Entry::File(name) => {
            assert(r.last() == 'E');
            assert forall|i: int| 0 <= i < r.len() implies #[trigger] r[i] != '\n' by {
                if 1 <= i < 1 + name.len() {
                    assert(r[i] == name[i - 1]);
                }
            }
        },
        Entry::Index(n, t) => {
            law_number_read(n);
            lemma_digits_solid(n.text());
            lemma_time_solid(t);
            lemma_joined(n.text(), t.text());
        },
        _ => {},
    }
    assert(lacks(r, '\n'));
    let k = e.keyword();
    let s = e.text();
    assert(s.last() == r.last());
    assert forall|i: int| 0 <= i < s.len() implies #[trigger] s[i] != '\n' by {
        if i < k.len() {
            assert(s[i] == k[i]);
        } else {
            assert(s[i] == r[i - k.len()]);
        }
    }
}

proof fn lemma_wrong_line(p: Progress, e: Entry, no: u32)
    requires
        wrong(p, e),
    ensures
        p.line(e.text(), upper(e.text()), upper(track_kind(e.text())), no) matches Err(f) && f.line
            == no,
{
    lemma_keyword(e);
    lemma_no_remark(e);
    if let Entry::Index(n, t) = e {
        law_number_read(n);
        lemma_digits_solid(n.text());
        lemma_time_solid(t);
        lemma_two_words(n.text(), t.text());
        law_time_read(t, Seq::empty());
        assert(t.text() + Seq::<char>::empty() =~= t.text());
    }
}

proof fn lemma_wrong(p: Progress, e: Entry, no: u32)
    requires
        wrong(p, e),
    ensures
        p.raw_line(e.text(), no) matches Err(f) && f.line == no,
        lacks(e.text(), '\n'),
        e.text().len() > 0,
{
    reveal(Progress::raw_line);
    lemma_wrong_text(p, e);
    lemma_wrong_line(p, e, no);
    lemma_keyword(e);
    let s = e.text();
    law_trimmed(Seq::empty(), s, Seq::empty());
    assert(Seq::<char>::empty() + (s + Seq::<char>::empty()) =~= s);
}

/// A line with something wrong in it is refused, whatever follows, and the error says which
/// line it is, counted from one.
pub proof fn law_wrong_line(ls: Seq<Line>, e: Entry, rest: Seq<char>)
    requires
        forall|i: int| 0 <= i < ls.len() ==> (#[trigger] ls[i]).writable(),
        one_file(entries(ls)),
        ls.len() < 0xFFFF_FFFF,
        wrong(all_meant(Progress::start(), entries(ls)), e),
        rest.len() == 0 || rest[0] == '\n',
    ensures
        Progress::start().lines(text_of_lines(ls) + (e.text() + rest), 0) matches Err(f) && f.line
            == ls.len() + 1,
{
    let p = all_meant(Progress::start(), entries(ls));
    let tail = e.text() + rest;
    assert(entries(ls).take(0) =~= Seq::empty());
    assert(ls.skip(0) =~= ls);
    lemma_read_up_to(Progress::start(), ls, 0, tail, 0);
    lemma_wrong(p, e, (ls.len() + 1) as u32);
    lemma_until(e.text(), '\n', rest);
    if rest.len() > 0 {
        assert(tail.take(e.text().len() as int) =~= e.text());
    } else {
        assert(tail =~= e.text());
    }
}

/// A sheet whose tracks do not all start behind zero, but for the first, is refused, and so
/// is one without tracks.
pub proof fn law_sheet_refused(album: Album, ls: Seq<Line>)
    requires
        forall|i: int| 0 <= i < ls.len() ==> (#[trigger] ls[i]).writable(),
        entries(ls) == album.lines(),
        album.pieces.len() == 0 || exists|i: int|
            1 <= i < album.pieces.len() && (#[trigger] album.pieces[i]).start.count() == 0,
    ensures
        completed(all_meant(Progress::start(), album.lines())) is Err,
        Progress::start().lines(text_of_lines(ls), 0) == Ok::<Progress, SyntaxFault>(
            all_meant(Progress::start(), album.lines()),
        ),
{
    let es = album.lines();
    let a = title_line(album.title);
    let b = performer_line(album.performer);
    let c = file_line(album.file);
    let d = pieces_lines(album.pieces);
    let p0 = Progress::start();
    assert forall|i: int, j: int|
        #![trigger es[i], es[j]]
        0 <= i < es.len() && 0 <= j < es.len() && es[i] is File && es[j] is File implies i
        == j by {
        lemma_head_file(album, i);
        lemma_head_file(album, j);
    }
    law_lines_read(ls);
    lemma_all_meant(p0, a + b + c, d);
    lemma_all_meant(p0, a + b, c);
    lemma_all_meant(p0, a, b);
    lemma_maybe(p0, album.title, None);
    let p1 = all_meant(p0, a);
    lemma_maybe(p1, album.performer, None);
    let p2 = all_meant(p1, b);
    lemma_maybe(p2, album.file, None);
    let p3 = all_meant(p2, c);
    lemma_pieces(p3, album.pieces);
    let ts = all_meant(p3, d).all_tracks();
    if album.pieces.len() > 0 {
        let i = choose|i: int|
            1 <= i < album.pieces.len() && (#[trigger] album.pieces[i]).start.count() == 0;
        lemma_some_zero(ts, 1, i);
    }
}

proof fn lemma_some_zero(ts: Seq<Track>, i: nat, k: int)
    requires
        i <= k < ts.len(),
        ts[k].start == 0,
    ensures
        first_at_zero(ts, i) is Some,
    decreases ts.len() - i,
{
    if ts[i as int].start != 0 {
        lemma_some_zero(ts, i + 1, k);
    }
}

} // verus!
