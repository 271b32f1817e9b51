//! The tags of a file: which of those it holds are taken over, and which picture
//! is the cover.

use crate::chars::{caseless, chars_of, same_caseless};
use vstd::prelude::*;

verus! {

/// What the tags of a file say.
#[derive(Debug, Clone)]
pub struct ProbeTags {
    /// The title.
    pub title: Option<String>,
    /// The artist of the track, or of the album where there is none.
    pub artist: Option<String>,
    /// The album.
    pub album: Option<String>,
    /// The number of the track.
    pub track_number: Option<u32>,
    /// The lyrics.
    pub lyrics: Option<String>,
    /// The cover: its bytes and their type.
    pub cover: Option<(Vec<u8>, String)>,
}

/// One tag.
pub enum Tag {
    /// The title.
    TrackTitle(String),
    /// The artist of the track.
    Artist(String),
    /// The artist of the album.
    AlbumArtist(String),
    /// The album.
    Album(String),
    /// The number of the track on a disc.
    CdTrackIndex(u8),
    /// The number of the track.
    TrackNumber(u64),
    /// The lyrics.
    Lyrics(String),
    /// Another tag that is known.
    Other,
    /// A tag that is not known: its key, and its value where that is a text.
    Raw(String, Option<String>),
}

/// The tags taken over, but for the cover.
#[verifier::ext_equal]
pub struct Tags {
    /// The title.
    pub title: Option<Seq<char>>,
    /// The artist.
    pub artist: Option<Seq<char>>,
    /// The album.
    pub album: Option<Seq<char>>,
    /// The number of the track.
    pub track_number: Option<u32>,
    /// The lyrics.
    pub lyrics: Option<Seq<char>>,
}

/// The text that may be there.
pub open spec fn text_of(s: Option<String>) -> Option<Seq<char>> {
    match s {
        Some(t) => Some(t@),
        None => None,
    }
}

impl ProbeTags {
    /// The tags, but for the cover.
    pub open spec fn tags(&self) -> Tags {
        Tags {
            title: text_of(self.title),
            artist: text_of(self.artist),
            album: text_of(self.album),
            track_number: self.track_number,
            lyrics: text_of(self.lyrics),
        }
    }

    /// No tags.
    pub fn new() -> (t: ProbeTags)
        ensures
            t.tags() == (Tags {
                title: None,
                artist: None,
                album: None,
                track_number: None,
                lyrics: None,
            }),
            t.cover is None,
    {
        ProbeTags {
            title: None,
            artist: None,
            album: None,
            track_number: None,
            lyrics: None,
            cover: None,
        }
    }
}

impl Default for ProbeTags {
    fn default() -> (t: ProbeTags)
        ensures
            t.tags() == (Tags {
                title: None,
                artist: None,
                album: None,
                track_number: None,
                lyrics: None,
            }),
            t.cover is None,
    {
        ProbeTags::new()
    }
}

impl Tags {
    /// Lyrics taken over: the first that are not empty.
    pub open spec fn with_lyrics(self, text: Seq<char>) -> Tags {
        if self.lyrics is None && text.len() > 0 {
            Tags { lyrics: Some(text), ..self }
        } else {
            self
        }
    }

    /// One tag taken over. Of most, the last counts; the artist of the album only
    /// where no artist came before.
    pub open spec fn with(self, tag: Tag) -> Tags {
        match tag {
            Tag::TrackTitle(s) => Tags { title: Some(s@), ..self },
            Tag::Artist(s) => Tags { artist: Some(s@), ..self },
            Tag::AlbumArtist(s) => if self.artist is None {
                Tags { artist: Some(s@), ..self }
            } else {
                self
            },
            Tag::Album(s) => Tags { album: Some(s@), ..self },
            Tag::CdTrackIndex(n) => Tags { track_number: Some(n as u32), ..self },
            Tag::TrackNumber(n) => Tags { track_number: Some(n as u32), ..self },
            Tag::Lyrics(s) => self.with_lyrics(s@),
            Tag::Other => self,
            Tag::Raw(key, value) => if caseless(key@) == caseless("lyrics"@) || caseless(key@)
                == caseless("unsyncedlyrics"@) {
                match value {
                    Some(s) => self.with_lyrics(s@),
                    None => self,
                }
            } else {
                self
            },
        }
    }

    /// The first `n` tags taken over.
    pub open spec fn with_all(self, list: Seq<Tag>, n: nat) -> Tags
        decreases n,
    {
        if n == 0 {
            self
        } else {
            self.with_all(list, (n - 1) as nat).with(list[n - 1])
        }
    }
}

fn copied(s: &String) -> (t: String)
    ensures
        t@ == s@,
{
    s.as_str().to_owned()
}

fn take_lyrics(tags: &mut ProbeTags, text: &String)
    ensures
        final(tags).tags() == old(tags).tags().with_lyrics(text@),
        final(tags).cover == old(tags).cover,
{
    if tags.lyrics.is_none() && text.as_str().unicode_len() > 0 {
        tags.lyrics = Some(copied(text));
    }
}

fn take_tag(tags: &mut ProbeTags, tag: &Tag)
    ensures
        final(tags).tags() == old(tags).tags().with(*tag),
        final(tags).cover == old(tags).cover,
{
    match tag {
        Tag::TrackTitle(s) => {
            tags.title = Some(copied(s));
        },
        Tag::Artist(s) => {
            tags.artist = Some(copied(s));
        },
        Tag::AlbumArtist(s) => {
            if tags.artist.is_none() {
                tags.artist = Some(copied(s));
            }
        },
        Tag::Album(s) => {
            tags.album = Some(copied(s));
        },
        Tag::CdTrackIndex(n) => {
            tags.track_number = Some(*n as u32);
        },
        Tag::TrackNumber(n) => {
            tags.track_number = Some(*n as u32);
        },
        Tag::Lyrics(s) => {
            take_lyrics(tags, s);
        },
        Tag::Other => {},
        Tag::Raw(key, value) => {
            let name: Vec<char> = chars_of(key.as_str());
            if same_caseless(name.as_slice(), "lyrics") || same_caseless(
                name.as_slice(),
                "unsyncedlyrics",
            ) {
                match value {
                    Some(s) => {
                        take_lyrics(tags, s);
                    },
                    None => {},
                }
            }
        },
    }
}

/// Takes tags over.
pub fn fill_tags(tags: &mut ProbeTags, list: &Vec<Tag>)
    ensures
        final(tags).tags() == old(tags).tags().with_all(list@, list@.len()),
        final(tags).cover == old(tags).cover,
{
    let mut i: usize = 0;
    while i < list.len()
        invariant
            i <= list.len(),
            tags.tags() == old(tags).tags().with_all(list@, i as nat),
            tags.cover == old(tags).cover,
        decreases list.len() - i,
    {
        take_tag(tags, &list[i]);
        i = i + 1;
    }
}

/// An artist of the track is never replaced by that of the album.
pub proof fn law_artist_wins(t: Tags, tag: Tag)
    requires
        t.artist is Some,
        tag is AlbumArtist,
    ensures
        t.with(tag) == t,
{
}

/// What a picture shows.
#[derive(Debug, Clone, Copy, PartialEq, Eq, Structural)]
pub enum Usage {
    /// The front cover.
    FrontCover,
    /// The back cover.
    BackCover,
    /// Something else.
    Other,
}

/// A picture.
pub struct Visual {
    /// What it shows.
    pub usage: Usage,
    /// Its bytes.
    pub data: Vec<u8>,
    /// The type of the bytes.
    pub media_type: Option<String>,
}

/// The first picture from `i` on that is not empty and shows this; any, where
/// nothing is said.
pub open spec fn first_visual(list: Seq<Visual>, usage: Option<Usage>, i: int) -> Option<int>
    decreases list.len() - i,
{
    if i >= list.len() {
        None
    } else if list[i].data@.len() > 0 && (usage is None || usage == Some(list[i].usage)) {
        Some(i)
    } else {
        first_visual(list, usage, i + 1)
    }
}

/// The picture that is the cover: the first front cover, else the first back
/// cover, else the first picture.
pub open spec fn chosen(list: Seq<Visual>) -> Option<int> {
    match first_visual(list, Some(Usage::FrontCover), 0) {
        Some(i) => Some(i),
        None => match first_visual(list, Some(Usage::BackCover), 0) {
            Some(i) => Some(i),
            None => first_visual(list, None, 0),
        },
    }
}

fn find_visual(list: &Vec<Visual>, usage: Option<Usage>) -> (r: Option<usize>)
    ensures
        match first_visual(list@, usage, 0) {
            Some(k) => r matches Some(i) && i == k && i < list.len(),
            None => r is None,
        },
{
    let mut i: usize = 0;
    while i < list.len()
        invariant
            i <= list.len(),
            first_visual(list@, usage, 0) == first_visual(list@, usage, i as int),
        decreases list.len() - i,
    {
        let fits: bool = match usage {
            None => true,
            Some(u) => u == list[i].usage,
        };
        if list[i].data.len() > 0 && fits {
            return Some(i);
        }
        i = i + 1;
    }
    None
}

/// Takes the cover out of the pictures. One whose type is not known is none.
pub fn choose_cover(list: &Vec<Visual>) -> (r: Option<(Vec<u8>, String)>)
    ensures
        match chosen(list@) {
            None => r is None,
            Some(k) => match list@[k].media_type {
                None => r is None,
                Some(m) => r matches Some(c) && c.0@ == list@[k].data@ && c.1@ == m@,
            },
        },
{
    let at: usize = match find_visual(list, Some(Usage::FrontCover)) {
        Some(i) => i,
        None => match find_visual(list, Some(Usage::BackCover)) {
            Some(i) => i,
            None => match find_visual(list, None) {
                Some(i) => i,
                None => return None,
            },
        },
    };
    match &list[at].media_type {
        None => None,
        Some(m) => {
            let mut data: Vec<u8> = Vec::new();
            let source: &Vec<u8> = &list[at].data;
            let mut i: usize = 0;
            while i < source.len()
                invariant
                    i <= source.len(),
                    data@ == source@.take(i as int),
                decreases source.len() - i,
            {
                data.push(source[i]);
                assert(data@ =~= source@.take(i + 1));
                i = i + 1;
            }
            assert(data@ =~= source@);
            Some((data, copied(m)))
        },
    }
}

} // verus!
