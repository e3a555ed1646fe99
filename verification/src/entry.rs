use vstd::prelude::*;
use crate::strutil::{split_all, split_string, parse_ms, parse_ms_str, render_ms,
    format_ms, find_last_char};
use crate::track::Track;

verus! {

/// The mathematical content of one playcount record.
pub ghost struct EntryView {
    /// The played file's path, relative to the music directory.
    pub path: Seq<char>,
    /// The playtime, in milliseconds.
    pub duration_ms: int,
    /// Artist name.
    pub artist: Seq<char>,
    /// Album artist name, if any.
    pub album_artist: Option<Seq<char>>,
    /// Album title, if any.
    pub album: Option<Seq<char>>,
    /// Track title.
    pub title: Seq<char>,
}

/// The view of an optional string.
pub open spec fn opt_view(o: Option<String>) -> Option<Seq<char>> {
    match o {
        Some(s) => Some(s@),
        None => None,
    }
}

/// An optional field in its file form: absence is written as emptiness.
pub open spec fn opt_chars(o: Option<Seq<char>>) -> Seq<char> {
    match o {
        Some(s) => s,
        None => Seq::empty(),
    }
}

/// One line of a playcount file: a track that was played, for how long, and
/// under which tags.
#[derive(Debug, PartialEq, Eq, Hash)]
pub struct Entry {
    /// The track that was played.
    pub track: Track,
    /// The playtime, in whole milliseconds. This is the only field allowed
    /// to vary across entries for the same track: the audio file may be
    /// edited (a silence trimmed) between listens.
    pub duration_ms: u64,
    /// Artist name.
    pub artist: String,
    /// Album artist name, if any.
    pub album_artist: Option<String>,
    /// Album title, if any.
    pub album: Option<String>,
    /// Track title.
    pub title: String,
}

impl View for Entry {
    type V = EntryView;

    open spec fn view(&self) -> EntryView {
        EntryView {
            path: self.track@,
            duration_ms: self.duration_ms as int,
            artist: self.artist@,
            album_artist: opt_view(self.album_artist),
            album: opt_view(self.album),
            title: self.title@,
        }
    }
}

/// A copy of an optional string.
fn clone_opt_string(o: &Option<String>) -> (r: Option<String>)
    ensures
        r == *o,
{
    match o {
        Some(s) => Some(s.clone()),
        None => None,
    }
}

impl Clone for Entry {
    fn clone(&self) -> (e: Self)
        ensures
            e == *self,
    {
        Entry {
            track: self.track.clone(),
            duration_ms: self.duration_ms,
            artist: self.artist.clone(),
            album_artist: clone_opt_string(&self.album_artist),
            album: clone_opt_string(&self.album),
            title: self.title.clone(),
        }
    }
}

/// The file form of one record: tab-separated duration (in decimal
/// seconds), artist, album artist, album, title and path, with the optional
/// fields written as emptiness.
pub open spec fn render_entry(e: EntryView) -> Seq<char> {
    render_ms(e.duration_ms) + seq!['\t'] + e.artist + seq!['\t'] + opt_chars(e.album_artist)
        + seq!['\t'] + opt_chars(e.album) + seq!['\t'] + e.title + seq!['\t'] + e.path
}

/// What one playcount line denotes: nothing unless it has exactly six
/// tab-separated fields and a well-formed duration; empty album fields
/// denote absence, and the path is stripped of a leading music-directory
/// prefix.
pub open spec fn parse_entry(line: Seq<char>, music_dir: Seq<char>) -> Option<EntryView> {
    let parts = split_all(line, '\t');
    if parts.len() != 6 {
        None
    } else {
        match parse_ms(parts[0]) {
            None => None,
            Some(ms) => Some(
                EntryView {
                    path: Track::normalized(parts[5], music_dir),
                    duration_ms: ms,
                    artist: parts[1],
                    album_artist: if parts[2].len() == 0 {
                        None
                    } else {
                        Some(parts[2])
                    },
                    album: if parts[3].len() == 0 {
                        None
                    } else {
                        Some(parts[3])
                    },
                    title: parts[4],
                },
            ),
        }
    }
}

impl Entry {
    /// Assembles a playcount record from its fields. Callers that only know
    /// the file's path obtain the duration and the tags from the metadata
    /// provider first.
    pub fn new(
        track: Track,
        duration_ms: u64,
        artist: String,
        album_artist: Option<String>,
        album: Option<String>,
        title: String,
    ) -> (e: Entry)
        ensures
            e@ == (EntryView {
                path: track@,
                duration_ms: duration_ms as int,
                artist: artist@,
                album_artist: opt_view(album_artist),
                album: opt_view(album),
                title: title@,
            }),
    {
        Entry { track, duration_ms, artist, album_artist, album, title }
    }

    /// The record as one line of the backing file.
    pub fn as_file_line(&self) -> (r: String)
        ensures
            r@ == render_entry(self@),
    {
        let mut out = format_ms(self.duration_ms);
        out.append("\t");
        out.append(self.artist.as_str());
        out.append("\t");
        match &self.album_artist {
            Some(s) => out.append(s.as_str()),
            None => {},
        }
        out.append("\t");
        match &self.album {
            Some(s) => out.append(s.as_str()),
            None => {},
        }
        out.append("\t");
        out.append(self.title.as_str());
        out.append("\t");
        out.append(self.track.path.as_str());
        proof {
            reveal_strlit("\t");
            assert("\t"@ =~= seq!['\t']);
            assert(out@ =~= render_entry(self@));
        }
        out
    }

    /// Reads a record from one line of a playcount file.
    pub fn from_line(line: &str, music_dir: &str) -> (r: Option<Entry>)
        ensures
            match r {
                Some(e) => parse_entry(line@, music_dir@) == Some(e@),
                None => parse_entry(line@, music_dir@) == None::<EntryView>,
            },
    {
        let parts = split_string(line, '\t');
        if parts.len() != 6 {
            return None;
        }
        let ms = match parse_ms_str(parts[0].as_str()) {
            Some(v) => v,
            None => {
                return None;
            },
        };
        let album_artist: Option<String> = if parts[2].as_str().unicode_len() == 0 {
            None
        } else {
            Some(parts[2].clone())
        };
        let album: Option<String> = if parts[3].as_str().unicode_len() == 0 {
            None
        } else {
            Some(parts[3].clone())
        };
        let e = Entry {
            track: Track::new(parts[5].as_str(), music_dir),
            duration_ms: ms,
            artist: parts[1].clone(),
            album_artist,
            album,
            title: parts[4].clone(),
        };
        Some(e)
    }

    /// The directory of the track's path: the album's directory, under the
    /// usual artist/album/track layout.
    pub fn album_path(&self) -> (r: String)
        ensures
            r@ == (match self.track@.index_of_last('/') {
                Some(i) => self.track@.take(i),
                None => Seq::<char>::empty(),
            }),
    {
        match find_last_char(self.track.path.as_str(), '/') {
            Some(i) => {
                proof {
                    self.track@.index_of_last_ensures('/');
                }
                let sub = self.track.path.as_str().substring_char(0, i);
                proof {
                    assert(sub@ =~= self.track@.take(i as int));
                }
                sub.to_owned()
            },
            None => {
                let r = String::new();
                proof {
                    assert(r@ =~= Seq::<char>::empty());
                }
                r
            },
        }
    }
}

} // verus!
