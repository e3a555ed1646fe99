use vstd::prelude::*;
use crate::strutil::str_has_prefix;

verus! {

/// The views of a sequence of tracks.
pub open spec fn track_views(v: Seq<Track>) -> Seq<Seq<char>> {
    v.map_values(|t: Track| t@)
}

/// A track in a playlist or playcount file.
///
/// The struct only holds the path of the audio file, relative to the music
/// directory, for unique identification; it is cheap to clone and to compare.
/// Richer information (tags, durations) lives elsewhere.
#[derive(Debug, PartialEq, Eq, Hash)]
pub struct Track {
    /// The path to the audio file, relative to the music directory.
    pub path: String,
}

impl View for Track {
    type V = Seq<char>;

    open spec fn view(&self) -> Seq<char> {
        self.path@
    }
}

impl Clone for Track {
    fn clone(&self) -> (t: Self)
        ensures
            t == *self,
    {
        Track { path: self.path.clone() }
    }
}

impl Track {
    /// `fpath` with a leading `<music_dir>/` stripped, if it begins with one;
    /// a path equal to the music directory itself becomes empty.
    pub open spec fn normalized(fpath: Seq<char>, music_dir: Seq<char>) -> Seq<char> {
        if music_dir.len() > 0 && fpath == music_dir {
            Seq::empty()
        } else if music_dir.len() > 0 && fpath.len() > music_dir.len()
            && music_dir.is_prefix_of(fpath) && fpath[music_dir.len() as int] == '/' {
            fpath.skip(music_dir.len() as int + 1)
        } else {
            fpath
        }
    }

    /// If `fpath` begins with `music_dir`, the prefix is truncated, leaving a
    /// path relative to the music directory.
    pub fn new(fpath: &str, music_dir: &str) -> (t: Track)
        ensures
            t@ == Self::normalized(fpath@, music_dir@),
    {
        let flen = fpath.unicode_len();
        let plen = music_dir.unicode_len();
        if plen > 0 && flen == plen && str_has_prefix(fpath, music_dir) {
            proof {
                assert(fpath@ =~= music_dir@);
            }
            Track { path: String::new() }
        } else if plen > 0 && flen > plen && str_has_prefix(fpath, music_dir)
            && fpath.get_char(plen) == '/' {
            let rest = fpath.substring_char(plen + 1, flen);
            proof {
                assert(rest@ =~= fpath@.skip(music_dir@.len() as int + 1));
            }
            Track { path: rest.to_owned() }
        } else {
            proof {
                if fpath@ == music_dir@ {
                    assert(music_dir@.is_prefix_of(fpath@)) by {
                        assert(music_dir@ =~= fpath@.subrange(0, music_dir@.len() as int));
                    }
                }
            }
            Track { path: fpath.to_owned() }
        }
    }

    /// Whether the two tracks identify the same audio file.
    pub fn same_as(&self, other: &Track) -> (r: bool)
        ensures
            r == (self@ == other@),
    {
        self.path == other.path
    }
}

} // verus!
