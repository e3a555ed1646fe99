use vstd::prelude::*;
use crate::error::Error;
use crate::index::{occurrences, pos_ints, all_below, lemma_occurrences, lemma_occurrences_push,
    lemma_occurrences_remove, PositionIndex};
use crate::seqs::{id_key, lemma_keys_of_id, dedup_first, dup_positions, remove_desc, remove_key,
    lemma_ascending_gap, lemma_remove_desc_occurrences,
    lemma_remove_desc_dedup, lemma_dup_positions_props, lemma_prefix_contains_iff_first,
    rename_of, renamed_count, lemma_rename_of_push, lemma_rename_of_present,
    lemma_renamed_count_bound, lemma_renamed_count_empty, lemma_renamed_count_push_edit};
use crate::strutil::{spec_file_name, spec_stem, file_name_part, stem_part, str_has_prefix,
    copy_positions};
use crate::track::Track;

verus! {

/// The tracks left when only the first occurrence of each is kept.
pub open spec fn deduped(s: Seq<Seq<char>>) -> Seq<Seq<char>> {
    dedup_first(s, id_key())
}

/// The positions of tracks that repeat an earlier one.
pub open spec fn duplicates(s: Seq<Seq<char>>) -> Seq<int> {
    dup_positions(s, id_key())
}

/// The tracks left when every occurrence of `k` is removed.
pub open spec fn without_track(s: Seq<Seq<char>>, k: Seq<char>) -> Seq<Seq<char>> {
    remove_key(s, id_key(), k)
}

/// What a track key becomes under a set of edits: the new path of the first
/// edit carrying it, or the key itself when no edit does.
pub open spec fn renamed_track(edits: Seq<(Track, String)>, k: Seq<char>) -> Seq<char> {
    match rename_of(edits, k) {
        Some(p) => p@,
        None => k,
    }
}

/// The file form of a playlist: each track's path on its own line.
pub open spec fn render_playlist(s: Seq<Seq<char>>) -> Seq<char>
    decreases s.len(),
{
    if s.len() == 0 {
        Seq::empty()
    } else {
        render_playlist(s.drop_last()) + s.last() + seq!['\n']
    }
}

/// What a playlist file's text denotes: one track per line, each stripped of
/// a leading music-directory prefix; a file holding a single empty line
/// denotes an empty playlist, not one empty-path track.
pub open spec fn parse_playlist(content: Seq<char>, music_dir: Seq<char>) -> Seq<Seq<char>> {
    let raw = crate::strutil::split_lines(content).map_values(
        |l: Seq<char>| Track::normalized(l, music_dir),
    );
    if raw.len() == 1 && raw[0].len() == 0 {
        Seq::empty()
    } else {
        raw
    }
}

/// A playlist name with this prefix marks a listening history, where
/// repeated tracks are meaningful.
pub open spec fn spec_is_history(name: Seq<char>) -> bool {
    "hist."@.is_prefix_of(name)
}

/// An ordered list of tracks backed by one playlist file, together with the
/// index that maps each distinct track to the ascending positions it
/// occupies.
#[derive(Debug)]
pub struct Playlist {
    /// The path of the backing file.
    pub path: String,
    /// The playlist name: the stem of the backing file's name.
    pub name: String,
    /// The tracks, in file order.
    pub tracks: Vec<Track>,
    /// Cached index over `tracks`, to avoid linear search.
    pub tracks_map: PositionIndex,
    /// Whether the playlist changed since the last successful write.
    pub is_modified: bool,
}

impl View for Playlist {
    type V = Seq<Seq<char>>;

    /// The playlist's mathematical content: its track paths, in order.
    open spec fn view(&self) -> Seq<Seq<char>> {
        self.tracks@.map_values(|t: Track| t@)
    }
}

impl Playlist {
    /// The index never diverges from the sequence it indexes: for every
    /// track, it records exactly the ascending positions at which that track
    /// stands in the sequence.
    pub open spec fn wf(self) -> bool {
        &&& self.tracks_map.wf()
        &&& self.tracks_map.bounded(self@.len() as int)
        &&& forall|k: Seq<char>| #[trigger] self.tracks_map.lookup(k) == occurrences(self@, k)
    }

    pub open spec fn spec_path(self) -> Seq<char> {
        self.path@
    }

    pub open spec fn spec_name(self) -> Seq<char> {
        self.name@
    }

    pub open spec fn spec_modified(self) -> bool {
        self.is_modified
    }

    /// Everything of the playlist but its content and dirty flag.
    pub open spec fn same_backing(self, other: Self) -> bool {
        self.path@ == other.path@ && self.name@ == other.name@
    }

    /// Constructs an empty playlist tied to `path`, not yet backed by a
    /// file; the name is the stem of the path's file name. Fails exactly
    /// when the path has no file name.
    pub fn new(path: String) -> (r: Result<Playlist, Error>)
        ensures
            match r {
                Ok(pl) => {
                    &&& spec_file_name(path@).len() > 0
                    &&& pl.wf()
                    &&& pl@ == Seq::<Seq<char>>::empty()
                    &&& pl.spec_path() == path@
                    &&& pl.spec_name() == spec_stem(spec_file_name(path@))
                    &&& !pl.spec_modified()
                },
                Err(e) => e == Error::MissingFileName && spec_file_name(path@).len() == 0,
            },
    {
        let fname = file_name_part(path.as_str());
        if fname.as_str().unicode_len() == 0 {
            return Err(Error::MissingFileName);
        }
        let name = stem_part(fname.as_str());
        let pl = Playlist {
            path,
            name,
            tracks: Vec::new(),
            tracks_map: PositionIndex::empty(),
            is_modified: false,
        };
        proof {
            assert(pl@ =~= Seq::<Seq<char>>::empty());
            assert forall|k: Seq<char>| #[trigger] pl.tracks_map.lookup(k)
                == occurrences(pl@, k) by {
                assert(occurrences(pl@, k) == Seq::<int>::empty());
            }
        }
        Ok(pl)
    }

    /// The number of tracks.
    pub fn len(&self) -> (n: usize)
        ensures
            n == self@.len(),
    {
        self.tracks.len()
    }

    /// Whether the playlist holds no track.
    pub fn is_empty(&self) -> (r: bool)
        ensures
            r == (self@.len() == 0),
    {
        self.tracks.is_empty()
    }

    /// The path of the backing file.
    pub fn path(&self) -> (r: &String)
        ensures
            r@ == self.spec_path(),
    {
        &self.path
    }

    /// The playlist name.
    pub fn name(&self) -> (r: &String)
        ensures
            r@ == self.spec_name(),
    {
        &self.name
    }

    /// Whether the playlist changed since the last write.
    pub fn is_modified(&self) -> (r: bool)
        ensures
            r == self.spec_modified(),
    {
        self.is_modified
    }

    /// Records that the current content has been persisted: the dirty flag
    /// clears and nothing else moves. Callers invoke this after writing the
    /// rendered playlist to its backing file.
    pub fn mark_saved(&mut self)
        ensures
            final(self)@ == old(self)@,
            final(self).wf() == old(self).wf(),
            final(self).same_backing(*old(self)),
            !final(self).spec_modified(),
    {
        self.is_modified = false;
    }

    /// Whether the playlist is named as a listening history, which exempts
    /// it from duplicate removal.
    pub fn is_history(&self) -> (r: bool)
        ensures
            r == spec_is_history(self.spec_name()),
    {
        str_has_prefix(self.name.as_str(), "hist.")
    }

    /// The tracks, in order of appearance; tracks can repeat.
    pub fn tracks(&self) -> (r: &Vec<Track>)
        ensures
            r@.len() == self@.len(),
            forall|i: int| 0 <= i < r@.len() ==> #[trigger] r@[i]@ == self@[i],
    {
        &self.tracks
    }

    /// Each distinct track, once.
    pub fn tracks_unique(&self) -> (r: Vec<Track>)
        requires
            self.wf(),
        ensures
            forall|i: int, j: int| 0 <= i < j < r@.len() ==> r@[i]@ != r@[j]@,
            forall|i: int| 0 <= i < r@.len()
                ==> occurrences(self@, #[trigger] r@[i]@).len() > 0,
            forall|k: Seq<char>| occurrences(self@, k).len() > 0
                ==> exists|i: int| 0 <= i < r@.len() && #[trigger] r@[i]@ == k,
    {
        let n = self.tracks_map.entries.len();
        let mut r: Vec<Track> = Vec::new();
        let mut i: usize = 0;
        while i < n
            invariant
                0 <= i <= n,
                n == self.tracks_map.entries@.len(),
                self.wf(),
                r@.len() == i,
                forall|j: int| 0 <= j < i
                    ==> #[trigger] r@[j]@ == self.tracks_map.entries@[j].track@,
            decreases n - i,
        {
            r.push(self.tracks_map.entries[i].track.clone());
            i = i + 1;
        }
        proof {
            assert forall|i0: int| 0 <= i0 < r@.len()
                implies occurrences(self@, #[trigger] r@[i0]@).len() > 0 by {
                crate::index::lemma_lookup_found(self.tracks_map.entries@, i0, r@[i0]@);
                assert(self.tracks_map.lookup(r@[i0]@)
                    == pos_ints(self.tracks_map.entries@[i0].positions@));
                assert(pos_ints(self.tracks_map.entries@[i0].positions@).len() > 0);
                assert(self.tracks_map.lookup(r@[i0]@) == occurrences(self@, r@[i0]@));
            }
            assert forall|k: Seq<char>| occurrences(self@, k).len() > 0
                implies exists|i0: int| 0 <= i0 < r@.len() && #[trigger] r@[i0]@ == k by {
                if forall|j: int| 0 <= j < self.tracks_map.entries@.len()
                    ==> #[trigger] self.tracks_map.entries@[j].track@ != k {
                    crate::index::lemma_lookup_absent(self.tracks_map.entries@, k);
                    assert(self.tracks_map.lookup(k) == occurrences(self@, k));
                } else {
                    let j = choose|j: int| 0 <= j < self.tracks_map.entries@.len()
                        && self.tracks_map.entries@[j].track@ == k;
                    assert(r@[j]@ == k);
                }
            }
        }
        r
    }

    /// Whether `track` appears in the playlist.
    pub fn contains(&self, track: &Track) -> (r: bool)
        requires
            self.wf(),
        ensures
            r == (occurrences(self@, track@).len() > 0),
    {
        self.tracks_map.contains_key(track)
    }

    /// The ascending positions at which `track` occurs, or nothing when it
    /// does not occur at all.
    pub fn track_positions<'a>(&'a self, track: &Track) -> (r: Option<&'a Vec<usize>>)
        requires
            self.wf(),
        ensures
            match r {
                Some(v) => pos_ints(v@) == occurrences(self@, track@) && v@.len() > 0,
                None => occurrences(self@, track@).len() == 0,
            },
    {
        self.tracks_map.positions_of(track)
    }

    /// Appends a track at the end of the playlist.
    pub fn push(&mut self, track: Track)
        requires
            old(self).wf(),
        ensures
            final(self).wf(),
            final(self)@ == old(self)@.push(track@),
            final(self).same_backing(*old(self)),
            final(self).spec_modified(),
    {
        let pos = self.tracks.len();
        self.tracks_map.insert_at_end(&track, pos);
        self.tracks.push(track);
        self.is_modified = true;
        proof {
            let ghost t0 = old(self)@;
            assert(self@ =~= t0.push(self@[t0.len() as int]));
            assert forall|k: Seq<char>| #[trigger] self.tracks_map.lookup(k)
                == occurrences(self@, k) by {
                lemma_occurrences_push(t0, self@[t0.len() as int], k);
            }
        }
    }

    /// Removes the track at `index`. An out-of-range request is ignored.
    pub fn remove_at(&mut self, index: usize)
        requires
            old(self).wf(),
        ensures
            final(self).wf(),
            final(self).same_backing(*old(self)),
            index < old(self)@.len() ==> final(self)@ == old(self)@.remove(index as int)
                && final(self).spec_modified(),
            index >= old(self)@.len() ==> *final(self) == *old(self),
    {
        if index >= self.tracks.len() {
            return;
        }
        let track = self.tracks[index].clone();
        proof {
            let ghost t0 = self@;
            lemma_occurrences(t0, track@);
            assert(occurrences(t0, track@).contains(index as int)) by {
                assert(t0[index as int] == track@);
            }
            assert forall|k: Seq<char>| k != track@
                implies !(#[trigger] self.tracks_map.lookup(k)).contains(index as int) by {
                lemma_occurrences(t0, k);
                if occurrences(t0, k).contains(index as int) {
                    let w = choose|w: int| 0 <= w < occurrences(t0, k).len()
                        && occurrences(t0, k)[w] == index as int;
                    assert(t0[occurrences(t0, k)[w]] == k);
                }
            }
        }
        self.tracks_map.remove(&track, index);
        self.tracks.remove(index);
        self.is_modified = true;
        proof {
            let ghost t0 = old(self)@;
            assert(self@ =~= t0.remove(index as int));
            assert forall|k: Seq<char>| #[trigger] self.tracks_map.lookup(k)
                == occurrences(self@, k) by {
                lemma_occurrences_remove(t0, k, index as int);
            }
            assert(self.tracks_map.bounded(self@.len() as int)) by {
                assert(old(self).tracks_map.bounded(t0.len() as int));
            }
        }
    }

    /// The playlist in its file form, ready to overwrite the backing file.
    /// The text depends on the track sequence alone, so writing twice with
    /// no mutation in between produces identical bytes.
    pub fn render(&self) -> (r: String)
        ensures
            r@ == render_playlist(self@),
    {
        let mut out = String::new();
        let n = self.tracks.len();
        let mut i: usize = 0;
        proof {
            assert(self@.take(0) =~= Seq::<Seq<char>>::empty());
        }
        while i < n
            invariant
                0 <= i <= n,
                n == self@.len(),
                out@ == render_playlist(self@.take(i as int)),
            decreases n - i,
        {
            out.append(self.tracks[i].path.as_str());
            out.append("\n");
            proof {
                reveal_strlit("\n");
                assert(self@.take(i as int + 1).drop_last() =~= self@.take(i as int));
                assert(self@.take(i as int + 1).last() == self@[i as int]);
                assert("\n"@ =~= seq!['\n']);
                assert(out@ =~= render_playlist(self@.take(i as int + 1)));
            }
            i = i + 1;
        }
        proof {
            assert(self@.take(n as int) =~= self@);
        }
        out
    }

    /// Builds a playlist from the text of its backing file. Fails exactly
    /// when the path has no file name; the content itself cannot fail.
    pub fn from_content(path: String, content: &str, music_dir: &str) -> (r: Result<Playlist, Error>)
        ensures
            match r {
                Ok(pl) => {
                    &&& spec_file_name(path@).len() > 0
                    &&& pl.wf()
                    &&& pl@ == parse_playlist(content@, music_dir@)
                    &&& pl.spec_path() == path@
                    &&& pl.spec_name() == spec_stem(spec_file_name(path@))
                    &&& !pl.spec_modified()
                },
                Err(e) => e == Error::MissingFileName && spec_file_name(path@).len() == 0,
            },
    {
        let ghost path_view = path@;
        let mut pl = match Self::new(path) {
            Ok(p) => p,
            Err(e) => {
                return Err(e);
            },
        };
        let lines = crate::strutil::split_lines_vec(content);
        let n = lines.len();
        let ghost raw = crate::strutil::split_lines(content@).map_values(
            |l: Seq<char>| Track::normalized(l, music_dir@),
        );
        let mut i: usize = 0;
        proof {
            assert(pl@ =~= raw.take(0));
        }
        while i < n
            invariant
                0 <= i <= n,
                n == lines@.len(),
                crate::strutil::str_views(lines@) == crate::strutil::split_lines(content@),
                raw == crate::strutil::split_lines(content@).map_values(
                    |l: Seq<char>| Track::normalized(l, music_dir@),
                ),
                raw.len() == n,
                pl.wf(),
                pl@ == raw.take(i as int),
                pl.path@ == path_view,
                pl.name@ == spec_stem(spec_file_name(path_view)),
            decreases n - i,
        {
            let t = Track::new(lines[i].as_str(), music_dir);
            pl.push(t);
            proof {
                assert(raw[i as int]
                    == Track::normalized(crate::strutil::str_views(lines@)[i as int], music_dir@));
                assert(raw.take(i as int).push(raw[i as int]) =~= raw.take(i as int + 1));
            }
            i = i + 1;
        }
        proof {
            assert(raw.take(n as int) =~= raw);
        }
        if pl.tracks.len() == 1 && pl.tracks[0].path.as_str().unicode_len() == 0 {
            pl.tracks = Vec::new();
            pl.tracks_map = PositionIndex::empty();
            proof {
                assert(pl@ =~= Seq::<Seq<char>>::empty());
                assert forall|k: Seq<char>| #[trigger] pl.tracks_map.lookup(k)
                    == occurrences(pl@, k) by {
                    assert(occurrences(pl@, k) == Seq::<int>::empty());
                }
            }
        }
        pl.is_modified = false;
        proof {
            let praw = crate::strutil::split_lines(content@).map_values(
                |l: Seq<char>| Track::normalized(l, music_dir@),
            );
            assert(praw =~= raw);
            assert(pl@ == parse_playlist(content@, music_dir@));
        }
        Ok(pl)
    }

    /// Removes the tracks at the given ascending positions, highest first,
    /// so that no removal disturbs the positions still to be removed.
    fn remove_positions_desc(&mut self, ps: &Vec<usize>)
        requires
            old(self).wf(),
            crate::index::ascending(pos_ints(ps@)),
            all_below(pos_ints(ps@), old(self)@.len() as int),
        ensures
            final(self).wf(),
            final(self).same_backing(*old(self)),
            final(self)@ == remove_desc(old(self)@, pos_ints(ps@)),
            ps@.len() > 0 ==> final(self).spec_modified(),
            ps@.len() == 0 ==> *final(self) == *old(self),
    {
        let m = ps.len();
        let ghost orig = self@;
        let ghost pints = pos_ints(ps@);
        proof {
            assert(pints.take(m as int) =~= pints);
        }
        let mut j: usize = m;
        while j > 0
            invariant
                0 <= j <= m,
                m == ps@.len(),
                pints == pos_ints(ps@),
                crate::index::ascending(pints),
                all_below(pints, orig.len() as int),
                self.wf(),
                self.same_backing(*old(self)),
                orig == old(self)@,
                self@.len() == orig.len() - (m - j),
                remove_desc(self@, pints.take(j as int)) == remove_desc(orig, pints),
                j < m ==> self.spec_modified(),
                j == m ==> *self == *old(self),
            decreases j,
        {
            proof {
                lemma_ascending_gap(pints, j - 1);
            }
            let p = ps[j - 1];
            let ghost pre = self@;
            self.remove_at(p);
            proof {
                assert(pints.take(j as int).last() == pints[j as int - 1]);
                assert(pints.take(j as int).drop_last() =~= pints.take(j as int - 1));
                assert(remove_desc(pre, pints.take(j as int))
                    == remove_desc(pre.remove(pints[j as int - 1]), pints.take(j as int - 1)));
            }
            j = j - 1;
        }
        proof {
            assert(pints.take(0) =~= Seq::<int>::empty());
        }
    }

    /// Removes the highest-positioned occurrence of `track`; reports whether
    /// one existed.
    pub fn remove_last(&mut self, track: &Track) -> (r: bool)
        requires
            old(self).wf(),
        ensures
            final(self).wf(),
            final(self).same_backing(*old(self)),
            r == (occurrences(old(self)@, track@).len() > 0),
            r ==> final(self)@
                == old(self)@.remove(occurrences(old(self)@, track@).last())
                && final(self).spec_modified(),
            !r ==> *final(self) == *old(self),
    {
        let last: usize = match self.tracks_map.positions_of(track) {
            None => {
                return false;
            },
            Some(v) => v[v.len() - 1],
        };
        proof {
            lemma_occurrences(old(self)@, track@);
            let occ = occurrences(old(self)@, track@);
            assert(last as int == occ[occ.len() - 1]);
        }
        self.remove_at(last);
        true
    }

    /// Removes every occurrence of `track`; returns how many there were.
    pub fn remove_all(&mut self, track: &Track) -> (r: usize)
        requires
            old(self).wf(),
        ensures
            final(self).wf(),
            final(self).same_backing(*old(self)),
            r == occurrences(old(self)@, track@).len(),
            final(self)@ == without_track(old(self)@, track@),
            r > 0 ==> final(self).spec_modified(),
            r == 0 ==> *final(self) == *old(self),
    {
        let ps: Vec<usize> = match self.tracks_map.positions_of(track) {
            None => Vec::new(),
            Some(v) => copy_positions(v),
        };
        proof {
            assert(pos_ints(ps@) =~= occurrences(old(self)@, track@));
            lemma_occurrences(old(self)@, track@);
            lemma_keys_of_id(old(self)@);
            lemma_remove_desc_occurrences(old(self)@, id_key(), track@);
        }
        let n = ps.len();
        self.remove_positions_desc(&ps);
        n
    }

    /// The ascending positions of the tracks that repeat an earlier one.
    fn duplicate_positions(&self) -> (r: Vec<usize>)
        requires
            self.wf(),
        ensures
            pos_ints(r@) == duplicates(self@),
    {
        let n = self.tracks.len();
        let mut dups: Vec<usize> = Vec::new();
        let mut i: usize = 0;
        proof {
            assert(pos_ints(dups@) =~= dup_positions(self@.take(0), id_key()));
        }
        while i < n
            invariant
                0 <= i <= n,
                n == self@.len(),
                self.wf(),
                pos_ints(dups@) == dup_positions(self@.take(i as int), id_key()),
            decreases n - i,
        {
            let first: usize = match self.tracks_map.positions_of(&self.tracks[i]) {
                Some(v) => v[0],
                None => {
                    proof {
                        lemma_occurrences(self@, self@[i as int]);
                        assert(occurrences(self@, self@[i as int]).contains(i as int));
                    }
                    unreached()
                },
            };
            let ghost pre = pos_ints(dups@);
            let is_dup = first != i;
            if is_dup {
                dups.push(i);
            }
            proof {
                let t = self@;
                lemma_prefix_contains_iff_first(t, i as int);
                assert(first as int == occurrences(t, t[i as int]).first());
                let stepped = t.take(i as int + 1);
                assert(stepped.drop_last() =~= t.take(i as int));
                assert(stepped.last() == t[i as int]);
                lemma_keys_of_id(t.take(i as int));
                if is_dup {
                    assert(pos_ints(dups@) =~= pre.push(i as int));
                } else {
                    assert(pos_ints(dups@) =~= pre);
                }
            }
            i = i + 1;
        }
        proof {
            assert(self@.take(n as int) =~= self@);
        }
        dups
    }

    /// Counts the duplicate occurrences without mutating anything: exactly
    /// the number a subsequent `remove_duplicates` on a non-history playlist
    /// would remove.
    pub fn count_duplicates(&self) -> (r: usize)
        requires
            self.wf(),
        ensures
            r == duplicates(self@).len(),
    {
        let dups = self.duplicate_positions();
        dups.len()
    }

    /// Removes every duplicate occurrence, keeping only the first of each
    /// track; returns the number removed. A playlist named as a listening
    /// history is exempt and left untouched.
    pub fn remove_duplicates(&mut self) -> (r: usize)
        requires
            old(self).wf(),
        ensures
            final(self).wf(),
            final(self).same_backing(*old(self)),
            spec_is_history(old(self).spec_name()) ==> *final(self) == *old(self) && r == 0,
            !spec_is_history(old(self).spec_name()) ==> {
                &&& final(self)@ == deduped(old(self)@)
                &&& r == duplicates(old(self)@).len()
                &&& (r > 0 ==> final(self).spec_modified())
                &&& (r == 0 ==> *final(self) == *old(self))
            },
    {
        if self.is_history() {
            return 0;
        }
        let dups = self.duplicate_positions();
        proof {
            lemma_dup_positions_props(old(self)@, id_key());
            lemma_remove_desc_dedup(old(self)@, id_key());
        }
        let r = dups.len();
        self.remove_positions_desc(&dups);
        r
    }

    /// Applies every edit whose old track occurs: each of its occurrences
    /// takes the edit's new path. The edits carry distinct old tracks, and
    /// every new path is fixed before any track changes, so chained pairs do
    /// not compound and swapped pairs do not collide. Returns the number of
    /// occurrences changed.
    pub fn bulk_rename(&mut self, edits: &Vec<(Track, String)>) -> (r: usize)
        requires
            old(self).wf(),
            forall|i: int, j: int| 0 <= i < j < edits@.len()
                ==> (#[trigger] edits@[i]).0@ != (#[trigger] edits@[j]).0@,
        ensures
            final(self).wf(),
            final(self).same_backing(*old(self)),
            final(self)@.len() == old(self)@.len(),
            forall|i: int| 0 <= i < old(self)@.len()
                ==> #[trigger] final(self)@[i] == renamed_track(edits@, old(self)@[i]),
            r == renamed_count(old(self)@, edits@),
            r > 0 ==> final(self).spec_modified(),
            r == 0 ==> final(self).spec_modified() == old(self).spec_modified(),
    {
        let ghost orig = self@;
        let n_tracks = self.tracks.len();
        let m = edits.len();
        let mut n_changed: usize = 0;
        let mut e: usize = 0;
        proof {
            assert(orig.len() == n_tracks as int);
            lemma_renamed_count_empty(orig, edits@.take(0));
        }
        while e < m
            invariant
                0 <= e <= m,
                m == edits@.len(),
                forall|i: int, j: int| 0 <= i < j < edits@.len()
                    ==> (#[trigger] edits@[i]).0@ != (#[trigger] edits@[j]).0@,
                orig == old(self)@,
                orig.len() == n_tracks as int,
                old(self).wf(),
                self.tracks_map == old(self).tracks_map,
                self.same_backing(*old(self)),
                self.is_modified == old(self).is_modified,
                self@.len() == orig.len(),
                forall|i: int| 0 <= i < orig.len()
                    ==> #[trigger] self@[i] == renamed_track(edits@.take(e as int), orig[i]),
                n_changed == renamed_count(orig, edits@.take(e as int)),
            decreases m - e,
        {
            let ghost pre_edits = edits@.take(e as int);
            let ghost ed = edits@[e as int];
            proof {
                assert(edits@.take(e as int + 1) =~= pre_edits.push(ed));
                assert(forall|j: int| 0 <= j < pre_edits.len()
                    ==> (#[trigger] pre_edits[j]).0@ != ed.0@);
                lemma_renamed_count_push_edit(orig, pre_edits, ed);
                lemma_renamed_count_bound(orig, pre_edits.push(ed));
                lemma_occurrences(orig, ed.0@);
            }
            let popt = self.tracks_map.positions_of(&edits[e].0);
            match popt {
                None => {
                    proof {
                        let ghost occ = occurrences(orig, ed.0@);
                        assert(occ.len() == 0);
                        assert forall|i: int| 0 <= i < orig.len()
                            implies #[trigger] self@[i]
                                == renamed_track(pre_edits.push(ed), orig[i]) by {
                            lemma_rename_of_push(pre_edits, ed, orig[i]);
                            if rename_of(pre_edits, orig[i]).is_none() && ed.0@ == orig[i] {
                                assert(occ.contains(i));
                            }
                        }
                    }
                },
                Some(v) => {
                    let ps = copy_positions(v);
                    proof {
                        assert(pos_ints(ps@) == occurrences(orig, ed.0@));
                    }
                    let ghost mid = self@;
                    let mlen = ps.len();
                    let mut b: usize = 0;
                    while b < mlen
                        invariant
                            0 <= b <= mlen,
                            mlen == ps@.len(),
                            pos_ints(ps@) == occurrences(orig, edits@[e as int].0@),
                            orig == old(self)@,
                            e < m,
                            m == edits@.len(),
                            all_below(pos_ints(ps@), orig.len() as int),
                            self.tracks_map == old(self).tracks_map,
                            self.same_backing(*old(self)),
                            self.is_modified == old(self).is_modified,
                            self@.len() == orig.len(),
                            mid.len() == orig.len(),
                            forall|i: int| 0 <= i < orig.len()
                                ==> #[trigger] self@[i] == if pos_ints(ps@).take(b as int).contains(i) {
                                    edits@[e as int].1@
                                } else {
                                    mid[i]
                                },
                        decreases mlen - b,
                    {
                        let pos = ps[b];
                        proof {
                            assert(pos_ints(ps@)[b as int] == pos as int);
                        }
                        let ghost before = self@;
                        let newt = Track { path: edits[e].1.clone() };
                        self.tracks.set(pos, newt);
                        proof {
                            assert(self@ =~= before.update(pos as int, edits@[e as int].1@));
                            assert(pos_ints(ps@).take(b as int + 1)
                                =~= pos_ints(ps@).take(b as int).push(pos as int));
                            assert forall|i: int| 0 <= i < orig.len()
                                implies #[trigger] self@[i]
                                    == if pos_ints(ps@).take(b as int + 1).contains(i) {
                                    edits@[e as int].1@
                                } else {
                                    mid[i]
                                } by {
                                let tk = pos_ints(ps@).take(b as int);
                                assert(before[i] == if tk.contains(i) {
                                    edits@[e as int].1@
                                } else {
                                    mid[i]
                                });
                                if i == pos as int {
                                    assert(tk.push(pos as int).contains(i)) by {
                                        assert(tk.push(pos as int).last() == i);
                                    }
                                } else {
                                    assert(tk.push(pos as int).contains(i) <==> tk.contains(i)) by {
                                        if tk.push(pos as int).contains(i) {
                                            let w = choose|w: int| 0 <= w < tk.push(pos as int).len()
                                                && tk.push(pos as int)[w] == i;
                                            if w < tk.len() {
                                                assert(tk[w] == i);
                                            }
                                        }
                                        if tk.contains(i) {
                                            let w = choose|w: int| 0 <= w < tk.len() && tk[w] == i;
                                            assert(tk.push(pos as int)[w] == i);
                                        }
                                    }
                                }
                            }
                        }
                        b = b + 1;
                    }
                    n_changed = n_changed + mlen;
                    proof {
                        let ghost occ = occurrences(orig, ed.0@);
                        assert(pos_ints(ps@).take(mlen as int) =~= occ);
                        assert forall|i: int| 0 <= i < orig.len()
                            implies #[trigger] self@[i]
                                == renamed_track(pre_edits.push(ed), orig[i]) by {
                            lemma_rename_of_push(pre_edits, ed, orig[i]);
                            assert(occ.contains(i) <==> orig[i] == ed.0@) by {
                                if occ.contains(i) {
                                    let w = choose|w: int| 0 <= w < occ.len() && occ[w] == i;
                                    assert(orig[occ[w]] == ed.0@);
                                }
                            }
                            if orig[i] == ed.0@ {
                                assert(rename_of(pre_edits, orig[i]).is_none()) by {
                                    lemma_rename_of_present(pre_edits, orig[i]);
                                    if exists|j: int| 0 <= j < pre_edits.len()
                                        && (#[trigger] pre_edits[j]).0@ == orig[i] {
                                        let j = choose|j: int| 0 <= j < pre_edits.len()
                                            && (#[trigger] pre_edits[j]).0@ == orig[i];
                                        assert(edits@[j].0@ == edits@[e as int].0@);
                                    }
                                }
                                assert(mid[i] == renamed_track(pre_edits, orig[i]));
                                assert(mid[i] == orig[i]);
                            }
                        }
                    }
                },
            }
            e = e + 1;
        }
        proof {
            assert(edits@.take(m as int) =~= edits@);
        }
        self.rebuild_tracks_map();
        if n_changed > 0 {
            self.is_modified = true;
        }
        n_changed
    }

    /// Clears the index and rebuilds it from the track sequence; used after
    /// bulk edits, where incremental maintenance would be error-prone.
    fn rebuild_tracks_map(&mut self)
        ensures
            final(self).wf(),
            final(self)@ == old(self)@,
            final(self).tracks@ == old(self).tracks@,
            final(self).same_backing(*old(self)),
            final(self).spec_modified() == old(self).spec_modified(),
    {
        self.tracks_map = PositionIndex::empty();
        let n = self.tracks.len();
        let mut i: usize = 0;
        proof {
            assert forall|k: Seq<char>| #[trigger] self.tracks_map.lookup(k)
                == occurrences(self@.take(0), k) by {
                assert(occurrences(self@.take(0), k) == Seq::<int>::empty());
            }
        }
        while i < n
            invariant
                0 <= i <= n,
                n == self.tracks@.len(),
                self.tracks@ == old(self).tracks@,
                self.path@ == old(self).path@,
                self.name@ == old(self).name@,
                self.is_modified == old(self).is_modified,
                self.tracks_map.wf(),
                self.tracks_map.bounded(i as int),
                forall|k: Seq<char>| #[trigger] self.tracks_map.lookup(k)
                    == occurrences(self@.take(i as int), k),
            decreases n - i,
        {
            self.tracks_map.insert_at_end(&self.tracks[i], i);
            proof {
                let ghost t = self@;
                assert(t.take(i as int).push(t[i as int]) =~= t.take(i as int + 1));
                assert forall|k: Seq<char>| #[trigger] self.tracks_map.lookup(k)
                    == occurrences(t.take(i as int + 1), k) by {
                    lemma_occurrences_push(t.take(i as int), t[i as int], k);
                }
            }
            i = i + 1;
        }
        proof {
            assert(self@.take(n as int) =~= self@);
        }
    }
}

} // verus!
