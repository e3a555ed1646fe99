use vstd::prelude::*;
use crate::entry::{Entry, EntryView, parse_entry, render_entry};
use crate::error::Error;
use crate::index::{occurrences, pos_ints, all_below, lemma_occurrences, lemma_occurrences_push,
    lemma_occurrences_remove, PositionIndex};
use crate::seqs::{keys_of, dedup_first, dup_positions, remove_desc, remove_key,
    lemma_ascending_gap, lemma_remove_desc_occurrences, lemma_remove_desc_dedup,
    lemma_dup_positions_props, lemma_prefix_contains_iff_first, rename_of, renamed_count,
    lemma_rename_of_push, lemma_rename_of_present, lemma_renamed_count_bound,
    lemma_renamed_count_empty, lemma_renamed_count_push_edit};
use crate::strutil::{split_lines, split_lines_vec, str_views, copy_positions};
use crate::track::Track;

verus! {

/// The key by which playcount records are indexed: the track's path.
pub open spec fn entry_key() -> spec_fn(EntryView) -> Seq<char> {
    |e: EntryView| e.path
}

/// The views of a vector of records.
pub open spec fn entry_views(v: Seq<Entry>) -> Seq<EntryView> {
    v.map_values(|e: Entry| e@)
}

/// The track keys of a record sequence, in order.
pub open spec fn pc_keys(s: Seq<EntryView>) -> Seq<Seq<char>> {
    keys_of(s, entry_key())
}

/// The summed duration of every record keyed by `k`.
pub open spec fn key_duration_sum(s: Seq<EntryView>, k: Seq<char>) -> int
    decreases s.len(),
{
    if s.len() == 0 {
        0
    } else {
        key_duration_sum(s.drop_last(), k) + if s.last().path == k {
            s.last().duration_ms
        } else {
            0
        }
    }
}

/// The summed duration of every record.
pub open spec fn total_duration(s: Seq<EntryView>) -> int
    decreases s.len(),
{
    if s.len() == 0 {
        0
    } else {
        total_duration(s.drop_last()) + s.last().duration_ms
    }
}

/// Every duration is non-negative (true of every real record).
pub open spec fn durations_nonneg(s: Seq<EntryView>) -> bool {
    forall|i: int| 0 <= i < s.len() ==> (#[trigger] s[i]).duration_ms >= 0
}

/// Each record with its duration replaced by its key's total.
pub open spec fn with_total_durations(s: Seq<EntryView>) -> Seq<EntryView> {
    s.map_values(|e: EntryView| EntryView { duration_ms: key_duration_sum(s, e.path), ..e })
}

/// What merging duplicates leaves: the first occurrence of each track, its
/// duration the sum over all occurrences; no playtime is lost.
pub open spec fn merged(s: Seq<EntryView>) -> Seq<EntryView> {
    dedup_first(with_total_durations(s), entry_key())
}

/// The records left when every occurrence of `k` is removed.
pub open spec fn without_entry(s: Seq<EntryView>, k: Seq<char>) -> Seq<EntryView> {
    remove_key(s, entry_key(), k)
}

/// The duration carried over from an occurrence, with every identity field
/// taken from the replacement record.
pub open spec fn applied_edit(old_e: EntryView, repl: EntryView) -> EntryView {
    EntryView { duration_ms: old_e.duration_ms, ..repl }
}

/// What a record becomes under a set of edits: rewritten by the first edit
/// carrying its track, keeping its own duration, or left alone.
pub open spec fn renamed_entry(edits: Seq<(Track, Option<Entry>)>, e: EntryView) -> EntryView {
    match rename_of(edits, e.path) {
        Some(p) => match p {
            Some(repl) => applied_edit(e, repl@),
            None => e,
        },
        None => e,
    }
}

/// The sum of the durations found at the given positions.
pub open spec fn sum_at(s: Seq<EntryView>, ps: Seq<int>) -> int
    decreases ps.len(),
{
    if ps.len() == 0 {
        0
    } else {
        sum_at(s, ps.drop_last()) + s[ps.last()].duration_ms
    }
}

/// The file form of a playcount: each record's line in order.
pub open spec fn render_playcount(s: Seq<EntryView>) -> Seq<char>
    decreases s.len(),
{
    if s.len() == 0 {
        Seq::empty()
    } else {
        render_playcount(s.drop_last()) + render_entry(s.last()) + seq!['\n']
    }
}

/// The records denoted by a list of lines; lines that denote nothing are
/// passed over.
pub open spec fn parse_pc_lines(lines: Seq<Seq<char>>, music_dir: Seq<char>) -> Seq<EntryView>
    decreases lines.len(),
{
    if lines.len() == 0 {
        Seq::empty()
    } else {
        parse_pc_lines(lines.drop_last(), music_dir) + match parse_entry(
            lines.last(),
            music_dir,
        ) {
            Some(e) => seq![e],
            None => Seq::empty(),
        }
    }
}

/// What a playcount file's text denotes: one record per well-formed line.
pub open spec fn parse_playcount(content: Seq<char>, music_dir: Seq<char>) -> Seq<EntryView> {
    parse_pc_lines(split_lines(content), music_dir)
}

// ---------------------------------------------------------------------------
// Lemmas about duration sums.
// ---------------------------------------------------------------------------

/// A key's total is bounded by the total over all records.
pub proof fn lemma_key_sum_le_total(s: Seq<EntryView>, k: Seq<char>)
    requires
        durations_nonneg(s),
    ensures
        0 <= key_duration_sum(s, k) <= total_duration(s),
    decreases s.len(),
{
    if s.len() > 0 {
        assert(durations_nonneg(s.drop_last()));
        lemma_key_sum_le_total(s.drop_last(), k);
        assert(s[s.len() - 1].duration_ms >= 0);
    }
}

/// A sum over positions below the last record ignores that record.
proof fn lemma_sum_at_skip_last(s: Seq<EntryView>, ps: Seq<int>)
    requires
        s.len() >= 1,
        all_below(ps, s.len() - 1),
    ensures
        sum_at(s, ps) == sum_at(s.drop_last(), ps),
    decreases ps.len(),
{
    if ps.len() > 0 {
        assert(all_below(ps.drop_last(), s.len() - 1)) by {
            assert(forall|i: int| 0 <= i < ps.drop_last().len()
                ==> #[trigger] ps.drop_last()[i] == ps[i]);
        }
        lemma_sum_at_skip_last(s, ps.drop_last());
        assert(0 <= ps[ps.len() - 1] < s.len() - 1);
    }
}

/// Summing over a key's occurrences is summing that key's durations.
pub proof fn lemma_sum_at_occurrences(s: Seq<EntryView>, k: Seq<char>)
    ensures
        sum_at(s, occurrences(pc_keys(s), k)) == key_duration_sum(s, k),
    decreases s.len(),
{
    let keys = pc_keys(s);
    lemma_occurrences(keys, k);
    if s.len() == 0 {
    } else {
        let dl = s.drop_last();
        assert(keys.drop_last() =~= pc_keys(dl));
        lemma_sum_at_occurrences(dl, k);
        lemma_occurrences(pc_keys(dl), k);
        let occ_dl = occurrences(pc_keys(dl), k);
        assert(all_below(occ_dl, s.len() - 1));
        if keys.last() == k {
            assert(occurrences(keys, k) == occ_dl.push(s.len() - 1));
            assert(occ_dl.push(s.len() - 1).drop_last() =~= occ_dl);
            lemma_sum_at_skip_last(s, occ_dl);
            assert(s.last().path == k);
        } else {
            assert(occurrences(keys, k) == occ_dl);
            lemma_sum_at_skip_last(s, occ_dl);
            assert(s.last().path != k);
        }
    }
}

/// Partial sums over a prefix of positions never exceed the whole, when
/// durations are non-negative.
proof fn lemma_sum_at_prefix(s: Seq<EntryView>, ps: Seq<int>, b: int)
    requires
        durations_nonneg(s),
        all_below(ps, s.len() as int),
        0 <= b <= ps.len(),
    ensures
        sum_at(s, ps.take(b)) <= sum_at(s, ps),
        sum_at(s, ps.take(b)) >= 0,
    decreases ps.len() - b,
{
    assert(all_below(ps.take(b), s.len() as int)) by {
        assert(forall|i: int| 0 <= i < ps.take(b).len() ==> #[trigger] ps.take(b)[i] == ps[i]);
    }
    lemma_sum_at_prefix_nonneg(s, ps.take(b));
    if b < ps.len() {
        lemma_sum_at_prefix(s, ps, b + 1);
        assert(ps.take(b + 1).drop_last() =~= ps.take(b));
        assert(0 <= ps[b] < s.len());
        assert(s[ps.take(b + 1).last()].duration_ms >= 0);
    } else {
        assert(ps.take(b) =~= ps);
    }
}

/// Sums of non-negative durations are non-negative.
proof fn lemma_sum_at_prefix_nonneg(s: Seq<EntryView>, ps: Seq<int>)
    requires
        durations_nonneg(s),
        all_below(ps, s.len() as int),
    ensures
        sum_at(s, ps) >= 0,
    decreases ps.len(),
{
    if ps.len() > 0 {
        assert(all_below(ps.drop_last(), s.len() as int)) by {
            assert(forall|i: int| 0 <= i < ps.drop_last().len()
                ==> #[trigger] ps.drop_last()[i] == ps[i]);
        }
        lemma_sum_at_prefix_nonneg(s, ps.drop_last());
        assert(0 <= ps[ps.len() - 1] < s.len());
    }
}

/// When no record repeats a key, each key's total is its one record's own
/// duration, and merging changes nothing.
pub proof fn lemma_merged_no_dups(s: Seq<EntryView>)
    requires
        dup_positions(s, entry_key()).len() == 0,
    ensures
        merged(s) == s,
{
    crate::seqs::lemma_dup_positions_props(s, entry_key());
    assert forall|i: int, j: int| 0 <= i < j < s.len()
        implies (#[trigger] s[i]).path != (#[trigger] s[j]).path by {
        if s[i].path == s[j].path {
            crate::seqs::lemma_dup_positions_contains(s, entry_key(), j);
            assert(keys_of(s.take(j), entry_key())[i] == s[i].path);
            assert(keys_of(s.take(j), entry_key()).contains(s[j].path));
            assert(dup_positions(s, entry_key()).contains(j));
        }
    }
    assert forall|i: int| 0 <= i < s.len()
        implies key_duration_sum(s, (#[trigger] s[i]).path) == s[i].duration_ms by {
        lemma_key_sum_single(s, i);
    }
    assert(with_total_durations(s) =~= s);
    assert forall|i: int, j: int| 0 <= i < j < s.len()
        implies entry_key()(#[trigger] s[i]) != entry_key()(#[trigger] s[j]) by {
        assert(s[i].path != s[j].path);
    }
    crate::seqs::lemma_no_dups_fixpoint(s, entry_key());
}

/// The total for a key carried by exactly one record is that record's own
/// duration.
proof fn lemma_key_sum_single(s: Seq<EntryView>, i: int)
    requires
        0 <= i < s.len(),
        forall|j: int| 0 <= j < s.len() && j != i ==> (#[trigger] s[j]).path != s[i].path,
    ensures
        key_duration_sum(s, s[i].path) == s[i].duration_ms,
    decreases s.len(),
{
    if i == s.len() - 1 {
        lemma_key_sum_absent(s.drop_last(), s[i].path);
    } else {
        assert(s.drop_last()[i] == s[i]);
        lemma_key_sum_single(s.drop_last(), i);
        assert(s.last().path != s[i].path);
    }
}

/// A key carried by no record sums to nothing.
pub proof fn lemma_key_sum_absent(s: Seq<EntryView>, k: Seq<char>)
    requires
        forall|j: int| 0 <= j < s.len() ==> (#[trigger] s[j]).path != k,
    ensures
        key_duration_sum(s, k) == 0,
    decreases s.len(),
{
    if s.len() > 0 {
        lemma_key_sum_absent(s.drop_last(), k);
    }
}

/// An ordered log of play records backed by one playcount file, together
/// with the index that maps each distinct track to the ascending positions
/// it occupies.
#[derive(Debug)]
pub struct Playcount {
    /// The path of the backing file.
    pub path: String,
    /// The records, in file order.
    pub entries: Vec<Entry>,
    /// Cached index over the records' tracks, to avoid linear search.
    pub tracks_map: PositionIndex,
    /// Whether the playcount changed since the last successful write.
    pub is_modified: bool,
}

impl View for Playcount {
    type V = Seq<EntryView>;

    /// The playcount's mathematical content: its records, in order.
    open spec fn view(&self) -> Seq<EntryView> {
        entry_views(self.entries@)
    }
}

impl Playcount {
    /// The index never diverges from the sequence it indexes: for every
    /// track, it records exactly the ascending positions of the records
    /// keyed by that track.
    pub open spec fn wf(self) -> bool {
        &&& self.tracks_map.wf()
        &&& self.tracks_map.bounded(self@.len() as int)
        &&& forall|k: Seq<char>| #[trigger] self.tracks_map.lookup(k)
            == occurrences(pc_keys(self@), k)
    }

    pub open spec fn spec_path(self) -> Seq<char> {
        self.path@
    }

    pub open spec fn spec_modified(self) -> bool {
        self.is_modified
    }

    /// Constructs an empty playcount tied to `path`, not yet backed by a
    /// file.
    pub fn new(path: String) -> (pc: Playcount)
        ensures
            pc.wf(),
            pc@ == Seq::<EntryView>::empty(),
            pc.spec_path() == path@,
            !pc.spec_modified(),
    {
        let pc = Playcount {
            path,
            entries: Vec::new(),
            tracks_map: PositionIndex::empty(),
            is_modified: false,
        };
        proof {
            assert(pc@ =~= Seq::<EntryView>::empty());
            assert forall|k: Seq<char>| #[trigger] pc.tracks_map.lookup(k)
                == occurrences(pc_keys(pc@), k) by {
                assert(pc_keys(pc@) =~= Seq::<Seq<char>>::empty());
                assert(occurrences(pc_keys(pc@), k) == Seq::<int>::empty());
            }
        }
        pc
    }

    /// The number of records.
    pub fn len(&self) -> (n: usize)
        ensures
            n == self@.len(),
    {
        self.entries.len()
    }

    /// Whether the playcount holds no record.
    pub fn is_empty(&self) -> (r: bool)
        ensures
            r == (self@.len() == 0),
    {
        self.entries.is_empty()
    }

    /// The path of the backing file.
    pub fn path(&self) -> (r: &String)
        ensures
            r@ == self.spec_path(),
    {
        &self.path
    }

    /// Whether the playcount changed since the last write.
    pub fn is_modified(&self) -> (r: bool)
        ensures
            r == self.spec_modified(),
    {
        self.is_modified
    }

    /// Records that the current content has been persisted: the dirty flag
    /// clears and nothing else moves. Callers invoke this after writing the
    /// rendered playcount to its backing file.
    pub fn mark_saved(&mut self)
        ensures
            final(self)@ == old(self)@,
            final(self).wf() == old(self).wf(),
            final(self).spec_path() == old(self).spec_path(),
            !final(self).spec_modified(),
    {
        self.is_modified = false;
    }

    /// The records, in order of appearance.
    pub fn entries(&self) -> (r: &Vec<Entry>)
        ensures
            r@.len() == self@.len(),
            forall|i: int| 0 <= i < r@.len() ==> #[trigger] r@[i]@ == self@[i],
    {
        &self.entries
    }

    /// The played tracks, in order of appearance; tracks can repeat.
    pub fn tracks(&self) -> (r: Vec<Track>)
        ensures
            r@.len() == self@.len(),
            forall|i: int| 0 <= i < r@.len() ==> #[trigger] r@[i]@ == self@[i].path,
    {
        let n = self.entries.len();
        let mut r: Vec<Track> = Vec::new();
        let mut i: usize = 0;
        while i < n
            invariant
                0 <= i <= n,
                n == self.entries@.len(),
                r@.len() == i,
                forall|j: int| 0 <= j < i ==> #[trigger] r@[j]@ == self@[j].path,
            decreases n - i,
        {
            r.push(self.entries[i].track.clone());
            i = i + 1;
        }
        r
    }

    /// Each distinct track, once.
    pub fn tracks_unique(&self) -> (r: Vec<Track>)
        requires
            self.wf(),
        ensures
            forall|i: int, j: int| 0 <= i < j < r@.len() ==> r@[i]@ != r@[j]@,
            forall|i: int| 0 <= i < r@.len()
                ==> occurrences(pc_keys(self@), #[trigger] r@[i]@).len() > 0,
            forall|k: Seq<char>| occurrences(pc_keys(self@), k).len() > 0
                ==> exists|i: int| 0 <= i < r@.len() && #[trigger] r@[i]@ == k,
    {
        let n = self.tracks_map.entries.len();
        let mut r: Vec<Track> = Vec::new();
        let mut i: usize = 0;
        while i < n
            invariant
                0 <= i <= n,
                n == self.tracks_map.entries@.len(),
                self.wf(),
                r@.len() == i,
                forall|j: int| 0 <= j < i
                    ==> #[trigger] r@[j]@ == self.tracks_map.entries@[j].track@,
            decreases n - i,
        {
            r.push(self.tracks_map.entries[i].track.clone());
            i = i + 1;
        }
        proof {
            assert forall|i0: int| 0 <= i0 < r@.len()
                implies occurrences(pc_keys(self@), #[trigger] r@[i0]@).len() > 0 by {
                crate::index::lemma_lookup_found(self.tracks_map.entries@, i0, r@[i0]@);
                assert(self.tracks_map.lookup(r@[i0]@)
                    == pos_ints(self.tracks_map.entries@[i0].positions@));
                assert(pos_ints(self.tracks_map.entries@[i0].positions@).len() > 0);
                assert(self.tracks_map.lookup(r@[i0]@) == occurrences(pc_keys(self@), r@[i0]@));
            }
            assert forall|k: Seq<char>| occurrences(pc_keys(self@), k).len() > 0
                implies exists|i0: int| 0 <= i0 < r@.len() && #[trigger] r@[i0]@ == k by {
                if forall|j: int| 0 <= j < self.tracks_map.entries@.len()
                    ==> #[trigger] self.tracks_map.entries@[j].track@ != k {
                    crate::index::lemma_lookup_absent(self.tracks_map.entries@, k);
                    assert(self.tracks_map.lookup(k) == occurrences(pc_keys(self@), k));
                } else {
                    let j = choose|j: int| 0 <= j < self.tracks_map.entries@.len()
                        && self.tracks_map.entries@[j].track@ == k;
                    assert(r@[j]@ == k);
                }
            }
        }
        r
    }

    /// Whether some record plays `track`.
    pub fn contains(&self, track: &Track) -> (r: bool)
        requires
            self.wf(),
        ensures
            r == (occurrences(pc_keys(self@), track@).len() > 0),
    {
        self.tracks_map.contains_key(track)
    }

    /// The ascending positions of the records keyed by `track`, or nothing
    /// when there are none.
    pub fn track_positions<'a>(&'a self, track: &Track) -> (r: Option<&'a Vec<usize>>)
        requires
            self.wf(),
        ensures
            match r {
                Some(v) => pos_ints(v@) == occurrences(pc_keys(self@), track@) && v@.len() > 0,
                None => occurrences(pc_keys(self@), track@).len() == 0,
            },
    {
        self.tracks_map.positions_of(track)
    }

    /// Appends a record at the end of the playcount.
    pub fn push(&mut self, entry: Entry)
        requires
            old(self).wf(),
        ensures
            final(self).wf(),
            final(self)@ == old(self)@.push(entry@),
            final(self).spec_path() == old(self).spec_path(),
            final(self).spec_modified(),
    {
        let pos = self.entries.len();
        self.tracks_map.insert_at_end(&entry.track, pos);
        self.entries.push(entry);
        self.is_modified = true;
        proof {
            let ghost t0 = old(self)@;
            assert(self@ =~= t0.push(self@[t0.len() as int]));
            assert(pc_keys(self@) =~= pc_keys(t0).push(self@[t0.len() as int].path));
            assert forall|k: Seq<char>| #[trigger] self.tracks_map.lookup(k)
                == occurrences(pc_keys(self@), k) by {
                lemma_occurrences_push(pc_keys(t0), self@[t0.len() as int].path, k);
            }
        }
    }

    /// Removes the record at `index`. An out-of-range request is ignored.
    pub fn remove_at(&mut self, index: usize)
        requires
            old(self).wf(),
        ensures
            final(self).wf(),
            final(self).spec_path() == old(self).spec_path(),
            index < old(self)@.len() ==> final(self)@ == old(self)@.remove(index as int)
                && final(self).spec_modified(),
            index >= old(self)@.len() ==> *final(self) == *old(self),
    {
        if index >= self.entries.len() {
            return;
        }
        let track = self.entries[index].track.clone();
        proof {
            let ghost keys = pc_keys(self@);
            lemma_occurrences(keys, track@);
            assert(occurrences(keys, track@).contains(index as int)) by {
                assert(keys[index as int] == track@);
            }
            assert forall|k: Seq<char>| k != track@
                implies !(#[trigger] self.tracks_map.lookup(k)).contains(index as int) by {
                lemma_occurrences(keys, k);
                if occurrences(keys, k).contains(index as int) {
                    let w = choose|w: int| 0 <= w < occurrences(keys, k).len()
                        && occurrences(keys, k)[w] == index as int;
                    assert(keys[occurrences(keys, k)[w]] == k);
                }
            }
        }
        self.tracks_map.remove(&track, index);
        self.entries.remove(index);
        self.is_modified = true;
        proof {
            let ghost t0 = old(self)@;
            assert(self@ =~= t0.remove(index as int));
            assert(pc_keys(self@) =~= pc_keys(t0).remove(index as int));
            assert forall|k: Seq<char>| #[trigger] self.tracks_map.lookup(k)
                == occurrences(pc_keys(self@), k) by {
                lemma_occurrences_remove(pc_keys(t0), k, index as int);
            }
            assert(self.tracks_map.bounded(self@.len() as int)) by {
                assert(old(self).tracks_map.bounded(t0.len() as int));
            }
        }
    }

    /// Removes the records at the given ascending positions, highest first,
    /// so that no removal disturbs the positions still to be removed.
    fn remove_positions_desc(&mut self, ps: &Vec<usize>)
        requires
            old(self).wf(),
            crate::index::ascending(pos_ints(ps@)),
            all_below(pos_ints(ps@), old(self)@.len() as int),
        ensures
            final(self).wf(),
            final(self).spec_path() == old(self).spec_path(),
            final(self)@ == remove_desc(old(self)@, pos_ints(ps@)),
            ps@.len() > 0 ==> final(self).spec_modified(),
            ps@.len() == 0 ==> *final(self) == *old(self),
    {
        let m = ps.len();
        let ghost orig = self@;
        let ghost pints = pos_ints(ps@);
        proof {
            assert(pints.take(m as int) =~= pints);
        }
        let mut j: usize = m;
        while j > 0
            invariant
                0 <= j <= m,
                m == ps@.len(),
                pints == pos_ints(ps@),
                crate::index::ascending(pints),
                all_below(pints, orig.len() as int),
                self.wf(),
                self.spec_path() == old(self).spec_path(),
                orig == old(self)@,
                self@.len() == orig.len() - (m - j),
                remove_desc(self@, pints.take(j as int)) == remove_desc(orig, pints),
                j < m ==> self.spec_modified(),
                j == m ==> *self == *old(self),
            decreases j,
        {
            proof {
                lemma_ascending_gap(pints, j - 1);
            }
            let p = ps[j - 1];
            let ghost pre = self@;
            self.remove_at(p);
            proof {
                assert(pints.take(j as int).last() == pints[j as int - 1]);
                assert(pints.take(j as int).drop_last() =~= pints.take(j as int - 1));
                assert(remove_desc(pre, pints.take(j as int))
                    == remove_desc(pre.remove(pints[j as int - 1]), pints.take(j as int - 1)));
            }
            j = j - 1;
        }
        proof {
            assert(pints.take(0) =~= Seq::<int>::empty());
        }
    }

    /// Removes the highest-positioned record of `track`; reports whether one
    /// existed.
    pub fn remove_last(&mut self, track: &Track) -> (r: bool)
        requires
            old(self).wf(),
        ensures
            final(self).wf(),
            final(self).spec_path() == old(self).spec_path(),
            r == (occurrences(pc_keys(old(self)@), track@).len() > 0),
            r ==> final(self)@
                == old(self)@.remove(occurrences(pc_keys(old(self)@), track@).last())
                && final(self).spec_modified(),
            !r ==> *final(self) == *old(self),
    {
        let last: usize = match self.tracks_map.positions_of(track) {
            None => {
                return false;
            },
            Some(v) => v[v.len() - 1],
        };
        proof {
            lemma_occurrences(pc_keys(old(self)@), track@);
            let occ = occurrences(pc_keys(old(self)@), track@);
            assert(last as int == occ[occ.len() - 1]);
        }
        self.remove_at(last);
        true
    }

    /// Removes every record of `track`; returns how many there were.
    pub fn remove_all(&mut self, track: &Track) -> (r: usize)
        requires
            old(self).wf(),
        ensures
            final(self).wf(),
            final(self).spec_path() == old(self).spec_path(),
            r == occurrences(pc_keys(old(self)@), track@).len(),
            final(self)@ == without_entry(old(self)@, track@),
            r > 0 ==> final(self).spec_modified(),
            r == 0 ==> *final(self) == *old(self),
    {
        let ps: Vec<usize> = match self.tracks_map.positions_of(track) {
            None => Vec::new(),
            Some(v) => copy_positions(v),
        };
        proof {
            assert(keys_of(old(self)@, entry_key()) =~= pc_keys(old(self)@));
            assert(pos_ints(ps@) =~= occurrences(pc_keys(old(self)@), track@));
            lemma_occurrences(pc_keys(old(self)@), track@);
            lemma_remove_desc_occurrences(old(self)@, entry_key(), track@);
        }
        let n = ps.len();
        self.remove_positions_desc(&ps);
        n
    }

    /// The ascending positions of the records that repeat an earlier track.
    fn duplicate_positions(&self) -> (r: Vec<usize>)
        requires
            self.wf(),
        ensures
            pos_ints(r@) == dup_positions(self@, entry_key()),
    {
        let n = self.entries.len();
        let mut dups: Vec<usize> = Vec::new();
        let mut i: usize = 0;
        proof {
            assert(pos_ints(dups@) =~= dup_positions(self@.take(0), entry_key()));
        }
        while i < n
            invariant
                0 <= i <= n,
                n == self@.len(),
                self.wf(),
                pos_ints(dups@) == dup_positions(self@.take(i as int), entry_key()),
            decreases n - i,
        {
            let first: usize = match self.tracks_map.positions_of(&self.entries[i].track) {
                Some(v) => v[0],
                None => {
                    proof {
                        lemma_occurrences(pc_keys(self@), self@[i as int].path);
                        assert(pc_keys(self@)[i as int] == self@[i as int].path);
                        assert(occurrences(pc_keys(self@), self@[i as int].path).contains(
                            i as int,
                        ));
                    }
                    unreached()
                },
            };
            let ghost pre = pos_ints(dups@);
            let is_dup = first != i;
            if is_dup {
                dups.push(i);
            }
            proof {
                let keys = pc_keys(self@);
                lemma_prefix_contains_iff_first(keys, i as int);
                assert(first as int == occurrences(keys, keys[i as int]).first());
                let stepped = self@.take(i as int + 1);
                assert(stepped.drop_last() =~= self@.take(i as int));
                assert(stepped.last() == self@[i as int]);
                assert(keys_of(self@.take(i as int), entry_key()) =~= keys.take(i as int));
                assert(entry_key()(self@[i as int]) == keys[i as int]);
                if is_dup {
                    assert(pos_ints(dups@) =~= pre.push(i as int));
                } else {
                    assert(pos_ints(dups@) =~= pre);
                }
            }
            i = i + 1;
        }
        proof {
            assert(self@.take(n as int) =~= self@);
        }
        dups
    }

    /// Counts the duplicate records without mutating anything: exactly the
    /// number a subsequent merge would fold away.
    pub fn count_duplicates(&self) -> (r: usize)
        requires
            self.wf(),
        ensures
            r == dup_positions(self@, entry_key()).len(),
    {
        let dups = self.duplicate_positions();
        dups.len()
    }

    /// Merges duplicate records: each track keeps its first record, whose
    /// duration becomes the sum over all its records, so no playtime is
    /// lost; the other records disappear. Returns the number removed.
    pub fn merge_duplicates(&mut self) -> (r: usize)
        requires
            old(self).wf(),
            total_duration(old(self)@) <= u64::MAX,
        ensures
            final(self).wf(),
            final(self).spec_path() == old(self).spec_path(),
            final(self)@ == merged(old(self)@),
            r == dup_positions(old(self)@, entry_key()).len(),
            r > 0 ==> final(self).spec_modified(),
            r == 0 ==> *final(self) == *old(self),
    {
        let dups = self.duplicate_positions();
        if dups.len() == 0 {
            proof {
                lemma_merged_no_dups(old(self)@);
            }
            return 0;
        }
        let ghost orig = self@;
        let ghost wt = with_total_durations(orig);
        let ghost keys = pc_keys(orig);
        proof {
            assert(durations_nonneg(orig));
            assert(pc_keys(wt) =~= keys);
        }
        let n = self.entries.len();
        let mut out: Vec<Entry> = Vec::new();
        let mut i: usize = 0;
        proof {
            assert(entry_views(out@) =~= dedup_first(wt.take(0), entry_key()));
        }
        while i < n
            invariant
                0 <= i <= n,
                n == orig.len(),
                *self == *old(self),
                self.wf(),
                orig == self@,
                keys == pc_keys(orig),
                wt == with_total_durations(orig),
                durations_nonneg(orig),
                total_duration(orig) <= u64::MAX,
                entry_views(out@) == dedup_first(wt.take(i as int), entry_key()),
            decreases n - i,
        {
            let ps: Vec<usize> = match self.tracks_map.positions_of(&self.entries[i].track) {
                Some(v) => copy_positions(v),
                None => {
                    proof {
                        lemma_occurrences(keys, orig[i as int].path);
                        assert(keys[i as int] == orig[i as int].path);
                        assert(occurrences(keys, orig[i as int].path).contains(i as int));
                    }
                    unreached()
                },
            };
            let ghost k = keys[i as int];
            proof {
                lemma_prefix_contains_iff_first(keys, i as int);
                lemma_occurrences(keys, k);
                assert(pos_ints(ps@) == occurrences(keys, k));
                assert(keys_of(wt.take(i as int), entry_key()) =~= keys.take(i as int));
                assert(wt.take(i as int + 1).drop_last() =~= wt.take(i as int));
                assert(wt.take(i as int + 1).last() == wt[i as int]);
                assert(entry_key()(wt[i as int]) == k);
            }
            let first = ps[0];
            if first == i {
                let ghost pints = pos_ints(ps@);
                let mlen = ps.len();
                let mut total: u64 = 0;
                let mut b: usize = 0;
                proof {
                    lemma_sum_at_occurrences(orig, k);
                    lemma_key_sum_le_total(orig, k);
                    assert(pints.take(0) =~= Seq::<int>::empty());
                }
                while b < mlen
                    invariant
                        0 <= b <= mlen,
                        mlen == ps@.len(),
                        pints == pos_ints(ps@),
                        *self == *old(self),
                        orig == self@,
                        durations_nonneg(orig),
                        all_below(pints, orig.len() as int),
                        sum_at(orig, pints) == key_duration_sum(orig, k),
                        key_duration_sum(orig, k) <= u64::MAX,
                        total as int == sum_at(orig, pints.take(b as int)),
                    decreases mlen - b,
                {
                    let p = ps[b];
                    proof {
                        assert(pints[b as int] == p as int);
                        assert(0 <= pints[b as int] && pints[b as int] < orig.len());
                    }
                    let d = self.entries[p].duration_ms;
                    proof {
                        lemma_sum_at_prefix(orig, pints, b as int + 1);
                        assert(pints.take(b as int + 1).drop_last() =~= pints.take(b as int));
                        assert(pints.take(b as int + 1).last() == p as int);
                        assert(orig[p as int].duration_ms == d as int);
                        assert(total as int + d as int == sum_at(orig, pints.take(b as int + 1)));
                    }
                    total = total + d;
                    b = b + 1;
                }
                let mut e = self.entries[i].clone();
                e.duration_ms = total;
                let ghost pre_out = entry_views(out@);
                out.push(e);
                proof {
                    assert(pints.take(mlen as int) =~= pints);
                    assert(total as int == key_duration_sum(orig, k));
                    assert(e@ == wt[i as int]);
                    assert(!keys.take(i as int).contains(k));
                    assert(entry_views(out@) =~= pre_out.push(e@));
                    assert(entry_views(out@) =~= dedup_first(wt.take(i as int + 1), entry_key()));
                }
            } else {
                proof {
                    assert(occurrences(keys, k).first() != i as int);
                    assert(keys.take(i as int).contains(k));
                    assert(entry_views(out@) == dedup_first(wt.take(i as int + 1), entry_key()));
                }
            }
            i = i + 1;
        }
        self.entries = out;
        self.rebuild_tracks_map();
        self.is_modified = true;
        proof {
            assert(wt.take(n as int) =~= wt);
        }
        dups.len()
    }

    /// Applies every edit whose old track occurs: each of its records is
    /// rewritten from the edit's replacement record, keeping only its own
    /// duration. Each replacement is built before any record changes, so
    /// chained pairs do not compound and swapped pairs do not collide; a
    /// replacement given as nothing stands for a failed metadata lookup, and
    /// one such edit for a present track fails the whole call with no change
    /// made. Returns the number of records changed.
    pub fn bulk_rename(&mut self, edits: &Vec<(Track, Option<Entry>)>) -> (r: Result<usize, Error>)
        requires
            old(self).wf(),
            forall|i: int, j: int| 0 <= i < j < edits@.len()
                ==> (#[trigger] edits@[i]).0@ != (#[trigger] edits@[j]).0@,
        ensures
            match r {
                Ok(count) => {
                    &&& forall|j: int| 0 <= j < edits@.len()
                        && (#[trigger] edits@[j]).1 is None
                        ==> occurrences(pc_keys(old(self)@), edits@[j].0@).len() == 0
                    &&& final(self).wf()
                    &&& final(self).spec_path() == old(self).spec_path()
                    &&& final(self)@.len() == old(self)@.len()
                    &&& forall|i: int| 0 <= i < old(self)@.len()
                        ==> #[trigger] final(self)@[i] == renamed_entry(edits@, old(self)@[i])
                    &&& count == renamed_count(pc_keys(old(self)@), edits@)
                    &&& (count > 0 ==> final(self).spec_modified())
                    &&& (count == 0 ==> final(self).spec_modified() == old(self).spec_modified())
                },
                Err(e) => {
                    &&& e == Error::MissingReplacement
                    &&& *final(self) == *old(self)
                    &&& exists|j: int| 0 <= j < edits@.len()
                        && (#[trigger] edits@[j]).1 is None
                        && occurrences(pc_keys(old(self)@), edits@[j].0@).len() > 0
                },
            },
    {
        let ghost orig = self@;
        let ghost keys = pc_keys(orig);
        let n_entries = self.entries.len();
        let m = edits.len();

        // Validate: every present track must come with a replacement record.
        let mut e: usize = 0;
        while e < m
            invariant
                0 <= e <= m,
                m == edits@.len(),
                *self == *old(self),
                self.wf(),
                orig == self@,
                keys == pc_keys(orig),
                forall|j: int| 0 <= j < e && (#[trigger] edits@[j]).1 is None
                    ==> occurrences(keys, edits@[j].0@).len() == 0,
            decreases m - e,
        {
            let absent_payload = match &edits[e].1 {
                Some(_) => false,
                None => true,
            };
            if absent_payload && self.tracks_map.contains_key(&edits[e].0) {
                proof {
                    assert(edits@[e as int].1 is None);
                    assert(occurrences(keys, edits@[e as int].0@).len() > 0);
                }
                return Err(Error::MissingReplacement);
            }
            e = e + 1;
        }

        // Apply: rewrite every record of each edited track.
        let mut n_changed: usize = 0;
        let mut e: usize = 0;
        proof {
            lemma_renamed_count_empty(keys, edits@.take(0));
            assert(orig.len() == n_entries as int);
        }
        while e < m
            invariant
                0 <= e <= m,
                m == edits@.len(),
                forall|i: int, j: int| 0 <= i < j < edits@.len()
                    ==> (#[trigger] edits@[i]).0@ != (#[trigger] edits@[j]).0@,
                forall|j: int| 0 <= j < m && (#[trigger] edits@[j]).1 is None
                    ==> occurrences(keys, edits@[j].0@).len() == 0,
                orig == old(self)@,
                orig.len() == n_entries as int,
                keys == pc_keys(orig),
                old(self).wf(),
                self.tracks_map == old(self).tracks_map,
                self.path@ == old(self).path@,
                self.is_modified == old(self).is_modified,
                self@.len() == orig.len(),
                forall|i: int| 0 <= i < orig.len()
                    ==> #[trigger] self@[i] == renamed_entry(edits@.take(e as int), orig[i]),
                n_changed == renamed_count(keys, edits@.take(e as int)),
            decreases m - e,
        {
            let ghost pre_edits = edits@.take(e as int);
            let ghost ed = edits@[e as int];
            proof {
                assert(edits@.take(e as int + 1) =~= pre_edits.push(ed));
                assert(forall|j: int| 0 <= j < pre_edits.len()
                    ==> (#[trigger] pre_edits[j]).0@ != ed.0@);
                lemma_renamed_count_push_edit(keys, pre_edits, ed);
                lemma_renamed_count_bound(keys, pre_edits.push(ed));
                lemma_occurrences(keys, ed.0@);
            }
            let popt = self.tracks_map.positions_of(&edits[e].0);
            match popt {
                None => {
                    proof {
                        let ghost occ = occurrences(keys, ed.0@);
                        assert(occ.len() == 0);
                        assert forall|i: int| 0 <= i < orig.len()
                            implies #[trigger] self@[i]
                                == renamed_entry(pre_edits.push(ed), orig[i]) by {
                            lemma_rename_of_push(pre_edits, ed, orig[i].path);
                            if rename_of(pre_edits, orig[i].path).is_none()
                                && ed.0@ == orig[i].path {
                                assert(keys[i] == orig[i].path);
                                assert(occ.contains(i));
                            }
                        }
                    }
                },
                Some(v) => {
                    let ps = copy_positions(v);
                    proof {
                        assert(pos_ints(ps@) == occurrences(keys, ed.0@));
                    }
                    let repl = match &edits[e].1 {
                        Some(r0) => r0,
                        None => {
                            proof {
                                assert(edits@[e as int].1 is None);
                                assert(occurrences(keys, edits@[e as int].0@).len() == 0);
                                assert(false);
                            }
                            unreached()
                        },
                    };
                    let ghost mid = self@;
                    let mlen = ps.len();
                    let mut b: usize = 0;
                    while b < mlen
                        invariant
                            0 <= b <= mlen,
                            mlen == ps@.len(),
                            pos_ints(ps@) == occurrences(keys, edits@[e as int].0@),
                            orig == old(self)@,
                            e < m,
                            m == edits@.len(),
                            edits@[e as int].1 == Some(*repl),
                            all_below(pos_ints(ps@), orig.len() as int),
                            self.tracks_map == old(self).tracks_map,
                            self.path@ == old(self).path@,
                            self.is_modified == old(self).is_modified,
                            self@.len() == orig.len(),
                            mid.len() == orig.len(),
                            forall|i: int| 0 <= i < orig.len()
                                ==> #[trigger] self@[i]
                                    == if pos_ints(ps@).take(b as int).contains(i) {
                                    applied_edit(orig[i], repl@)
                                } else {
                                    mid[i]
                                },
                            forall|i: int| 0 <= i < orig.len()
                                ==> #[trigger] mid[i]
                                    == renamed_entry(edits@.take(e as int), orig[i]),
                            forall|i: int, j: int| 0 <= i < j < edits@.len()
                                ==> (#[trigger] edits@[i]).0@ != (#[trigger] edits@[j]).0@,
                            keys == pc_keys(orig),
                        decreases mlen - b,
                    {
                        let pos = ps[b];
                        proof {
                            assert(pos_ints(ps@)[b as int] == pos as int);
                            lemma_occurrences(keys, edits@[e as int].0@);
                            assert(keys[pos as int] == edits@[e as int].0@);
                        }
                        let ghost before = self@;
                        proof {
                            // The record at `pos` is untouched so far: its key is
                            // this edit's, which no earlier edit carries, and this
                            // pass has not reached it.
                            assert(!pos_ints(ps@).take(b as int).contains(pos as int)) by {
                                crate::index::lemma_occurrences(keys, edits@[e as int].0@);
                                if pos_ints(ps@).take(b as int).contains(pos as int) {
                                    let w = choose|w: int| 0 <= w
                                        < pos_ints(ps@).take(b as int).len()
                                        && pos_ints(ps@).take(b as int)[w] == pos as int;
                                    assert(pos_ints(ps@)[w] == pos as int);
                                    assert(pos_ints(ps@)[b as int] == pos as int);
                                    assert(crate::index::ascending(pos_ints(ps@)));
                                }
                            }
                            assert(before[pos as int] == mid[pos as int]);
                            assert(rename_of(edits@.take(e as int), orig[pos as int].path)
                                is None) by {
                                lemma_rename_of_present(
                                    edits@.take(e as int),
                                    orig[pos as int].path,
                                );
                                if exists|j: int| 0 <= j < edits@.take(e as int).len()
                                    && (#[trigger] edits@.take(e as int)[j]).0@
                                        == orig[pos as int].path {
                                    let j = choose|j: int| 0 <= j < edits@.take(e as int).len()
                                        && (#[trigger] edits@.take(e as int)[j]).0@
                                            == orig[pos as int].path;
                                    assert(edits@[j].0@ == edits@[e as int].0@);
                                }
                            }
                            assert(mid[pos as int] == orig[pos as int]);
                        }
                        let dur = self.entries[pos].duration_ms;
                        let mut ne = repl.clone();
                        ne.duration_ms = dur;
                        self.entries.set(pos, ne);
                        proof {
                            assert(self@ =~= before.update(
                                pos as int,
                                applied_edit(orig[pos as int], repl@),
                            ));
                            assert(pos_ints(ps@).take(b as int + 1)
                                =~= pos_ints(ps@).take(b as int).push(pos as int));
                            assert forall|i: int| 0 <= i < orig.len()
                                implies #[trigger] self@[i]
                                    == if pos_ints(ps@).take(b as int + 1).contains(i) {
                                    applied_edit(orig[i], repl@)
                                } else {
                                    mid[i]
                                } by {
                                let tk = pos_ints(ps@).take(b as int);
                                assert(before[i] == if tk.contains(i) {
                                    applied_edit(orig[i], repl@)
                                } else {
                                    mid[i]
                                });
                                if i == pos as int {
                                    assert(tk.push(pos as int).contains(i)) by {
                                        assert(tk.push(pos as int).last() == i);
                                    }
                                } else {
                                    assert(tk.push(pos as int).contains(i) <==> tk.contains(i))
                                        by {
                                        if tk.push(pos as int).contains(i) {
                                            let w = choose|w: int| 0 <= w
                                                < tk.push(pos as int).len()
                                                && tk.push(pos as int)[w] == i;
                                            if w < tk.len() {
                                                assert(tk[w] == i);
                                            }
                                        }
                                        if tk.contains(i) {
                                            let w = choose|w: int| 0 <= w < tk.len()
                                                && tk[w] == i;
                                            assert(tk.push(pos as int)[w] == i);
                                        }
                                    }
                                }
                            }
                        }
                        b = b + 1;
                    }
                    n_changed = n_changed + mlen;
                    proof {
                        let ghost occ = occurrences(keys, ed.0@);
                        assert(pos_ints(ps@).take(mlen as int) =~= occ);
                        assert forall|i: int| 0 <= i < orig.len()
                            implies #[trigger] self@[i]
                                == renamed_entry(pre_edits.push(ed), orig[i]) by {
                            lemma_rename_of_push(pre_edits, ed, orig[i].path);
                            assert(occ.contains(i) <==> orig[i].path == ed.0@) by {
                                lemma_occurrences(keys, ed.0@);
                                if occ.contains(i) {
                                    let w = choose|w: int| 0 <= w < occ.len() && occ[w] == i;
                                    assert(keys[occ[w]] == ed.0@);
                                }
                                if orig[i].path == ed.0@ {
                                    assert(keys[i] == ed.0@);
                                }
                            }
                            if orig[i].path == ed.0@ {
                                assert(rename_of(pre_edits, orig[i].path) is None) by {
                                    lemma_rename_of_present(pre_edits, orig[i].path);
                                    if exists|j: int| 0 <= j < pre_edits.len()
                                        && (#[trigger] pre_edits[j]).0@ == orig[i].path {
                                        let j = choose|j: int| 0 <= j < pre_edits.len()
                                            && (#[trigger] pre_edits[j]).0@ == orig[i].path;
                                        assert(edits@[j].0@ == edits@[e as int].0@);
                                    }
                                }
                            }
                        }
                    }
                },
            }
            e = e + 1;
        }
        proof {
            assert(edits@.take(m as int) =~= edits@);
        }
        self.rebuild_tracks_map();
        if n_changed > 0 {
            self.is_modified = true;
        }
        Ok(n_changed)
    }

    /// The playcount in its file form, ready to overwrite the backing file.
    /// The text depends on the record sequence alone, so writing twice with
    /// no mutation in between produces identical bytes.
    pub fn render(&self) -> (r: String)
        ensures
            r@ == render_playcount(self@),
    {
        let mut out = String::new();
        let n = self.entries.len();
        let mut i: usize = 0;
        proof {
            assert(self@.take(0) =~= Seq::<EntryView>::empty());
        }
        while i < n
            invariant
                0 <= i <= n,
                n == self@.len(),
                out@ == render_playcount(self@.take(i as int)),
            decreases n - i,
        {
            let line = self.entries[i].as_file_line();
            out.append(line.as_str());
            out.append("\n");
            proof {
                reveal_strlit("\n");
                assert(self@.take(i as int + 1).drop_last() =~= self@.take(i as int));
                assert(self@.take(i as int + 1).last() == self@[i as int]);
                assert("\n"@ =~= seq!['\n']);
                assert(out@ =~= render_playcount(self@.take(i as int + 1)));
            }
            i = i + 1;
        }
        proof {
            assert(self@.take(n as int) =~= self@);
        }
        out
    }

    /// Builds a playcount from the text of its backing file: one record per
    /// line. A line that does not parse is passed over rather than failing
    /// the whole load; the second result says how many were.
    pub fn from_content(path: String, content: &str, music_dir: &str) -> (r: (Playcount, usize))
        ensures
            r.0.wf(),
            r.0@ == parse_playcount(content@, music_dir@),
            r.0.spec_path() == path@,
            !r.0.spec_modified(),
            r.1 as int == split_lines(content@).len() - parse_playcount(content@, music_dir@).len(),
    {
        let ghost path_view = path@;
        let mut pc = Self::new(path);
        let lines = split_lines_vec(content);
        let n = lines.len();
        let ghost lviews = str_views(lines@);
        let mut skipped: usize = 0;
        let mut i: usize = 0;
        proof {
            assert(pc@ =~= parse_pc_lines(lviews.take(0), music_dir@));
        }
        while i < n
            invariant
                0 <= i <= n,
                n == lines@.len(),
                lviews == str_views(lines@),
                lviews == split_lines(content@),
                pc.wf(),
                pc@ == parse_pc_lines(lviews.take(i as int), music_dir@),
                pc.path@ == path_view,
                skipped as int == i - pc@.len(),
            decreases n - i,
        {
            proof {
                assert(lviews.take(i as int + 1).drop_last() =~= lviews.take(i as int));
                assert(lviews.take(i as int + 1).last() == lviews[i as int]);
            }
            match Entry::from_line(lines[i].as_str(), music_dir) {
                Some(entry) => {
                    pc.push(entry);
                    proof {
                        assert(pc@ =~= parse_pc_lines(lviews.take(i as int + 1), music_dir@));
                    }
                },
                None => {
                    skipped = skipped + 1;
                    proof {
                        assert(pc@ =~= parse_pc_lines(lviews.take(i as int + 1), music_dir@));
                    }
                },
            }
            i = i + 1;
        }
        pc.is_modified = false;
        proof {
            assert(lviews.take(n as int) =~= lviews);
        }
        (pc, skipped)
    }

    /// Clears the index and rebuilds it from the record sequence; used after
    /// bulk edits, where incremental maintenance would be error-prone.
    fn rebuild_tracks_map(&mut self)
        ensures
            final(self).wf(),
            final(self)@ == old(self)@,
            final(self).entries@ == old(self).entries@,
            final(self).spec_path() == old(self).spec_path(),
            final(self).spec_modified() == old(self).spec_modified(),
    {
        self.tracks_map = PositionIndex::empty();
        let n = self.entries.len();
        let mut i: usize = 0;
        proof {
            assert forall|k: Seq<char>| #[trigger] self.tracks_map.lookup(k)
                == occurrences(pc_keys(self@.take(0)), k) by {
                assert(pc_keys(self@.take(0)) =~= Seq::<Seq<char>>::empty());
                assert(occurrences(pc_keys(self@.take(0)), k) == Seq::<int>::empty());
            }
        }
        while i < n
            invariant
                0 <= i <= n,
                n == self.entries@.len(),
                self.entries@ == old(self).entries@,
                self.path@ == old(self).path@,
                self.is_modified == old(self).is_modified,
                self.tracks_map.wf(),
                self.tracks_map.bounded(i as int),
                forall|k: Seq<char>| #[trigger] self.tracks_map.lookup(k)
                    == occurrences(pc_keys(self@.take(i as int)), k),
            decreases n - i,
        {
            self.tracks_map.insert_at_end(&self.entries[i].track, i);
            proof {
                let ghost t = self@;
                assert(pc_keys(t.take(i as int)).push(t[i as int].path)
                    =~= pc_keys(t.take(i as int + 1)));
                assert forall|k: Seq<char>| #[trigger] self.tracks_map.lookup(k)
                    == occurrences(pc_keys(t.take(i as int + 1)), k) by {
                    lemma_occurrences_push(pc_keys(t.take(i as int)), t[i as int].path, k);
                }
            }
            i = i + 1;
        }
        proof {
            assert(self@.take(n as int) =~= self@);
        }
    }
}

} // verus!
