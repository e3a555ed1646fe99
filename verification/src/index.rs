use vstd::prelude::*;
use crate::track::Track;

verus! {

// ---------------------------------------------------------------------------
// Mathematical model: positions of a key in a sequence of keys.
// ---------------------------------------------------------------------------

/// View of a vector of positions as mathematical integers.
pub open spec fn pos_ints(v: Seq<usize>) -> Seq<int> {
    v.map_values(|p: usize| p as int)
}

/// The integers of `l` are strictly ascending.
pub open spec fn ascending(l: Seq<int>) -> bool {
    forall|i: int, j: int| 0 <= i < j < l.len() ==> l[i] < l[j]
}

/// Every integer of `l` lies in `[0, n)`.
pub open spec fn all_below(l: Seq<int>, n: int) -> bool {
    forall|i: int| 0 <= i < l.len() ==> 0 <= #[trigger] l[i] < n
}

/// The ascending sequence of positions at which `k` occurs in `keys`.
pub open spec fn occurrences(keys: Seq<Seq<char>>, k: Seq<char>) -> Seq<int>
    decreases keys.len(),
{
    if keys.len() == 0 {
        Seq::empty()
    } else if keys.last() == k {
        occurrences(keys.drop_last(), k).push(keys.len() - 1)
    } else {
        occurrences(keys.drop_last(), k)
    }
}

/// `occurrences(keys, k)` is ascending, bounded by `keys.len()`, and holds
/// exactly the positions at which `k` stands in `keys`.
pub proof fn lemma_occurrences(keys: Seq<Seq<char>>, k: Seq<char>)
    ensures
        ascending(occurrences(keys, k)),
        all_below(occurrences(keys, k), keys.len() as int),
        forall|i: int| 0 <= i < occurrences(keys, k).len()
            ==> keys[#[trigger] occurrences(keys, k)[i]] == k,
        forall|p: int| 0 <= p < keys.len() && keys[p] == k
            ==> #[trigger] occurrences(keys, k).contains(p),
    decreases keys.len(),
{
    if keys.len() == 0 {
    } else {
        lemma_occurrences(keys.drop_last(), k);
        let dl = keys.drop_last();
        assert(forall|p: int| 0 <= p < dl.len() ==> dl[p] == keys[p]);
        let occ = occurrences(keys, k);
        if keys.last() == k {
            assert(occ.last() == keys.len() - 1);
            assert(occ.contains(keys.len() - 1)) by {
                assert(occ[occ.len() - 1] == keys.len() - 1);
            }
        }
        assert forall|p: int| 0 <= p < keys.len() && keys[p] == k
            implies #[trigger] occ.contains(p) by {
            if p < keys.len() - 1 {
                assert(occurrences(dl, k).contains(p));
                let i = choose|i: int| 0 <= i < occurrences(dl, k).len()
                    && occurrences(dl, k)[i] == p;
                assert(occ[i] == p);
            } else {
                assert(occ[occ.len() - 1] == p);
            }
        }
    }
}

/// Appending one key to the sequence appends its position to that key's
/// occurrence list and leaves every other list unchanged.
pub proof fn lemma_occurrences_push(keys: Seq<Seq<char>>, x: Seq<char>, k: Seq<char>)
    ensures
        occurrences(keys.push(x), k) == if x == k {
            occurrences(keys, k).push(keys.len() as int)
        } else {
            occurrences(keys, k)
        },
{
    assert(keys.push(x).drop_last() =~= keys);
    assert(keys.push(x).last() == x);
}

/// Shift every position above `pos` down by one.
pub open spec fn shift_down(l: Seq<int>, pos: int) -> Seq<int> {
    l.map_values(|p: int| if p > pos { p - 1 } else { p })
}

/// Drop every occurrence of `pos` from `l`.
pub open spec fn drop_pos(l: Seq<int>, pos: int) -> Seq<int> {
    l.filter(|p: int| p != pos)
}

/// What becomes of an occurrence list when the owning sequence loses the
/// element at `pos`: the position disappears and the ones above it shift.
pub open spec fn after_remove(l: Seq<int>, pos: int) -> Seq<int> {
    shift_down(drop_pos(l, pos), pos)
}

/// If `pos` does not occur in `l`, dropping it changes nothing.
pub proof fn lemma_drop_pos_absent(l: Seq<int>, pos: int)
    requires
        !l.contains(pos),
    ensures
        drop_pos(l, pos) == l,
    decreases l.len(),
{
    reveal(Seq::filter);
    if l.len() > 0 {
        assert(!l.drop_last().contains(pos)) by {
            if l.drop_last().contains(pos) {
                let i = choose|i: int| 0 <= i < l.drop_last().len() && l.drop_last()[i] == pos;
                assert(l[i] == pos);
            }
        }
        lemma_drop_pos_absent(l.drop_last(), pos);
        assert(l[l.len() - 1] != pos) by {
            if l.last() == pos {
                assert(l.contains(pos));
            }
        }
        assert(drop_pos(l, pos) =~= l);
    } else {
        assert(drop_pos(l, pos) =~= l);
    }
}

/// If every element of `l` lies strictly below `pos`, removal at `pos`
/// leaves the list untouched.
pub proof fn lemma_after_remove_below(l: Seq<int>, pos: int)
    requires
        all_below(l, pos),
    ensures
        after_remove(l, pos) == l,
{
    assert(!l.contains(pos)) by {
        if l.contains(pos) {
            let i = choose|i: int| 0 <= i < l.len() && l[i] == pos;
        }
    }
    lemma_drop_pos_absent(l, pos);
    assert(shift_down(l, pos) =~= l);
}

/// In an ascending list, dropping the value found at index `j` is the same
/// as removing the element at `j`.
pub proof fn lemma_remove_at_is_drop_pos(l: Seq<int>, j: int)
    requires
        ascending(l),
        0 <= j < l.len(),
    ensures
        drop_pos(l, l[j]) == l.remove(j),
    decreases l.len(),
{
    reveal(Seq::filter);
    let pos = l[j];
    if j == l.len() - 1 {
        assert(!l.drop_last().contains(pos)) by {
            if l.drop_last().contains(pos) {
                let i = choose|i: int| 0 <= i < l.drop_last().len() && l.drop_last()[i] == pos;
                assert(l[i] < l[j]);
            }
        }
        lemma_drop_pos_absent(l.drop_last(), pos);
        assert(l.remove(j) =~= l.drop_last());
    } else {
        assert(l.drop_last()[j] == pos);
        assert(ascending(l.drop_last()));
        lemma_remove_at_is_drop_pos(l.drop_last(), j);
        assert(l.last() != pos) by {
            assert(l[j] < l[l.len() - 1]);
        }
        assert(drop_pos(l, pos) == drop_pos(l.drop_last(), pos).push(l.last()));
        assert(l.remove(j) =~= l.drop_last().remove(j).push(l.last()));
    }
}

/// Shifting preserves a strictly ascending order, provided the removed
/// position itself no longer occurs.
pub proof fn lemma_shift_down_ascending(l: Seq<int>, pos: int)
    requires
        ascending(l),
        !l.contains(pos),
    ensures
        ascending(shift_down(l, pos)),
{
    let s = shift_down(l, pos);
    assert forall|i: int, j: int| 0 <= i < j < s.len() implies s[i] < s[j] by {
        assert(l[i] < l[j]);
        assert(l[i] != pos) by {
            if l[i] == pos {
                assert(l.contains(pos));
            }
        }
        assert(l[j] != pos) by {
            if l[j] == pos {
                assert(l.contains(pos));
            }
        }
    }
}

/// Dropping a value keeps every bound that held before.
pub proof fn lemma_drop_pos_bound(l: Seq<int>, pos: int, n: int)
    requires
        all_below(l, n),
    ensures
        all_below(drop_pos(l, pos), n),
    decreases l.len(),
{
    reveal(Seq::filter);
    if l.len() > 0 {
        assert(all_below(l.drop_last(), n));
        lemma_drop_pos_bound(l.drop_last(), pos, n);
        assert(0 <= l[l.len() - 1] < n);
    }
}

/// No element survives a `drop_pos` equal to the dropped value.
pub proof fn lemma_drop_pos_elements(l: Seq<int>, pos: int)
    ensures
        forall|i: int| 0 <= i < drop_pos(l, pos).len() ==> #[trigger] drop_pos(l, pos)[i] != pos,
    decreases l.len(),
{
    reveal(Seq::filter);
    if l.len() > 0 {
        lemma_drop_pos_elements(l.drop_last(), pos);
    }
}

/// Bounds after a removal: all positions below `n` stay below `n - 1`.
pub proof fn lemma_after_remove_bound(l: Seq<int>, pos: int, n: int)
    requires
        all_below(l, n),
        0 <= pos < n,
    ensures
        all_below(after_remove(l, pos), n - 1),
{
    let d = drop_pos(l, pos);
    lemma_drop_pos_bound(l, pos, n);
    lemma_drop_pos_elements(l, pos);
    assert forall|i: int| 0 <= i < after_remove(l, pos).len()
        implies 0 <= #[trigger] after_remove(l, pos)[i] < n - 1 by {
        assert(d[i] != pos);
        assert(0 <= d[i] < n);
    }
}

/// Removing the element at `pos` from the key sequence turns each occurrence
/// list into `after_remove` of the old one.
pub proof fn lemma_occurrences_remove(keys: Seq<Seq<char>>, k: Seq<char>, pos: int)
    requires
        0 <= pos < keys.len(),
    ensures
        occurrences(keys.remove(pos), k) == after_remove(occurrences(keys, k), pos),
    decreases keys.len(),
{
    reveal(Seq::filter);
    let n = keys.len() as int;
    let occ = occurrences(keys, k);
    let dl = keys.drop_last();
    lemma_occurrences(dl, k);
    if pos == n - 1 {
        assert(keys.remove(pos) =~= dl);
        if keys.last() == k {
            assert(occ == occurrences(dl, k).push(n - 1));
            assert(occ.drop_last() =~= occurrences(dl, k));
            assert(drop_pos(occ, pos) == drop_pos(occurrences(dl, k), pos)) by {
                assert(occ.last() == pos);
            }
            lemma_after_remove_below(occurrences(dl, k), pos);
            assert(drop_pos(occurrences(dl, k), pos) == occurrences(dl, k));
        } else {
            assert(occ == occurrences(dl, k));
            lemma_after_remove_below(occ, pos);
        }
    } else {
        let kr = keys.remove(pos);
        assert(kr.len() == n - 1);
        assert(kr.last() == keys.last()) by {
            assert(kr[n - 2] == keys[n - 1]);
        }
        assert(kr.drop_last() =~= dl.remove(pos));
        lemma_occurrences_remove(dl, k, pos);
        let occ_dl = occurrences(dl, k);
        if keys.last() == k {
            assert(occ == occ_dl.push(n - 1));
            assert(occurrences(kr, k) == occurrences(dl.remove(pos), k).push(n - 2));
            assert(drop_pos(occ, pos) =~= drop_pos(occ_dl, pos).push(n - 1)) by {
                assert(occ.drop_last() =~= occ_dl);
                assert(occ.last() == n - 1 && n - 1 != pos);
            }
            assert(shift_down(drop_pos(occ_dl, pos).push(n - 1), pos)
                =~= shift_down(drop_pos(occ_dl, pos), pos).push(n - 2));
        } else {
            assert(occ == occ_dl);
            assert(occurrences(kr, k) == occurrences(dl.remove(pos), k));
        }
    }
}

// ---------------------------------------------------------------------------
// The executable position index.
// ---------------------------------------------------------------------------

/// One entry of the position index: a track and the ascending list of
/// positions at which it occurs in the owning sequence.
#[derive(Debug)]
pub struct IndexEntry {
    pub track: Track,
    pub positions: Vec<usize>,
}

/// The positions recorded for `k` in a list of index entries; empty when no
/// entry carries that key.
pub open spec fn lookup_at(s: Seq<IndexEntry>, k: Seq<char>) -> Seq<int>
    decreases s.len(),
{
    if s.len() == 0 {
        Seq::empty()
    } else if s[0].track@ == k {
        pos_ints(s[0].positions@)
    } else {
        lookup_at(s.drop_first(), k)
    }
}

/// No two entries carry the same key.
pub open spec fn distinct_keys(s: Seq<IndexEntry>) -> bool {
    forall|i: int, j: int| 0 <= i < j < s.len() ==> s[i].track@ != s[j].track@
}

/// If no entry carries `k`, the lookup is empty.
pub proof fn lemma_lookup_absent(s: Seq<IndexEntry>, k: Seq<char>)
    requires
        forall|i: int| 0 <= i < s.len() ==> s[i].track@ != k,
    ensures
        lookup_at(s, k) == Seq::<int>::empty(),
    decreases s.len(),
{
    if s.len() > 0 {
        lemma_lookup_absent(s.drop_first(), k);
    }
}

/// If entry `i` carries `k` and keys are distinct, the lookup is its list.
pub proof fn lemma_lookup_found(s: Seq<IndexEntry>, i: int, k: Seq<char>)
    requires
        distinct_keys(s),
        0 <= i < s.len(),
        s[i].track@ == k,
    ensures
        lookup_at(s, k) == pos_ints(s[i].positions@),
    decreases s.len(),
{
    if i > 0 {
        lemma_lookup_found(s.drop_first(), i - 1, k);
    }
}

/// Appending an entry with a fresh key adds its list under that key and
/// leaves every other lookup unchanged.
pub proof fn lemma_lookup_push(s: Seq<IndexEntry>, e: IndexEntry, k: Seq<char>)
    requires
        forall|i: int| 0 <= i < s.len() ==> s[i].track@ != e.track@,
    ensures
        lookup_at(s.push(e), k) == if k == e.track@ {
            pos_ints(e.positions@)
        } else {
            lookup_at(s, k)
        },
    decreases s.len(),
{
    if s.len() == 0 {
        assert(s.push(e)[0] == e);
        if k != e.track@ {
            assert(s.push(e).drop_first() =~= Seq::<IndexEntry>::empty());
            assert(lookup_at(Seq::<IndexEntry>::empty(), k) == Seq::<int>::empty());
            assert(lookup_at(s.push(e), k) == Seq::<int>::empty());
        }
    } else {
        assert(s.push(e)[0] == s[0]);
        assert(s[0].track@ != e.track@);
        assert(s.push(e).drop_first() =~= s.drop_first().push(e));
        assert(forall|i: int| 0 <= i < s.drop_first().len()
            ==> #[trigger] s.drop_first()[i].track@ == s[i + 1].track@);
        lemma_lookup_push(s.drop_first(), e, k);
    }
}

/// Replacing entry `i` with one of the same key swaps in the new list under
/// that key and leaves every other lookup unchanged.
pub proof fn lemma_lookup_update(s: Seq<IndexEntry>, i: int, e: IndexEntry, k: Seq<char>)
    requires
        distinct_keys(s),
        0 <= i < s.len(),
        e.track@ == s[i].track@,
    ensures
        lookup_at(s.update(i, e), k) == if k == e.track@ {
            pos_ints(e.positions@)
        } else {
            lookup_at(s, k)
        },
        distinct_keys(s.update(i, e)),
    decreases s.len(),
{
    if i == 0 {
        assert(s.update(0, e)[0] == e);
        assert(s.update(0, e).drop_first() =~= s.drop_first());
    } else {
        assert(s.update(i, e)[0] == s[0]);
        assert(s.update(i, e).drop_first() =~= s.drop_first().update(i - 1, e));
        lemma_lookup_update(s.drop_first(), i - 1, e, k);
    }
}

/// Removing entry `i` empties the lookup of its key and leaves every other
/// lookup unchanged.
pub proof fn lemma_lookup_remove_entry(s: Seq<IndexEntry>, i: int, k: Seq<char>)
    requires
        distinct_keys(s),
        0 <= i < s.len(),
    ensures
        lookup_at(s.remove(i), k) == if k == s[i].track@ {
            Seq::<int>::empty()
        } else {
            lookup_at(s, k)
        },
        distinct_keys(s.remove(i)),
    decreases s.len(),
{
    if i == 0 {
        assert(s.remove(0) =~= s.drop_first());
        if k == s[0].track@ {
            lemma_lookup_absent(s.drop_first(), k);
        }
    } else {
        assert(s.remove(i)[0] == s[0]);
        assert(s.remove(i).drop_first() =~= s.drop_first().remove(i - 1));
        lemma_lookup_remove_entry(s.drop_first(), i - 1, k);
    }
}

/// If two entry lists agree on keys pointwise and the second's position
/// lists are the shifted images of the first's, every lookup shifts too.
pub proof fn lemma_lookup_shifted(s: Seq<IndexEntry>, s2: Seq<IndexEntry>, pos: int, k: Seq<char>)
    requires
        s.len() == s2.len(),
        forall|i: int| 0 <= i < s.len() ==> #[trigger] s2[i].track@ == s[i].track@,
        forall|i: int| 0 <= i < s.len()
            ==> pos_ints(#[trigger] s2[i].positions@) == shift_down(pos_ints(s[i].positions@), pos),
    ensures
        lookup_at(s2, k) == shift_down(lookup_at(s, k), pos),
    decreases s.len(),
{
    if s.len() == 0 {
        assert(shift_down(Seq::empty(), pos) =~= Seq::<int>::empty());
    } else if s[0].track@ == k {
        assert(s2[0].track@ == k);
    } else {
        assert(s.drop_first().len() == s2.drop_first().len());
        assert(forall|i: int| 0 <= i < s.drop_first().len()
            ==> #[trigger] s2.drop_first()[i].track@ == s.drop_first()[i].track@);
        assert(forall|i: int| 0 <= i < s.drop_first().len()
            ==> pos_ints(#[trigger] s2.drop_first()[i].positions@)
                == shift_down(pos_ints(s.drop_first()[i].positions@), pos));
        lemma_lookup_shifted(s.drop_first(), s2.drop_first(), pos, k);
    }
}

/// The index of `pos` within a vector of positions, if it occurs there.
fn find_pos(v: &Vec<usize>, pos: usize) -> (r: Option<usize>)
    ensures
        match r {
            Some(j) => j < v@.len() && v@[j as int] == pos,
            None => !pos_ints(v@).contains(pos as int),
        },
{
    let n = v.len();
    let mut j: usize = 0;
    while j < n
        invariant
            0 <= j <= n,
            n == v@.len(),
            forall|i: int| 0 <= i < j ==> v@[i] != pos,
        decreases n - j,
    {
        if v[j] == pos {
            return Some(j);
        }
        j = j + 1;
    }
    proof {
        if pos_ints(v@).contains(pos as int) {
            let i = choose|i: int| 0 <= i < pos_ints(v@).len() && pos_ints(v@)[i] == pos as int;
            assert(v@[i] == pos);
        }
    }
    None
}

/// The index of an indexed track collection: for every track of the owning
/// sequence, the ascending list of positions at which it occurs.
#[derive(Debug)]
pub struct PositionIndex {
    pub entries: Vec<IndexEntry>,
}

impl PositionIndex {
    /// The positions recorded for `k`; empty when `k` is absent.
    pub open spec fn lookup(self, k: Seq<char>) -> Seq<int> {
        lookup_at(self.entries@, k)
    }

    /// Structural well-formedness: keys are distinct and every list is
    /// non-empty and strictly ascending.
    pub open spec fn wf(self) -> bool {
        &&& distinct_keys(self.entries@)
        &&& forall|i: int| 0 <= i < self.entries@.len() ==> {
            let l = pos_ints(#[trigger] self.entries@[i].positions@);
            l.len() > 0 && ascending(l)
        }
    }

    /// Every recorded position lies below `n`.
    pub open spec fn bounded(self, n: int) -> bool {
        forall|i: int| 0 <= i < self.entries@.len()
            ==> all_below(pos_ints(#[trigger] self.entries@[i].positions@), n)
    }

    /// A well-formed index records positions below `n` exactly when every
    /// lookup stays below `n`.
    pub proof fn lemma_bounded_iff(self, n: int)
        requires
            self.wf(),
        ensures
            self.bounded(n) <==> forall|k: Seq<char>| all_below(#[trigger] self.lookup(k), n),
    {
        if self.bounded(n) {
            assert forall|k: Seq<char>| all_below(#[trigger] self.lookup(k), n) by {
                if exists|i: int| 0 <= i < self.entries@.len() && self.entries@[i].track@ == k {
                    let i = choose|i: int| 0 <= i < self.entries@.len()
                        && self.entries@[i].track@ == k;
                    lemma_lookup_found(self.entries@, i, k);
                } else {
                    lemma_lookup_absent(self.entries@, k);
                }
            }
        }
        if forall|k: Seq<char>| all_below(#[trigger] self.lookup(k), n) {
            assert forall|i: int| 0 <= i < self.entries@.len()
                implies all_below(pos_ints(#[trigger] self.entries@[i].positions@), n) by {
                let k = self.entries@[i].track@;
                lemma_lookup_found(self.entries@, i, k);
                assert(all_below(self.lookup(k), n));
            }
        }
    }

    /// An empty index: no key, no position.
    pub fn empty() -> (r: Self)
        ensures
            r.wf(),
            forall|n: int| r.bounded(n),
            forall|k: Seq<char>| #[trigger] r.lookup(k) == Seq::<int>::empty(),
    {
        let r = PositionIndex { entries: Vec::new() };
        proof {
            assert forall|k: Seq<char>| #[trigger] r.lookup(k) == Seq::<int>::empty() by {
                lemma_lookup_absent(r.entries@, k);
            }
        }
        r
    }

    /// The index of the entry carrying `t`, if any.
    fn find_key(&self, t: &Track) -> (r: Option<usize>)
        requires
            self.wf(),
        ensures
            match r {
                Some(i) => i < self.entries@.len() && self.entries@[i as int].track@ == t@
                    && self.lookup(t@) == pos_ints(self.entries@[i as int].positions@),
                None => self.lookup(t@) == Seq::<int>::empty(),
            },
    {
        let n = self.entries.len();
        let mut i: usize = 0;
        while i < n
            invariant
                0 <= i <= n,
                n == self.entries@.len(),
                self.wf(),
                forall|j: int| 0 <= j < i ==> self.entries@[j].track@ != t@,
            decreases n - i,
        {
            if self.entries[i].track.same_as(t) {
                proof {
                    lemma_lookup_found(self.entries@, i as int, t@);
                }
                return Some(i);
            }
            i = i + 1;
        }
        proof {
            lemma_lookup_absent(self.entries@, t@);
        }
        None
    }

    /// Whether any position is recorded for `t`.
    pub fn contains_key(&self, t: &Track) -> (r: bool)
        requires
            self.wf(),
        ensures
            r == (self.lookup(t@).len() > 0),
    {
        match self.find_key(t) {
            Some(i) => {
                proof {
                    assert(pos_ints(self.entries@[i as int].positions@).len() > 0);
                }
                true
            },
            None => false,
        }
    }

    /// The ascending positions recorded for `t`, if any.
    pub fn positions_of<'a>(&'a self, t: &Track) -> (r: Option<&'a Vec<usize>>)
        requires
            self.wf(),
        ensures
            match r {
                Some(v) => pos_ints(v@) == self.lookup(t@) && v@.len() > 0,
                None => self.lookup(t@) == Seq::<int>::empty(),
            },
    {
        match self.find_key(t) {
            Some(i) => Some(&self.entries[i].positions),
            None => None,
        }
    }

    /// Forget the occurrence of `t` at `pos` and realign every recorded
    /// position with the owning sequence, which has lost its element at
    /// `pos`: every position above `pos` moves down by one, in every list of
    /// the index. A track whose last occurrence disappears leaves the index.
    pub fn remove(&mut self, t: &Track, pos: usize)
        requires
            old(self).wf(),
            old(self).lookup(t@).contains(pos as int),
            forall|k: Seq<char>| k != t@
                ==> !(#[trigger] old(self).lookup(k)).contains(pos as int),
        ensures
            final(self).wf(),
            forall|k: Seq<char>| #[trigger] final(self).lookup(k)
                == after_remove(old(self).lookup(k), pos as int),
            forall|n: int| old(self).bounded(n) && (pos as int) < n
                ==> final(self).bounded(n - 1),
    {
        let ghost s0 = self.entries@;
        let ei = match self.find_key(t) {
            Some(i) => i,
            None => {
                proof {
                    assert(false);
                }
                unreached()
            },
        };
        let j = match find_pos(&self.entries[ei].positions, pos) {
            Some(j) => j,
            None => {
                proof {
                    assert(false);
                }
                unreached()
            },
        };
        let ghost tl = pos_ints(s0[ei as int].positions@);

        // First pass: take `pos` out of the list recorded for `t`; drop the
        // whole entry when that list becomes empty.
        if self.entries[ei].positions.len() == 1 {
            self.entries.remove(ei);
        } else {
            let tk = self.entries[ei].track.clone();
            let mut lst = self.entries[ei].positions.clone();
            lst.remove(j);
            self.entries.set(ei, IndexEntry { track: tk, positions: lst });
        }
        let ghost s_a = self.entries@;
        proof {
            lemma_remove_at_is_drop_pos(tl, j as int);
            assert(pos_ints(s0[ei as int].positions@.remove(j as int)) =~= tl.remove(j as int));
            assert forall|k: Seq<char>| #[trigger] lookup_at(s_a, k)
                == drop_pos(lookup_at(s0, k), pos as int)
                && !lookup_at(s_a, k).contains(pos as int) by {
                if k == t@ {
                    if s0[ei as int].positions@.len() == 1 {
                        lemma_lookup_remove_entry(s0, ei as int, k);
                        assert(tl.remove(j as int) =~= Seq::<int>::empty());
                        assert(lookup_at(s_a, k) == Seq::<int>::empty());
                    } else {
                        lemma_lookup_update(s0, ei as int, s_a[ei as int], k);
                        assert(lookup_at(s_a, k) == tl.remove(j as int));
                    }
                    assert(!drop_pos(lookup_at(s0, k), pos as int).contains(pos as int)) by {
                        if drop_pos(lookup_at(s0, k), pos as int).contains(pos as int) {
                            let i = choose|i: int|
                                0 <= i < drop_pos(lookup_at(s0, k), pos as int).len()
                                && drop_pos(lookup_at(s0, k), pos as int)[i] == pos as int;
                            lookup_at(s0, k).lemma_filter_pred(|p: int| p != pos as int, i);
                        }
                    }
                } else {
                    if s0[ei as int].positions@.len() == 1 {
                        lemma_lookup_remove_entry(s0, ei as int, k);
                    } else {
                        lemma_lookup_update(s0, ei as int, s_a[ei as int], k);
                    }
                    assert(!old(self).lookup(k).contains(pos as int));
                    lemma_drop_pos_absent(lookup_at(s0, k), pos as int);
                }
            }
            // Well-formedness after the first pass.
            assert(self.wf()) by {
                if s0[ei as int].positions@.len() == 1 {
                    lemma_lookup_remove_entry(s0, ei as int, t@);
                    assert(forall|i: int| 0 <= i < s_a.len()
                        ==> #[trigger] s_a[i] == s0.remove(ei as int)[i]);
                } else {
                    lemma_lookup_update(s0, ei as int, s_a[ei as int], t@);
                    assert forall|i: int| 0 <= i < s_a.len() implies {
                        let l = pos_ints(#[trigger] s_a[i].positions@);
                        l.len() > 0 && ascending(l)
                    } by {
                        if i == ei as int {
                            assert(pos_ints(s_a[i].positions@) == tl.remove(j as int));
                            assert(ascending(tl.remove(j as int))) by {
                                assert(forall|a: int| 0 <= a < tl.remove(j as int).len()
                                    ==> #[trigger] tl.remove(j as int)[a]
                                        == if a < j as int { tl[a] } else { tl[a + 1] });
                            }
                        }
                    }
                }
            }
            // Each remaining list is free of `pos`.
            assert forall|i: int| 0 <= i < s_a.len()
                implies !pos_ints(#[trigger] s_a[i].positions@).contains(pos as int) by {
                lemma_lookup_found(s_a, i, s_a[i].track@);
                assert(!lookup_at(s_a, s_a[i].track@).contains(pos as int));
            }
        }

        // Second pass: shift every recorded position above `pos` down by one.
        let n_entries = self.entries.len();
        let mut a: usize = 0;
        while a < n_entries
            invariant
                n_entries == self.entries@.len(),
                s_a.len() == n_entries,
                0 <= a <= n_entries,
                forall|i: int| 0 <= i < n_entries
                    ==> #[trigger] self.entries@[i].track@ == s_a[i].track@,
                forall|i: int| 0 <= i < a
                    ==> pos_ints(#[trigger] self.entries@[i].positions@)
                        == shift_down(pos_ints(s_a[i].positions@), pos as int),
                forall|i: int| a <= i < n_entries
                    ==> #[trigger] self.entries@[i] == s_a[i],
            decreases n_entries - a,
        {
            let tk = self.entries[a].track.clone();
            let mut lst = self.entries[a].positions.clone();
            let m = lst.len();
            let mut b: usize = 0;
            while b < m
                invariant
                    m == lst@.len(),
                    lst@.len() == s_a[a as int].positions@.len(),
                    0 <= b <= m,
                    a < n_entries,
                    n_entries == s_a.len(),
                    forall|i: int| 0 <= i < b
                        ==> #[trigger] lst@[i] as int == (
                            if s_a[a as int].positions@[i] as int > pos as int {
                                s_a[a as int].positions@[i] - 1
                            } else {
                                s_a[a as int].positions@[i] as int
                            }),
                    forall|i: int| b <= i < m
                        ==> #[trigger] lst@[i] == s_a[a as int].positions@[i],
                decreases m - b,
            {
                let p = lst[b];
                if p > pos {
                    lst.set(b, p - 1);
                }
                b = b + 1;
            }
            proof {
                assert(pos_ints(lst@) =~= shift_down(pos_ints(s_a[a as int].positions@), pos as int));
            }
            self.entries.set(a, IndexEntry { track: tk, positions: lst });
            a = a + 1;
        }

        proof {
            let s_b = self.entries@;
            assert forall|k: Seq<char>| #[trigger] lookup_at(s_b, k)
                == shift_down(lookup_at(s_a, k), pos as int) by {
                lemma_lookup_shifted(s_a, s_b, pos as int, k);
            }
            assert forall|k: Seq<char>| #[trigger] self.lookup(k)
                == after_remove(old(self).lookup(k), pos as int) by {
                assert(lookup_at(s_b, k) == shift_down(lookup_at(s_a, k), pos as int));
                assert(lookup_at(s_a, k) == drop_pos(lookup_at(s0, k), pos as int));
            }
            // Well-formedness of the shifted index.
            assert(distinct_keys(s_b));
            assert forall|i: int| 0 <= i < s_b.len() implies {
                let l = pos_ints(#[trigger] s_b[i].positions@);
                l.len() > 0 && ascending(l)
            } by {
                assert(pos_ints(s_b[i].positions@)
                    == shift_down(pos_ints(s_a[i].positions@), pos as int));
                lemma_shift_down_ascending(pos_ints(s_a[i].positions@), pos as int);
            }
            // Bounds.
            assert forall|n: int| old(self).bounded(n) && (pos as int) < n
                implies self.bounded(n - 1) by {
                old(self).lemma_bounded_iff(n);
                self.lemma_bounded_iff(n - 1);
                assert forall|k: Seq<char>| all_below(#[trigger] self.lookup(k), n - 1) by {
                    assert(all_below(old(self).lookup(k), n));
                    lemma_after_remove_bound(old(self).lookup(k), pos as int, n);
                }
            }
        }
    }

    /// Record that `t` now also occurs at `pos`, the new end of the owning
    /// sequence.
    pub fn insert_at_end(&mut self, t: &Track, pos: usize)
        requires
            old(self).wf(),
            old(self).bounded(pos as int),
        ensures
            final(self).wf(),
            final(self).bounded(pos as int + 1),
            forall|k: Seq<char>| #[trigger] final(self).lookup(k) == if k == t@ {
                old(self).lookup(k).push(pos as int)
            } else {
                old(self).lookup(k)
            },
    {
        let found = self.find_key(t);
        match found {
            Some(i) => {
                proof {
                    assert(all_below(pos_ints(self.entries@[i as int].positions@), pos as int));
                }
                let mut lst = self.entries[i].positions.clone();
                let tk = self.entries[i].track.clone();
                lst.push(pos);
                let ghost old_entries = self.entries@;
                let e = IndexEntry { track: tk, positions: lst };
                self.entries.set(i, e);
                proof {
                    let ghost oe = old(self).entries@;
                    assert(e.positions@ =~= oe[i as int].positions@.push(pos));
                    assert(pos_ints(e.positions@)
                        =~= pos_ints(oe[i as int].positions@).push(pos as int));
                    assert forall|k: Seq<char>| #[trigger] self.lookup(k) == if k == t@ {
                        old(self).lookup(k).push(pos as int)
                    } else {
                        old(self).lookup(k)
                    } by {
                        lemma_lookup_update(oe, i as int, e, k);
                    }
                    assert(ascending(pos_ints(e.positions@)));
                    assert(self.wf());
                }
            },
            None => {
                let mut lst: Vec<usize> = Vec::new();
                lst.push(pos);
                let e = IndexEntry { track: t.clone(), positions: lst };
                let ghost oe = self.entries@;
                proof {
                    assert forall|j: int| 0 <= j < oe.len() implies oe[j].track@ != e.track@ by {
                        if oe[j].track@ == t@ {
                            lemma_lookup_found(oe, j, t@);
                        }
                    }
                }
                self.entries.push(e);
                proof {
                    assert(pos_ints(e.positions@) =~= Seq::<int>::empty().push(pos as int));
                    assert forall|k: Seq<char>| #[trigger] self.lookup(k) == if k == t@ {
                        old(self).lookup(k).push(pos as int)
                    } else {
                        old(self).lookup(k)
                    } by {
                        lemma_lookup_push(oe, e, k);
                    }
                    assert(distinct_keys(self.entries@)) by {
                        assert(forall|j: int| 0 <= j < oe.len()
                            ==> #[trigger] self.entries@[j].track@ == oe[j].track@);
                    }
                    assert(self.wf());
                }
            },
        }
    }
}

} // verus!
