use vstd::prelude::*;
use crate::index::{all_below, ascending, occurrences};
use crate::track::Track;

verus! {

// ---------------------------------------------------------------------------
// Bulk-rename edits: pairs of an old track and a replacement payload.
// ---------------------------------------------------------------------------

/// The payload of the first edit whose old track is `k`, if any.
pub open spec fn rename_of<P>(edits: Seq<(Track, P)>, k: Seq<char>) -> Option<P>
    decreases edits.len(),
{
    if edits.len() == 0 {
        None
    } else if edits[0].0@ == k {
        Some(edits[0].1)
    } else {
        rename_of(edits.drop_first(), k)
    }
}

/// How an appended edit changes the first-match lookup.
pub proof fn lemma_rename_of_push<P>(edits: Seq<(Track, P)>, ed: (Track, P), k: Seq<char>)
    ensures
        rename_of(edits.push(ed), k) == if rename_of(edits, k).is_some() {
            rename_of(edits, k)
        } else if ed.0@ == k {
            Some(ed.1)
        } else {
            None::<P>
        },
    decreases edits.len(),
{
    if edits.len() == 0 {
        assert(edits.push(ed)[0] == ed);
        if ed.0@ != k {
            assert(edits.push(ed).drop_first() =~= Seq::<(Track, P)>::empty());
            assert(rename_of(Seq::<(Track, P)>::empty(), k) == None::<P>);
        }
    } else {
        assert(edits.push(ed)[0] == edits[0]);
        assert(edits.push(ed).drop_first() =~= edits.drop_first().push(ed));
        lemma_rename_of_push(edits.drop_first(), ed, k);
    }
}

/// An edit for `k` exists exactly when some pair carries it.
pub proof fn lemma_rename_of_present<P>(edits: Seq<(Track, P)>, k: Seq<char>)
    ensures
        rename_of(edits, k).is_some()
            <==> exists|j: int| 0 <= j < edits.len() && (#[trigger] edits[j]).0@ == k,
    decreases edits.len(),
{
    if edits.len() > 0 {
        lemma_rename_of_present(edits.drop_first(), k);
        if edits[0].0@ == k {
        } else {
            if rename_of(edits, k).is_some() {
                let j = choose|j: int| 0 <= j < edits.drop_first().len()
                    && edits.drop_first()[j].0@ == k;
                assert(edits[j + 1].0@ == k);
            }
            if exists|j: int| 0 <= j < edits.len() && (#[trigger] edits[j]).0@ == k {
                let j = choose|j: int| 0 <= j < edits.len() && edits[j].0@ == k;
                assert(j > 0);
                assert(edits.drop_first()[j - 1].0@ == k);
            }
        }
    }
}

/// With distinct old tracks, the looked-up payload is the one of the pair
/// that carries the key.
pub proof fn lemma_rename_of_found<P>(edits: Seq<(Track, P)>, k: Seq<char>)
    requires
        forall|i: int, j: int| 0 <= i < j < edits.len()
            ==> (#[trigger] edits[i]).0@ != (#[trigger] edits[j]).0@,
    ensures
        match rename_of(edits, k) {
            Some(p) => exists|j: int| 0 <= j < edits.len() && (#[trigger] edits[j]).0@ == k
                && edits[j].1 == p,
            None => forall|j: int| 0 <= j < edits.len() ==> (#[trigger] edits[j]).0@ != k,
        },
    decreases edits.len(),
{
    lemma_rename_of_present(edits, k);
    if edits.len() > 0 && edits[0].0@ != k {
        assert(forall|i: int| 0 <= i < edits.drop_first().len()
            ==> #[trigger] edits.drop_first()[i] == edits[i + 1]);
        lemma_rename_of_found(edits.drop_first(), k);
        if rename_of(edits, k).is_some() {
            let j = choose|j: int| 0 <= j < edits.drop_first().len()
                && (#[trigger] edits.drop_first()[j]).0@ == k
                && edits.drop_first()[j].1 == rename_of(edits, k).unwrap();
            assert(edits[j + 1].0@ == k && edits[j + 1].1 == rename_of(edits, k).unwrap());
        }
    }
}

/// Two edit sets that hold the same pairs, each with distinct old tracks,
/// rename every key alike: the outcome of a bulk rename does not depend on
/// the order in which the edits are walked.
pub proof fn lemma_rename_of_reordered<P>(e1: Seq<(Track, P)>, e2: Seq<(Track, P)>, k: Seq<char>)
    requires
        forall|i: int, j: int| 0 <= i < j < e1.len()
            ==> (#[trigger] e1[i]).0@ != (#[trigger] e1[j]).0@,
        forall|i: int, j: int| 0 <= i < j < e2.len()
            ==> (#[trigger] e2[i]).0@ != (#[trigger] e2[j]).0@,
        forall|j: int| 0 <= j < e1.len() ==> e2.contains(#[trigger] e1[j]),
        forall|j: int| 0 <= j < e2.len() ==> e1.contains(#[trigger] e2[j]),
    ensures
        rename_of(e1, k) == rename_of(e2, k),
{
    lemma_rename_of_found(e1, k);
    lemma_rename_of_found(e2, k);
    match rename_of(e1, k) {
        Some(p) => {
            let j1 = choose|j: int| 0 <= j < e1.len() && (#[trigger] e1[j]).0@ == k
                && e1[j].1 == p;
            assert(e2.contains(e1[j1]));
            let j2 = choose|j: int| 0 <= j < e2.len() && e2[j] == e1[j1];
            assert(e2[j2].0@ == k);
            match rename_of(e2, k) {
                Some(p2) => {
                    let w = choose|j: int| 0 <= j < e2.len() && (#[trigger] e2[j]).0@ == k
                        && e2[j].1 == p2;
                    assert(w == j2) by {
                        if w != j2 {
                            assert(e2[w].0@ != e2[j2].0@);
                        }
                    }
                },
                None => {
                    assert(e2[j2].0@ != k);
                },
            }
        },
        None => {
            if rename_of(e2, k).is_some() {
                let j2 = choose|j: int| 0 <= j < e2.len() && (#[trigger] e2[j]).0@ == k
                    && e2[j].1 == rename_of(e2, k).unwrap();
                assert(e1.contains(e2[j2]));
                let j1 = choose|j: int| 0 <= j < e1.len() && e1[j] == e2[j2];
                assert(e1[j1].0@ == k);
            }
        },
    }
}

/// How many keys of `s` have an edit.
pub open spec fn renamed_count<P>(s: Seq<Seq<char>>, edits: Seq<(Track, P)>) -> int
    decreases s.len(),
{
    if s.len() == 0 {
        0
    } else {
        renamed_count(s.drop_last(), edits) + if rename_of(edits, s.last()).is_some() {
            1int
        } else {
            0int
        }
    }
}

/// The count never exceeds the sequence length.
pub proof fn lemma_renamed_count_bound<P>(s: Seq<Seq<char>>, edits: Seq<(Track, P)>)
    ensures
        0 <= renamed_count(s, edits) <= s.len(),
    decreases s.len(),
{
    if s.len() > 0 {
        lemma_renamed_count_bound(s.drop_last(), edits);
    }
}

/// With no edits, nothing counts.
pub proof fn lemma_renamed_count_empty<P>(s: Seq<Seq<char>>, edits: Seq<(Track, P)>)
    requires
        edits.len() == 0,
    ensures
        renamed_count(s, edits) == 0,
    decreases s.len(),
{
    if s.len() > 0 {
        lemma_renamed_count_empty(s.drop_last(), edits);
    }
}

/// Appending an edit with a fresh key adds exactly the occurrences of that
/// key to the count.
pub proof fn lemma_renamed_count_push_edit<P>(
    s: Seq<Seq<char>>,
    edits: Seq<(Track, P)>,
    ed: (Track, P),
)
    requires
        forall|j: int| 0 <= j < edits.len() ==> (#[trigger] edits[j]).0@ != ed.0@,
    ensures
        renamed_count(s, edits.push(ed))
            == renamed_count(s, edits) + occurrences(s, ed.0@).len(),
    decreases s.len(),
{
    if s.len() > 0 {
        lemma_renamed_count_push_edit(s.drop_last(), edits, ed);
        lemma_rename_of_push(edits, ed, s.last());
        if s.last() == ed.0@ {
            lemma_rename_of_present(edits, s.last());
        }
    }
}

// ---------------------------------------------------------------------------
// Record sequences under a key projection.
//
// Both collection kinds order records whose identity is a track key (the
// path's characters); `key` projects a record to that key.
// ---------------------------------------------------------------------------

/// The keys of a record sequence, in order.
pub open spec fn keys_of<T>(s: Seq<T>, key: spec_fn(T) -> Seq<char>) -> Seq<Seq<char>> {
    s.map_values(key)
}

/// The key projection of a sequence whose records are bare keys.
pub open spec fn id_key() -> spec_fn(Seq<char>) -> Seq<char> {
    |k: Seq<char>| k
}

/// Projecting bare keys changes nothing.
pub proof fn lemma_keys_of_id(s: Seq<Seq<char>>)
    ensures
        keys_of(s, id_key()) == s,
{
    assert(keys_of(s, id_key()) =~= s);
}

/// The records whose key differs from `k`, in order.
pub open spec fn remove_key<T>(s: Seq<T>, key: spec_fn(T) -> Seq<char>, k: Seq<char>) -> Seq<T> {
    s.filter(|r: T| key(r) != k)
}

/// The records left when only the first occurrence of every key is kept.
pub open spec fn dedup_first<T>(s: Seq<T>, key: spec_fn(T) -> Seq<char>) -> Seq<T>
    decreases s.len(),
{
    if s.len() == 0 {
        s
    } else {
        let rest = dedup_first(s.drop_last(), key);
        if keys_of(s.drop_last(), key).contains(key(s.last())) {
            rest
        } else {
            rest.push(s.last())
        }
    }
}

/// The ascending positions of the records that repeat an earlier key.
pub open spec fn dup_positions<T>(s: Seq<T>, key: spec_fn(T) -> Seq<char>) -> Seq<int>
    decreases s.len(),
{
    if s.len() == 0 {
        Seq::empty()
    } else {
        let rest = dup_positions(s.drop_last(), key);
        if keys_of(s.drop_last(), key).contains(key(s.last())) {
            rest.push(s.len() - 1)
        } else {
            rest
        }
    }
}

/// The sequence left after removing the positions of `ps`, highest first, so
/// that no removal disturbs the positions still to be removed.
pub open spec fn remove_desc<T>(s: Seq<T>, ps: Seq<int>) -> Seq<T>
    decreases ps.len(),
{
    if ps.len() == 0 {
        s
    } else {
        remove_desc(s.remove(ps.last()), ps.drop_last())
    }
}

/// In a strictly ascending list, each element leaves room for those after it.
pub proof fn lemma_ascending_gap(l: Seq<int>, i: int)
    requires
        ascending(l),
        0 <= i < l.len(),
    ensures
        l[i] <= l[l.len() - 1] - (l.len() - 1 - i),
    decreases l.len() - i,
{
    if i < l.len() - 1 {
        lemma_ascending_gap(l, i + 1);
        assert(l[i] < l[i + 1]);
    }
}

/// Removals entirely below the last element leave that element in place.
pub proof fn lemma_remove_desc_last_intact<T>(s: Seq<T>, ps: Seq<int>)
    requires
        s.len() >= 1,
        ascending(ps),
        all_below(ps, s.len() - 1),
    ensures
        remove_desc(s, ps) == remove_desc(s.drop_last(), ps).push(s.last()),
    decreases ps.len(),
{
    if ps.len() == 0 {
        assert(remove_desc(s.drop_last(), ps).push(s.last()) =~= s);
    } else {
        let p = ps.last();
        let s2 = s.remove(p);
        assert(s2.len() == s.len() - 1 >= 1);
        assert(s2.last() == s.last()) by {
            assert(s2[s.len() - 2] == s[s.len() - 1]);
        }
        assert(all_below(ps.drop_last(), s2.len() - 1)) by {
            assert forall|i: int| 0 <= i < ps.drop_last().len()
                implies 0 <= #[trigger] ps.drop_last()[i] < s2.len() - 1 by {
                assert(ps[i] < ps[ps.len() - 1]);
            }
        }
        lemma_remove_desc_last_intact(s2, ps.drop_last());
        assert(s2.drop_last() =~= s.drop_last().remove(p));
    }
}

/// Removing, highest first, every position at which `k` occurs removes
/// exactly the records keyed by `k`.
pub proof fn lemma_remove_desc_occurrences<T>(s: Seq<T>, key: spec_fn(T) -> Seq<char>, k: Seq<char>)
    ensures
        remove_desc(s, occurrences(keys_of(s, key), k)) == remove_key(s, key, k),
    decreases s.len(),
{
    reveal(Seq::filter);
    let keys = keys_of(s, key);
    let occ = occurrences(keys, k);
    crate::index::lemma_occurrences(keys, k);
    if s.len() == 0 {
        assert(occ.len() == 0);
    } else {
        let dl = s.drop_last();
        assert(keys.drop_last() =~= keys_of(dl, key));
        lemma_remove_desc_occurrences(dl, key, k);
        crate::index::lemma_occurrences(keys_of(dl, key), k);
        if key(s.last()) == k {
            assert(keys.last() == k);
            assert(occ == occurrences(keys_of(dl, key), k).push(s.len() - 1));
            assert(occ.last() == s.len() - 1);
            assert(s.remove(s.len() - 1) =~= dl);
            assert(occ.drop_last() =~= occurrences(keys_of(dl, key), k));
            assert(remove_desc(s, occ) == remove_desc(dl, occurrences(keys_of(dl, key), k)));
        } else {
            assert(keys.last() != k);
            assert(occ == occurrences(keys_of(dl, key), k));
            assert(all_below(occ, s.len() - 1)) by {
                assert(all_below(occurrences(keys_of(dl, key), k), keys_of(dl, key).len() as int));
            }
            lemma_remove_desc_last_intact(s, occ);
        }
    }
}

/// The duplicate positions are ascending and lie within the sequence, and
/// exactly the non-duplicates survive the first-occurrence dedup.
pub proof fn lemma_dup_positions_props<T>(s: Seq<T>, key: spec_fn(T) -> Seq<char>)
    ensures
        ascending(dup_positions(s, key)),
        all_below(dup_positions(s, key), s.len() as int),
        dedup_first(s, key).len() + dup_positions(s, key).len() == s.len(),
    decreases s.len(),
{
    if s.len() > 0 {
        lemma_dup_positions_props(s.drop_last(), key);
        let rest = dup_positions(s.drop_last(), key);
        assert(all_below(rest, s.len() - 1));
        if keys_of(s.drop_last(), key).contains(key(s.last())) {
            assert(ascending(rest.push(s.len() - 1))) by {
                assert(forall|i: int| 0 <= i < rest.len() ==> #[trigger] rest[i] < s.len() - 1);
            }
        }
    }
}

/// Removing the duplicate positions, highest first, is the first-occurrence
/// dedup.
pub proof fn lemma_remove_desc_dedup<T>(s: Seq<T>, key: spec_fn(T) -> Seq<char>)
    ensures
        remove_desc(s, dup_positions(s, key)) == dedup_first(s, key),
    decreases s.len(),
{
    if s.len() > 0 {
        let dl = s.drop_last();
        let dp_dl = dup_positions(dl, key);
        lemma_remove_desc_dedup(dl, key);
        lemma_dup_positions_props(dl, key);
        if keys_of(dl, key).contains(key(s.last())) {
            assert(dup_positions(s, key) == dp_dl.push(s.len() - 1));
            assert(s.remove(s.len() - 1) =~= dl);
            assert(dp_dl.push(s.len() - 1).drop_last() =~= dp_dl);
        } else {
            assert(dup_positions(s, key) == dp_dl);
            lemma_remove_desc_last_intact(s, dp_dl);
        }
    }
}

/// A position repeats an earlier key exactly when it is not the first
/// occurrence of its own key.
pub proof fn lemma_prefix_contains_iff_first(keys: Seq<Seq<char>>, i: int)
    requires
        0 <= i < keys.len(),
    ensures
        occurrences(keys, keys[i]).len() > 0,
        keys.take(i).contains(keys[i]) <==> occurrences(keys, keys[i]).first() != i,
{
    let k = keys[i];
    let occ = occurrences(keys, k);
    crate::index::lemma_occurrences(keys, k);
    assert(occ.contains(i));
    let w = choose|w: int| 0 <= w < occ.len() && occ[w] == i;
    assert(occ.first() <= i) by {
        if w > 0 {
            assert(occ[0] < occ[w]);
        }
    }
    if keys.take(i).contains(k) {
        let j = choose|j: int| 0 <= j < i && keys.take(i)[j] == k;
        assert(keys[j] == k);
        assert(occ.contains(j));
        let wj = choose|wj: int| 0 <= wj < occ.len() && occ[wj] == j;
        assert(occ.first() <= j) by {
            if wj > 0 {
                assert(occ[0] < occ[wj]);
            }
        }
    }
    if occ.first() != i {
        assert(occ.first() < i);
        assert(keys[occ.first()] == k) by {
            assert(keys[occ[0]] == k);
        }
        assert(keys.take(i)[occ.first()] == k);
        assert(keys.take(i).contains(k));
    }
}

/// The dedup keeps each key exactly once, so running it again changes
/// nothing: its own duplicate set is empty.
pub proof fn lemma_dedup_first_idempotent<T>(s: Seq<T>, key: spec_fn(T) -> Seq<char>)
    ensures
        dup_positions(dedup_first(s, key), key) == Seq::<int>::empty(),
        dedup_first(dedup_first(s, key), key) == dedup_first(s, key),
{
    let d = dedup_first(s, key);
    lemma_dedup_keys_distinct(s, key);
    lemma_no_dups_fixpoint(d, key);
}

/// Every key of the dedup comes from the original sequence.
pub proof fn lemma_dedup_keys_subset<T>(s: Seq<T>, key: spec_fn(T) -> Seq<char>, k: Seq<char>)
    ensures
        keys_of(dedup_first(s, key), key).contains(k) ==> keys_of(s, key).contains(k),
    decreases s.len(),
{
    if s.len() > 0 {
        let dl = s.drop_last();
        lemma_dedup_keys_subset(dl, key, k);
        let d = dedup_first(s, key);
        let ddl = dedup_first(dl, key);
        if keys_of(d, key).contains(k) {
            let i = choose|i: int| 0 <= i < keys_of(d, key).len() && keys_of(d, key)[i] == k;
            if keys_of(dl, key).contains(key(s.last())) {
                assert(keys_of(ddl, key).contains(k)) by {
                    assert(keys_of(ddl, key)[i] == k);
                }
            } else {
                if i < d.len() - 1 {
                    assert(keys_of(ddl, key)[i] == k);
                    assert(keys_of(ddl, key).contains(k));
                } else {
                    assert(key(d[i]) == key(s.last()));
                    assert(keys_of(s, key)[s.len() - 1] == k);
                }
            }
            if keys_of(dl, key).contains(k) {
                let j = choose|j: int| 0 <= j < keys_of(dl, key).len() && keys_of(dl, key)[j] == k;
                assert(keys_of(s, key)[j] == k);
            }
        }
    }
}

/// The keys of the dedup are pairwise distinct.
pub proof fn lemma_dedup_keys_distinct<T>(s: Seq<T>, key: spec_fn(T) -> Seq<char>)
    ensures
        forall|i: int, j: int| 0 <= i < j < dedup_first(s, key).len()
            ==> key(#[trigger] dedup_first(s, key)[i]) != key(#[trigger] dedup_first(s, key)[j]),
    decreases s.len(),
{
    if s.len() > 0 {
        let dl = s.drop_last();
        lemma_dedup_keys_distinct(dl, key);
        let d = dedup_first(s, key);
        let ddl = dedup_first(dl, key);
        if !keys_of(dl, key).contains(key(s.last())) {
            assert forall|i: int, j: int| 0 <= i < j < d.len()
                implies key(#[trigger] d[i]) != key(#[trigger] d[j]) by {
                if j < d.len() - 1 {
                    assert(d[i] == ddl[i] && d[j] == ddl[j]);
                } else {
                    assert(d[i] == ddl[i]);
                    lemma_dedup_keys_subset(dl, key, key(ddl[i]));
                    assert(keys_of(ddl, key)[i] == key(ddl[i]));
                    assert(keys_of(ddl, key).contains(key(ddl[i])));
                    assert(key(d[j]) == key(s.last()));
                }
            }
        }
    }
}

/// A position is a duplicate exactly when an earlier record carries its key.
pub proof fn lemma_dup_positions_contains<T>(s: Seq<T>, key: spec_fn(T) -> Seq<char>, p: int)
    ensures
        dup_positions(s, key).contains(p)
            <==> (0 <= p < s.len() && keys_of(s.take(p), key).contains(key(s[p]))),
    decreases s.len(),
{
    lemma_dup_positions_props(s, key);
    if s.len() > 0 {
        lemma_dup_positions_contains(s.drop_last(), key, p);
        let rest = dup_positions(s.drop_last(), key);
        let dp = dup_positions(s, key);
        if 0 <= p < s.len() - 1 {
            assert(s.drop_last()[p] == s[p]);
            assert(s.drop_last().take(p) =~= s.take(p));
            assert(rest.contains(p) <==> dp.contains(p)) by {
                if keys_of(s.drop_last(), key).contains(key(s.last())) {
                    if dp.contains(p) {
                        let w = choose|w: int| 0 <= w < dp.len() && dp[w] == p;
                        if w < dp.len() - 1 {
                            assert(rest[w] == p);
                        }
                    }
                    if rest.contains(p) {
                        let w = choose|w: int| 0 <= w < rest.len() && rest[w] == p;
                        assert(dp[w] == p);
                    }
                } else {
                }
            }
        } else if p == s.len() - 1 {
            assert(s.take(p) =~= s.drop_last());
            if keys_of(s.drop_last(), key).contains(key(s.last())) {
                assert(dp[dp.len() - 1] == p);
                assert(dp.contains(p));
                assert(keys_of(s.take(p), key).contains(key(s[p])));
            } else {
                if dp.contains(p) {
                    let w = choose|w: int| 0 <= w < dp.len() && dp[w] == p;
                    assert(all_below(rest, s.len() - 1));
                    assert(rest[w] < s.len() - 1);
                }
            }
        } else {
            if dp.contains(p) {
                let w = choose|w: int| 0 <= w < dp.len() && dp[w] == p;
                assert(all_below(dp, s.len() as int));
            }
        }
    }
}

/// Every key of the original sequence survives into the dedup.
pub proof fn lemma_dedup_keys_complete<T>(s: Seq<T>, key: spec_fn(T) -> Seq<char>, k: Seq<char>)
    ensures
        keys_of(s, key).contains(k) ==> keys_of(dedup_first(s, key), key).contains(k),
    decreases s.len(),
{
    if s.len() > 0 && keys_of(s, key).contains(k) {
        let dl = s.drop_last();
        lemma_dedup_keys_complete(dl, key, k);
        let d = dedup_first(s, key);
        let ddl = dedup_first(dl, key);
        let i = choose|i: int| 0 <= i < keys_of(s, key).len() && keys_of(s, key)[i] == k;
        if i < s.len() - 1 {
            assert(keys_of(dl, key)[i] == k);
            assert(keys_of(dl, key).contains(k));
            let w = choose|w: int| 0 <= w < keys_of(ddl, key).len() && keys_of(ddl, key)[w] == k;
            assert(keys_of(d, key)[w] == k);
            assert(keys_of(d, key).contains(k));
        } else {
            assert(key(s.last()) == k);
            if keys_of(dl, key).contains(key(s.last())) {
                let w = choose|w: int| 0 <= w < keys_of(ddl, key).len()
                    && keys_of(ddl, key)[w] == k;
                assert(keys_of(d, key)[w] == k);
                assert(keys_of(d, key).contains(k));
            } else {
                assert(keys_of(d, key)[d.len() - 1] == k);
                assert(keys_of(d, key).contains(k));
            }
        }
    }
}

/// A sequence without repeated keys has no duplicate positions and is its
/// own dedup.
pub proof fn lemma_no_dups_fixpoint<T>(s: Seq<T>, key: spec_fn(T) -> Seq<char>)
    requires
        forall|i: int, j: int| 0 <= i < j < s.len() ==> key(#[trigger] s[i]) != key(#[trigger] s[j]),
    ensures
        dup_positions(s, key) == Seq::<int>::empty(),
        dedup_first(s, key) == s,
    decreases s.len(),
{
    if s.len() > 0 {
        let dl = s.drop_last();
        assert(!keys_of(dl, key).contains(key(s.last()))) by {
            if keys_of(dl, key).contains(key(s.last())) {
                let i = choose|i: int| 0 <= i < keys_of(dl, key).len()
                    && keys_of(dl, key)[i] == key(s.last());
                assert(key(s[i]) == key(s[s.len() - 1]));
            }
        }
        lemma_no_dups_fixpoint(dl, key);
        assert(dedup_first(s, key) =~= s);
    }
}

} // verus!
