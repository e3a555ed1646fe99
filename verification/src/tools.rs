use vstd::prelude::*;
use crate::index::occurrences;
use crate::playcount::{Playcount, entry_key, merged, total_duration, pc_keys};
use crate::playlist::{Playlist, deduped, duplicates, spec_is_history, without_track};
use crate::seqs::dup_positions;
use crate::track::{Track, track_views};

verus! {

/// All playlists carry a consistent index.
pub open spec fn playlists_wf(s: Seq<Playlist>) -> bool {
    forall|i: int| 0 <= i < s.len() ==> (#[trigger] s[i]).wf()
}

/// All playcounts carry a consistent index.
pub open spec fn playcounts_wf(s: Seq<Playcount>) -> bool {
    forall|i: int| 0 <= i < s.len() ==> (#[trigger] s[i]).wf()
}

/// The duplicate occurrences across the playlists that are not histories.
pub open spec fn playlist_dup_total(s: Seq<Playlist>) -> int
    decreases s.len(),
{
    if s.len() == 0 {
        0
    } else {
        playlist_dup_total(s.drop_last()) + if spec_is_history(s.last().spec_name()) {
            0int
        } else {
            duplicates(s.last()@).len() as int
        }
    }
}

/// The duplicate records across the playcounts.
pub open spec fn playcount_dup_total(s: Seq<Playcount>) -> int
    decreases s.len(),
{
    if s.len() == 0 {
        0
    } else {
        playcount_dup_total(s.drop_last()) + dup_positions(s.last()@, entry_key()).len() as int
    }
}

/// A prefix of the duplicate total never exceeds the whole.
proof fn lemma_playlist_dup_total_prefix(s: Seq<Playlist>, i: int)
    requires
        0 <= i <= s.len(),
    ensures
        0 <= playlist_dup_total(s.take(i)) <= playlist_dup_total(s),
    decreases s.len() - i,
{
    lemma_playlist_dup_total_nonneg(s.take(i));
    if i < s.len() {
        lemma_playlist_dup_total_prefix(s, i + 1);
        assert(s.take(i + 1).drop_last() =~= s.take(i));
        lemma_playlist_dup_total_nonneg(s.take(i));
    } else {
        assert(s.take(i) =~= s);
    }
}

proof fn lemma_playlist_dup_total_nonneg(s: Seq<Playlist>)
    ensures
        playlist_dup_total(s) >= 0,
    decreases s.len(),
{
    if s.len() > 0 {
        lemma_playlist_dup_total_nonneg(s.drop_last());
    }
}

proof fn lemma_playcount_dup_total_prefix(s: Seq<Playcount>, i: int)
    requires
        0 <= i <= s.len(),
    ensures
        0 <= playcount_dup_total(s.take(i)) <= playcount_dup_total(s),
    decreases s.len() - i,
{
    lemma_playcount_dup_total_nonneg(s.take(i));
    if i < s.len() {
        lemma_playcount_dup_total_prefix(s, i + 1);
        assert(s.take(i + 1).drop_last() =~= s.take(i));
        lemma_playcount_dup_total_nonneg(s.take(i));
    } else {
        assert(s.take(i) =~= s);
    }
}

proof fn lemma_playcount_dup_total_nonneg(s: Seq<Playcount>)
    ensures
        playcount_dup_total(s) >= 0,
    decreases s.len(),
{
    if s.len() > 0 {
        lemma_playcount_dup_total_nonneg(s.drop_last());
    }
}

/// Removes duplicate tracks from every playlist, histories exempt; returns
/// the number of tracks removed.
pub fn remove_playlist_duplicates(playlists: &mut Vec<Playlist>) -> (r: usize)
    requires
        playlists_wf(old(playlists)@),
        playlist_dup_total(old(playlists)@) <= usize::MAX,
    ensures
        final(playlists)@.len() == old(playlists)@.len(),
        forall|i: int| 0 <= i < old(playlists)@.len() ==> {
            let before = old(playlists)@[i];
            let after = #[trigger] final(playlists)@[i];
            &&& after.wf()
            &&& after.same_backing(before)
            &&& (spec_is_history(before.spec_name()) ==> after == before)
            &&& (!spec_is_history(before.spec_name()) ==> after@ == deduped(before@))
        },
        r == playlist_dup_total(old(playlists)@),
{
    let n = playlists.len();
    let mut total: usize = 0;
    let mut i: usize = 0;
    proof {
        assert(old(playlists)@.take(0) =~= Seq::<Playlist>::empty());
    }
    while i < n
        invariant
            0 <= i <= n,
            n == playlists@.len(),
            playlists@.len() == old(playlists)@.len(),
            playlists_wf(old(playlists)@),
            playlist_dup_total(old(playlists)@) <= usize::MAX,
            forall|j: int| i <= j < n ==> #[trigger] playlists@[j] == old(playlists)@[j],
            forall|j: int| 0 <= j < i ==> {
                let before = old(playlists)@[j];
                let after = #[trigger] playlists@[j];
                &&& after.wf()
                &&& after.same_backing(before)
                &&& (spec_is_history(before.spec_name()) ==> after == before)
                &&& (!spec_is_history(before.spec_name()) ==> after@ == deduped(before@))
            },
            total as int == playlist_dup_total(old(playlists)@.take(i as int)),
        decreases n - i,
    {
        proof {
            lemma_playlist_dup_total_prefix(old(playlists)@, i as int + 1);
            assert(old(playlists)@.take(i as int + 1).drop_last()
                =~= old(playlists)@.take(i as int));
            assert(old(playlists)@.take(i as int + 1).last() == old(playlists)@[i as int]);
        }
        let c = playlists[i].remove_duplicates();
        total = total + c;
        i = i + 1;
    }
    proof {
        assert(old(playlists)@.take(n as int) =~= old(playlists)@);
    }
    total
}

/// Every playcount's playtime total fits the arithmetic of a merge.
pub open spec fn playtimes_fit(s: Seq<Playcount>) -> bool {
    forall|i: int| 0 <= i < s.len() ==> total_duration((#[trigger] s[i])@) <= u64::MAX
}

/// Merges duplicate records in every playcount; returns the number of
/// records removed.
pub fn merge_playcount_duplicates(playcounts: &mut Vec<Playcount>) -> (r: usize)
    requires
        playcounts_wf(old(playcounts)@),
        playtimes_fit(old(playcounts)@),
        playcount_dup_total(old(playcounts)@) <= usize::MAX,
    ensures
        final(playcounts)@.len() == old(playcounts)@.len(),
        forall|i: int| 0 <= i < old(playcounts)@.len() ==> {
            let before = old(playcounts)@[i];
            let after = #[trigger] final(playcounts)@[i];
            &&& after.wf()
            &&& after.spec_path() == before.spec_path()
            &&& after@ == merged(before@)
        },
        r == playcount_dup_total(old(playcounts)@),
{
    let n = playcounts.len();
    let mut total: usize = 0;
    let mut i: usize = 0;
    proof {
        assert(old(playcounts)@.take(0) =~= Seq::<Playcount>::empty());
    }
    while i < n
        invariant
            0 <= i <= n,
            n == playcounts@.len(),
            playcounts@.len() == old(playcounts)@.len(),
            playcounts_wf(old(playcounts)@),
            playtimes_fit(old(playcounts)@),
            playcount_dup_total(old(playcounts)@) <= usize::MAX,
            forall|j: int| i <= j < n ==> #[trigger] playcounts@[j] == old(playcounts)@[j],
            forall|j: int| 0 <= j < i ==> {
                let before = old(playcounts)@[j];
                let after = #[trigger] playcounts@[j];
                &&& after.wf()
                &&& after.spec_path() == before.spec_path()
                &&& after@ == merged(before@)
            },
            total as int == playcount_dup_total(old(playcounts)@.take(i as int)),
        decreases n - i,
    {
        proof {
            lemma_playcount_dup_total_prefix(old(playcounts)@, i as int + 1);
            assert(old(playcounts)@.take(i as int + 1).drop_last()
                =~= old(playcounts)@.take(i as int));
            assert(old(playcounts)@.take(i as int + 1).last() == old(playcounts)@[i as int]);
        }
        let c = playcounts[i].merge_duplicates();
        proof {
            if c == 0 {
                crate::playcount::lemma_merged_no_dups(old(playcounts)@[i as int]@);
            }
        }
        total = total + c;
        i = i + 1;
    }
    proof {
        assert(old(playcounts)@.take(n as int) =~= old(playcounts)@);
    }
    total
}

/// The tracks removed one after another from a playlist's content.
pub open spec fn remove_seq(s: Seq<Seq<char>>, ts: Seq<Seq<char>>) -> Seq<Seq<char>>
    decreases ts.len(),
{
    if ts.len() == 0 {
        s
    } else {
        without_track(remove_seq(s, ts.drop_last()), ts.last())
    }
}

/// The given tracks that occur in a collection with these keys, in order.
pub open spec fn contained_of(keys: Seq<Seq<char>>, ts: Seq<Seq<char>>) -> Seq<Seq<char>> {
    ts.filter(|k: Seq<char>| occurrences(keys, k).len() > 0)
}

/// What the history playlists contribute to the ignore playlist: for each
/// history playlist in order, the tracks it contains, in the given order.
pub open spec fn hist_appends(pls: Seq<Playlist>, ts: Seq<Seq<char>>) -> Seq<Seq<char>>
    decreases pls.len(),
{
    if pls.len() == 0 {
        Seq::empty()
    } else {
        hist_appends(pls.drop_last(), ts) + if spec_is_history(pls.last().spec_name()) {
            contained_of(pls.last()@, ts)
        } else {
            Seq::empty()
        }
    }
}

/// What the playcounts contribute to the ignore playlist: for each
/// playcount in order, the tracks it contains, in the given order.
pub open spec fn pc_appends(pcs: Seq<Playcount>, ts: Seq<Seq<char>>) -> Seq<Seq<char>>
    decreases pcs.len(),
{
    if pcs.len() == 0 {
        Seq::empty()
    } else {
        pc_appends(pcs.drop_last(), ts) + contained_of(pc_keys(pcs.last()@), ts)
    }
}

/// Removes the given tracks from every playlist. History playlists are
/// never deleted from: there, the tracks that occur are appended to the
/// ignore playlist instead.
pub fn remove_tracks_from_playlists(
    playlists: &mut Vec<Playlist>,
    tracks: &Vec<Track>,
    ignore: &mut Playlist,
)
    requires
        playlists_wf(old(playlists)@),
        old(ignore).wf(),
    ensures
        final(playlists)@.len() == old(playlists)@.len(),
        forall|i: int| 0 <= i < old(playlists)@.len() ==> {
            let before = old(playlists)@[i];
            let after = #[trigger] final(playlists)@[i];
            &&& after.wf()
            &&& after.same_backing(before)
            &&& (spec_is_history(before.spec_name()) ==> after == before)
            &&& (!spec_is_history(before.spec_name())
                ==> after@ == remove_seq(before@, track_views(tracks@)))
        },
        final(ignore).wf(),
        final(ignore).same_backing(*old(ignore)),
        final(ignore)@ == old(ignore)@ + hist_appends(old(playlists)@, track_views(tracks@)),
{
    let ghost tviews = track_views(tracks@);
    let n = playlists.len();
    let m = tracks.len();
    let mut i: usize = 0;
    proof {
        assert(tviews.len() == m as int);
        assert(forall|j: int| 0 <= j < m ==> #[trigger] tviews[j] == tracks@[j]@);
        assert(old(playlists)@.take(0) =~= Seq::<Playlist>::empty());
        assert(old(ignore)@ + hist_appends(old(playlists)@.take(0), tviews) =~= old(ignore)@);
    }
    while i < n
        invariant
            0 <= i <= n,
            n == playlists@.len(),
            m == tracks@.len(),
            tviews == track_views(tracks@),
            playlists@.len() == old(playlists)@.len(),
            playlists_wf(old(playlists)@),
            forall|j: int| i <= j < n ==> #[trigger] playlists@[j] == old(playlists)@[j],
            forall|j: int| 0 <= j < i ==> {
                let before = old(playlists)@[j];
                let after = #[trigger] playlists@[j];
                &&& after.wf()
                &&& after.same_backing(before)
                &&& (spec_is_history(before.spec_name()) ==> after == before)
                &&& (!spec_is_history(before.spec_name())
                    ==> after@ == remove_seq(before@, tviews))
            },
            ignore.wf(),
            ignore.same_backing(*old(ignore)),
            ignore@ == old(ignore)@ + hist_appends(old(playlists)@.take(i as int), tviews),
        decreases n - i,
    {
        proof {
            assert(old(playlists)@.take(i as int + 1).drop_last()
                =~= old(playlists)@.take(i as int));
            assert(old(playlists)@.take(i as int + 1).last() == old(playlists)@[i as int]);
        }
        if playlists[i].is_history() {
            let ghost base = ignore@;
            let mut j: usize = 0;
            proof {
                assert(tviews.take(0) =~= Seq::<Seq<char>>::empty());
                assert(contained_of(old(playlists)@[i as int]@, tviews.take(0))
                    =~= Seq::<Seq<char>>::empty());
                assert(base + contained_of(old(playlists)@[i as int]@, tviews.take(0)) =~= base);
            }
            while j < m
                invariant
                    0 <= j <= m,
                    i < n,
                    n == playlists@.len(),
                    m == tracks@.len(),
                    tviews == track_views(tracks@),
                    playlists@[i as int] == old(playlists)@[i as int],
                    playlists@[i as int].wf(),
                    ignore.wf(),
                    ignore.same_backing(*old(ignore)),
                    ignore@ == base + contained_of(
                        old(playlists)@[i as int]@,
                        tviews.take(j as int),
                    ),
                decreases m - j,
            {
                proof {
                    reveal(Seq::filter);
                    assert(tviews.take(j as int + 1).drop_last() =~= tviews.take(j as int));
                    assert(tviews.take(j as int + 1).last() == tracks@[j as int]@);
                }
                if playlists[i].contains(&tracks[j]) {
                    ignore.push(tracks[j].clone());
                }
                j = j + 1;
            }
            proof {
                assert(tviews.take(m as int) =~= tviews);
            }
        } else {
            let ghost before = playlists@[i as int]@;
            let mut j: usize = 0;
            proof {
                assert(tviews.take(0) =~= Seq::<Seq<char>>::empty());
            }
            while j < m
                invariant
                    0 <= j <= m,
                    i < n,
                    n == playlists@.len(),
                    m == tracks@.len(),
                    tviews == track_views(tracks@),
                    before == old(playlists)@[i as int]@,
                    playlists@[i as int].wf(),
                    playlists@[i as int].same_backing(old(playlists)@[i as int]),
                    playlists@[i as int]@ == remove_seq(before, tviews.take(j as int)),
                    forall|jj: int| i < jj < n
                        ==> #[trigger] playlists@[jj] == old(playlists)@[jj],
                    forall|jj: int| 0 <= jj < i ==> {
                        let b = old(playlists)@[jj];
                        let a = #[trigger] playlists@[jj];
                        &&& a.wf()
                        &&& a.same_backing(b)
                        &&& (spec_is_history(b.spec_name()) ==> a == b)
                        &&& (!spec_is_history(b.spec_name())
                            ==> a@ == remove_seq(b@, tviews))
                    },
                    ignore.wf(),
                    ignore.same_backing(*old(ignore)),
                    ignore@ == old(ignore)@
                        + hist_appends(old(playlists)@.take(i as int), tviews),
                decreases m - j,
            {
                proof {
                    assert(tviews.take(j as int + 1).drop_last() =~= tviews.take(j as int));
                    assert(tviews.take(j as int + 1).last() == tracks@[j as int]@);
                }
                let _ = playlists[i].remove_all(&tracks[j]);
                j = j + 1;
            }
            proof {
                assert(tviews.take(m as int) =~= tviews);
            }
        }
        i = i + 1;
    }
    proof {
        assert(old(playlists)@.take(n as int) =~= old(playlists)@);
    }
}

/// Appends to the ignore playlist every given track that a playcount
/// mentions; playcount records themselves are never deleted here.
pub fn remove_tracks_from_playcounts(
    playcounts: &Vec<Playcount>,
    tracks: &Vec<Track>,
    ignore: &mut Playlist,
)
    requires
        playcounts_wf(playcounts@),
        old(ignore).wf(),
    ensures
        final(ignore).wf(),
        final(ignore).same_backing(*old(ignore)),
        final(ignore)@ == old(ignore)@ + pc_appends(playcounts@, track_views(tracks@)),
{
    let ghost tviews = track_views(tracks@);
    let n = playcounts.len();
    let m = tracks.len();
    let mut i: usize = 0;
    proof {
        assert(forall|j: int| 0 <= j < m ==> #[trigger] tviews[j] == tracks@[j]@);
        assert(playcounts@.take(0) =~= Seq::<Playcount>::empty());
        assert(old(ignore)@ + pc_appends(playcounts@.take(0), tviews) =~= old(ignore)@);
    }
    while i < n
        invariant
            0 <= i <= n,
            n == playcounts@.len(),
            m == tracks@.len(),
            tviews == track_views(tracks@),
            playcounts_wf(playcounts@),
            ignore.wf(),
            ignore.same_backing(*old(ignore)),
            ignore@ == old(ignore)@ + pc_appends(playcounts@.take(i as int), tviews),
        decreases n - i,
    {
        proof {
            assert(playcounts@.take(i as int + 1).drop_last() =~= playcounts@.take(i as int));
            assert(playcounts@.take(i as int + 1).last() == playcounts@[i as int]);
        }
        let ghost base = ignore@;
        let mut j: usize = 0;
        proof {
            assert(tviews.take(0) =~= Seq::<Seq<char>>::empty());
            assert(contained_of(pc_keys(playcounts@[i as int]@), tviews.take(0))
                =~= Seq::<Seq<char>>::empty());
            assert(base + contained_of(pc_keys(playcounts@[i as int]@), tviews.take(0))
                =~= base);
        }
        while j < m
            invariant
                0 <= j <= m,
                i < n,
                n == playcounts@.len(),
                m == tracks@.len(),
                tviews == track_views(tracks@),
                playcounts_wf(playcounts@),
                ignore.wf(),
                ignore.same_backing(*old(ignore)),
                ignore@ == base + contained_of(
                    pc_keys(playcounts@[i as int]@),
                    tviews.take(j as int),
                ),
            decreases m - j,
        {
            proof {
                reveal(Seq::filter);
                assert(tviews.take(j as int + 1).drop_last() =~= tviews.take(j as int));
                assert(tviews.take(j as int + 1).last() == tracks@[j as int]@);
            }
            if playcounts[i].contains(&tracks[j]) {
                ignore.push(tracks[j].clone());
            }
            j = j + 1;
        }
        proof {
            assert(tviews.take(m as int) =~= tviews);
        }
        i = i + 1;
    }
    proof {
        assert(playcounts@.take(n as int) =~= playcounts@);
    }
}

} // verus!
