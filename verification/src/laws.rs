use vstd::prelude::*;
use crate::entry::{EntryView, opt_chars, parse_entry, render_entry};
use crate::index::{ascending, occurrences, lemma_occurrences};
use crate::playcount::{Playcount, parse_playcount, parse_pc_lines, pc_keys, render_playcount,
    total_duration};
use crate::playlist::{Playlist, deduped, duplicates, parse_playlist, render_playlist};
use crate::seqs::{id_key, lemma_dedup_first_idempotent};
use crate::strutil::{all_digits, dec_digits, digits_val, frac_digits, frac_val, is_digit,
    lemma_dec_digits, lemma_split_all_append_free, lemma_split_all_no_sep, parse_ms, render_ms,
    split_all, split_lines};
use crate::track::Track;

verus! {

// ---------------------------------------------------------------------------
// The index is a derived structure: what its lists mean.
// ---------------------------------------------------------------------------

/// In a well-formed playlist the index never diverges from the sequence it
/// indexes: the positions recorded for a track are strictly ascending and
/// are exactly the positions at which the track stands. Every mutating
/// operation of the playlist keeps well-formedness, so this holds after any
/// sequence of calls.
pub proof fn lemma_playlist_index_exact(pl: Playlist, t: Seq<char>)
    requires
        pl.wf(),
    ensures
        ascending(pl.tracks_map.lookup(t)),
        forall|p: int| #[trigger] pl.tracks_map.lookup(t).contains(p)
            <==> 0 <= p < pl@.len() && pl@[p] == t,
{
    lemma_occurrences(pl@, t);
    assert forall|p: int| #[trigger] pl.tracks_map.lookup(t).contains(p)
        <==> 0 <= p < pl@.len() && pl@[p] == t by {
        let occ = occurrences(pl@, t);
        if occ.contains(p) {
            let w = choose|w: int| 0 <= w < occ.len() && occ[w] == p;
            assert(pl@[occ[w]] == t);
        }
    }
}

/// The same, for a playcount: the positions recorded for a track are
/// exactly those of the records keyed by it.
pub proof fn lemma_playcount_index_exact(pc: Playcount, t: Seq<char>)
    requires
        pc.wf(),
    ensures
        ascending(pc.tracks_map.lookup(t)),
        forall|p: int| #[trigger] pc.tracks_map.lookup(t).contains(p)
            <==> 0 <= p < pc@.len() && pc@[p].path == t,
{
    lemma_occurrences(pc_keys(pc@), t);
    assert forall|p: int| #[trigger] pc.tracks_map.lookup(t).contains(p)
        <==> 0 <= p < pc@.len() && pc@[p].path == t by {
        let keys = pc_keys(pc@);
        let occ = occurrences(keys, t);
        if occ.contains(p) {
            let w = choose|w: int| 0 <= w < occ.len() && occ[w] == p;
            assert(keys[occ[w]] == t);
        }
        if 0 <= p < pc@.len() && pc@[p].path == t {
            assert(keys[p] == t);
        }
    }
}

// ---------------------------------------------------------------------------
// Writing is idempotent: the rendered text depends on the content alone.
// ---------------------------------------------------------------------------

/// Two playlists with the same tracks render to byte-identical text; in
/// particular, writing twice with no intervening mutation writes the same
/// bytes both times, since a write does not change the tracks.
pub proof fn lemma_playlist_write_idempotent(a: Playlist, b: Playlist)
    requires
        a@ == b@,
    ensures
        render_playlist(a@) == render_playlist(b@),
{
}

/// The same, for playcounts.
pub proof fn lemma_playcount_write_idempotent(a: Playcount, b: Playcount)
    requires
        a@ == b@,
    ensures
        render_playcount(a@) == render_playcount(b@),
{
}

// ---------------------------------------------------------------------------
// Duplicate removal is idempotent.
// ---------------------------------------------------------------------------

/// A dedup leaves no duplicate behind: running it again removes nothing.
pub proof fn lemma_dedup_idempotent(s: Seq<Seq<char>>)
    ensures
        duplicates(deduped(s)).len() == 0,
        deduped(deduped(s)) == deduped(s),
{
    lemma_dedup_first_idempotent(s, id_key());
}

// ---------------------------------------------------------------------------
// A bulk rename does not depend on the order of its edits.
// ---------------------------------------------------------------------------

/// Two playlist edit sets holding the same pairs rename every track alike,
/// so chained or swapped pairs give one result however the set is walked.
pub proof fn lemma_playlist_rename_order_independent(
    e1: Seq<(Track, String)>,
    e2: Seq<(Track, String)>,
    k: Seq<char>,
)
    requires
        forall|i: int, j: int| 0 <= i < j < e1.len()
            ==> (#[trigger] e1[i]).0@ != (#[trigger] e1[j]).0@,
        forall|i: int, j: int| 0 <= i < j < e2.len()
            ==> (#[trigger] e2[i]).0@ != (#[trigger] e2[j]).0@,
        forall|j: int| 0 <= j < e1.len() ==> e2.contains(#[trigger] e1[j]),
        forall|j: int| 0 <= j < e2.len() ==> e1.contains(#[trigger] e2[j]),
    ensures
        crate::playlist::renamed_track(e1, k) == crate::playlist::renamed_track(e2, k),
{
    crate::seqs::lemma_rename_of_reordered(e1, e2, k);
}

/// The same, for playcount edit sets.
pub proof fn lemma_playcount_rename_order_independent(
    e1: Seq<(Track, Option<crate::entry::Entry>)>,
    e2: Seq<(Track, Option<crate::entry::Entry>)>,
    e: EntryView,
)
    requires
        forall|i: int, j: int| 0 <= i < j < e1.len()
            ==> (#[trigger] e1[i]).0@ != (#[trigger] e1[j]).0@,
        forall|i: int, j: int| 0 <= i < j < e2.len()
            ==> (#[trigger] e2[i]).0@ != (#[trigger] e2[j]).0@,
        forall|j: int| 0 <= j < e1.len() ==> e2.contains(#[trigger] e1[j]),
        forall|j: int| 0 <= j < e2.len() ==> e1.contains(#[trigger] e2[j]),
    ensures
        crate::playcount::renamed_entry(e1, e) == crate::playcount::renamed_entry(e2, e),
{
    crate::seqs::lemma_rename_of_reordered(e1, e2, e.path);
}

// ---------------------------------------------------------------------------
// Merging loses no playtime.
// ---------------------------------------------------------------------------

/// Each record keyed by `k` with its duration raised by `d`.
pub open spec fn bump_key(s: Seq<EntryView>, k: Seq<char>, d: int) -> Seq<EntryView> {
    s.map_values(
        |e: EntryView| if e.path == k {
            EntryView { duration_ms: e.duration_ms + d, ..e }
        } else {
            e
        },
    )
}

/// Raising one key of a distinct-key sequence raises the total by `d` when
/// the key is present, and not at all when it is absent.
proof fn lemma_bump_total_distinct(a: Seq<EntryView>, k: Seq<char>, d: int)
    requires
        forall|i: int, j: int| 0 <= i < j < a.len()
            ==> (#[trigger] a[i]).path != (#[trigger] a[j]).path,
    ensures
        total_duration(bump_key(a, k, d)) == total_duration(a) + if exists|j: int|
            0 <= j < a.len() && (#[trigger] a[j]).path == k {
            d
        } else {
            0
        },
    decreases a.len(),
{
    if a.len() > 0 {
        let dl = a.drop_last();
        lemma_bump_total_distinct(dl, k, d);
        assert(bump_key(a, k, d).drop_last() =~= bump_key(dl, k, d));
        assert(bump_key(a, k, d).last() == (if a.last().path == k {
            EntryView { duration_ms: a.last().duration_ms + d, ..a.last() }
        } else {
            a.last()
        }));
        if a.last().path == k {
            assert(!(exists|j: int| 0 <= j < dl.len() && (#[trigger] dl[j]).path == k)) by {
                if exists|j: int| 0 <= j < dl.len() && (#[trigger] dl[j]).path == k {
                    let j = choose|j: int| 0 <= j < dl.len() && (#[trigger] dl[j]).path == k;
                    assert(a[j].path == a[a.len() - 1].path);
                }
            }
            assert(a[a.len() - 1].path == k);
        } else {
            if exists|j: int| 0 <= j < a.len() && (#[trigger] a[j]).path == k {
                let j = choose|j: int| 0 <= j < a.len() && (#[trigger] a[j]).path == k;
                assert(dl[j].path == k);
            }
            if exists|j: int| 0 <= j < dl.len() && (#[trigger] dl[j]).path == k {
                let j = choose|j: int| 0 <= j < dl.len() && (#[trigger] dl[j]).path == k;
                assert(a[j].path == k);
            }
        }
    }
}

/// Raising one key's durations commutes with keeping first occurrences.
proof fn lemma_dedup_bump(a: Seq<EntryView>, k: Seq<char>, d: int)
    ensures
        crate::seqs::dedup_first(bump_key(a, k, d), crate::playcount::entry_key())
            == bump_key(crate::seqs::dedup_first(a, crate::playcount::entry_key()), k, d),
    decreases a.len(),
{
    let ek = crate::playcount::entry_key();
    if a.len() == 0 {
        assert(bump_key(a, k, d) =~= a);
        assert(crate::seqs::dedup_first(a, ek) =~= a);
    } else {
        let dl = a.drop_last();
        lemma_dedup_bump(dl, k, d);
        let ba = bump_key(a, k, d);
        assert(ba.drop_last() =~= bump_key(dl, k, d));
        assert(crate::seqs::keys_of(bump_key(dl, k, d), ek) =~= crate::seqs::keys_of(dl, ek));
        assert(ek(ba.last()) == ek(a.last()));
        if crate::seqs::keys_of(dl, ek).contains(ek(a.last())) {
            assert(crate::seqs::dedup_first(ba, ek)
                == crate::seqs::dedup_first(bump_key(dl, k, d), ek));
            assert(crate::seqs::dedup_first(a, ek) == crate::seqs::dedup_first(dl, ek));
        } else {
            assert(crate::seqs::dedup_first(ba, ek)
                == crate::seqs::dedup_first(bump_key(dl, k, d), ek).push(ba.last()));
            assert(crate::seqs::dedup_first(a, ek)
                == crate::seqs::dedup_first(dl, ek).push(a.last()));
            assert(bump_key(crate::seqs::dedup_first(dl, ek), k, d).push(ba.last())
                =~= bump_key(crate::seqs::dedup_first(dl, ek).push(a.last()), k, d));
        }
    }
}

/// Merging the duplicates of a playcount keeps its total playtime: what the
/// removed records carried now sits on the first occurrences.
pub proof fn lemma_merge_preserves_playtime(s: Seq<EntryView>)
    ensures
        total_duration(crate::playcount::merged(s)) == total_duration(s),
    decreases s.len(),
{
    let ek = crate::playcount::entry_key();
    let wt = crate::playcount::with_total_durations(s);
    if s.len() == 0 {
        assert(wt =~= s);
        assert(crate::seqs::dedup_first(wt, ek) =~= s);
    } else {
        let dl = s.drop_last();
        let x = s.last();
        let kx = x.path;
        let xd = x.duration_ms;
        lemma_merge_preserves_playtime(dl);
        let wt_dl = crate::playcount::with_total_durations(dl);
        let xe = EntryView {
            duration_ms: crate::playcount::key_duration_sum(s, kx),
            ..x
        };
        // The view of the longer log is the shorter one's, with the new
        // record's playtime folded onto its key, plus the new record.
        assert(wt.drop_last() =~= bump_key(wt_dl, kx, xd)) by {
            assert forall|i: int| 0 <= i < dl.len()
                implies wt.drop_last()[i] == bump_key(wt_dl, kx, xd)[i] by {
                assert(wt[i] == EntryView {
                    duration_ms: crate::playcount::key_duration_sum(s, s[i].path),
                    ..s[i]
                });
                assert(crate::playcount::key_duration_sum(s, s[i].path)
                    == crate::playcount::key_duration_sum(dl, s[i].path) + if kx == s[i].path {
                    xd
                } else {
                    0
                });
            }
        }
        assert(wt.last() == xe);
        assert(crate::seqs::keys_of(bump_key(wt_dl, kx, xd), ek)
            =~= crate::playcount::pc_keys(dl));
        let mdl = crate::playcount::merged(dl);
        crate::seqs::lemma_dedup_keys_distinct(wt_dl, ek);
        assert(forall|i: int, j: int| 0 <= i < j < mdl.len()
            ==> (#[trigger] mdl[i]).path != (#[trigger] mdl[j]).path);
        lemma_dedup_bump(wt_dl, kx, xd);
        assert(total_duration(s) == total_duration(dl) + xd);
        if crate::playcount::pc_keys(dl).contains(kx) {
            assert(crate::seqs::dedup_first(wt, ek)
                == crate::seqs::dedup_first(bump_key(wt_dl, kx, xd), ek));
            assert(crate::playcount::merged(s) == bump_key(mdl, kx, xd));
            // The key is already represented among the kept records.
            assert(crate::seqs::keys_of(wt_dl, ek).contains(kx)) by {
                assert(crate::seqs::keys_of(wt_dl, ek) =~= crate::playcount::pc_keys(dl));
            }
            crate::seqs::lemma_dedup_keys_complete(wt_dl, ek, kx);
            assert(exists|j: int| 0 <= j < mdl.len() && (#[trigger] mdl[j]).path == kx) by {
                let w = choose|w: int| 0 <= w < crate::seqs::keys_of(mdl, ek).len()
                    && crate::seqs::keys_of(mdl, ek)[w] == kx;
                assert(mdl[w].path == kx);
            }
            lemma_bump_total_distinct(mdl, kx, xd);
        } else {
            assert(crate::seqs::dedup_first(wt, ek)
                == crate::seqs::dedup_first(bump_key(wt_dl, kx, xd), ek).push(xe));
            assert(crate::playcount::merged(s) == bump_key(mdl, kx, xd).push(xe));
            assert(crate::playcount::merged(s).drop_last() =~= bump_key(mdl, kx, xd));
            assert(crate::playcount::merged(s).last() == xe);
            // The key is new: nothing to raise, and its record carries
            // exactly its own playtime.
            assert(!(exists|j: int| 0 <= j < mdl.len() && (#[trigger] mdl[j]).path == kx)) by {
                if exists|j: int| 0 <= j < mdl.len() && (#[trigger] mdl[j]).path == kx {
                    let j = choose|j: int| 0 <= j < mdl.len() && (#[trigger] mdl[j]).path == kx;
                    assert(crate::seqs::keys_of(mdl, ek)[j] == kx);
                    assert(crate::seqs::keys_of(mdl, ek).contains(kx));
                    crate::seqs::lemma_dedup_keys_subset(wt_dl, ek, kx);
                    assert(crate::seqs::keys_of(wt_dl, ek).contains(kx));
                    let w = choose|w: int| 0 <= w < crate::seqs::keys_of(wt_dl, ek).len()
                        && crate::seqs::keys_of(wt_dl, ek)[w] == kx;
                    assert(crate::playcount::pc_keys(dl)[w] == kx);
                    assert(crate::playcount::pc_keys(dl).contains(kx));
                }
            }
            lemma_bump_total_distinct(mdl, kx, xd);
            assert(xe.duration_ms == xd) by {
                assert(forall|j: int| 0 <= j < dl.len() ==> (#[trigger] dl[j]).path != kx) by {
                    assert forall|j: int| 0 <= j < dl.len()
                        implies (#[trigger] dl[j]).path != kx by {
                        if dl[j].path == kx {
                            assert(crate::playcount::pc_keys(dl)[j] == kx);
                            assert(crate::playcount::pc_keys(dl).contains(kx));
                        }
                    }
                }
                crate::playcount::lemma_key_sum_absent(dl, kx);
                assert(crate::playcount::key_duration_sum(s, kx)
                    == crate::playcount::key_duration_sum(dl, kx) + xd);
            }
        }
    }
}

// ---------------------------------------------------------------------------
// Round trips: writing and re-reading reproduces the records.
// ---------------------------------------------------------------------------

/// A track path that survives the file format: non-empty, free of newlines,
/// and left alone by the music-directory strip.
pub open spec fn stored_path_ok(p: Seq<char>, music_dir: Seq<char>) -> bool {
    &&& p.len() > 0
    &&& !p.contains('\n')
    &&& Track::normalized(p, music_dir) == p
}

/// Rendering a sequence of lines and splitting the text again yields the
/// lines, as long as none of them holds a newline of its own.
proof fn lemma_render_playlist_split(s: Seq<Seq<char>>)
    requires
        forall|i: int| 0 <= i < s.len() ==> !(#[trigger] s[i]).contains('\n'),
    ensures
        split_all(render_playlist(s), '\n') == s.push(Seq::<char>::empty()),
    decreases s.len(),
{
    if s.len() == 0 {
        assert(render_playlist(s) =~= Seq::<char>::empty());
        assert(split_all(render_playlist(s), '\n')
            =~= Seq::<Seq<char>>::empty().push(Seq::<char>::empty()));
    } else {
        let dl = s.drop_last();
        assert(forall|i: int| 0 <= i < dl.len() ==> !(#[trigger] dl[i]).contains('\n'));
        lemma_render_playlist_split(dl);
        assert(forall|i: int| 0 <= i < s.last().len() ==> s.last()[i] != '\n') by {
            assert forall|i: int| 0 <= i < s.last().len() implies s.last()[i] != '\n' by {
                if s.last()[i] == '\n' {
                    assert(s.last().contains('\n'));
                }
            }
        }
        lemma_split_all_append_free(render_playlist(dl), s.last(), '\n');
        let base = dl.push(Seq::<char>::empty());
        assert(split_all(render_playlist(dl) + s.last(), '\n')
            == base.update(base.len() - 1, Seq::<char>::empty() + s.last()));
        assert(Seq::<char>::empty() + s.last() =~= s.last());
        assert(base.update(base.len() - 1, s.last()) =~= dl.push(s.last()));
        let mid = render_playlist(dl) + s.last();
        assert(render_playlist(s) =~= mid.push('\n'));
        assert(mid.push('\n').drop_last() =~= mid);
        assert(mid.push('\n').last() == '\n');
        assert(split_all(render_playlist(s), '\n') == split_all(mid, '\n').push(
            Seq::<char>::empty(),
        ));
        assert(dl.push(s.last()) =~= s);
    }
}

/// The lines of a rendered playlist are its tracks.
proof fn lemma_render_lines(s: Seq<Seq<char>>)
    requires
        forall|i: int| 0 <= i < s.len() ==> !(#[trigger] s[i]).contains('\n'),
    ensures
        split_lines(render_playlist(s)) == s,
{
    lemma_render_playlist_split(s);
    if s.len() == 0 {
        assert(render_playlist(s) =~= Seq::<char>::empty());
    } else {
        assert(render_playlist(s).len() > 0) by {
            let dl = s.drop_last();
            let mid = render_playlist(dl) + s.last();
            assert(render_playlist(s) =~= mid.push('\n'));
        }
        let parts = split_all(render_playlist(s), '\n');
        assert(parts.last().len() == 0);
        assert(parts.drop_last() =~= s);
    }
}

/// Writing a playlist and reading the file back reproduces its tracks, for
/// every playlist whose paths are storable: non-empty, free of newlines,
/// and not shaped like absolute paths under the music directory.
pub proof fn lemma_playlist_round_trip(s: Seq<Seq<char>>, music_dir: Seq<char>)
    requires
        forall|i: int| 0 <= i < s.len() ==> stored_path_ok(#[trigger] s[i], music_dir),
    ensures
        parse_playlist(render_playlist(s), music_dir) == s,
{
    lemma_render_lines(s);
    if s.len() == 1 {
        assert(Track::normalized(s[0], music_dir) == s[0]);
        assert(s[0].len() > 0);
    }
    assert(parse_playlist(render_playlist(s), music_dir) =~= s);
}

/// A rendered duration parses back to the same count of milliseconds.
pub proof fn lemma_ms_round_trip(ms: int)
    requires
        0 <= ms <= u64::MAX,
    ensures
        parse_ms(render_ms(ms)) == Some(ms),
{
    let secs = ms / 1000;
    let f = ms % 1000;
    lemma_dec_digits(secs);
    let ip = dec_digits(secs);
    assert(forall|i: int| 0 <= i < ip.len() ==> ip[i] != '.') by {
        assert('.' as int == 46);
        assert(forall|i: int| 0 <= i < ip.len() ==> is_digit(ip[i]));
    }
    if f == 0 {
        lemma_split_all_no_sep(ip, '.');
        assert(split_all(render_ms(ms), '.') == seq![ip]);
        assert(digits_val(ip) * 1000 == ms);
    } else {
        let fp = frac_digits(f);
        lemma_frac_digits(f);
        assert(forall|i: int| 0 <= i < fp.len() ==> fp[i] != '.') by {
            assert('.' as int == 46);
            assert(forall|i: int| 0 <= i < fp.len() ==> is_digit(fp[i]));
        }
        crate::strutil::lemma_split_all_pair(ip, fp, '.');
        assert(render_ms(ms) == ip + seq!['.'] + fp);
        assert(split_all(render_ms(ms), '.') == seq![ip, fp]);
        assert(digits_val(ip) * 1000 + frac_val(fp) == ms);
    }
}

/// The trimmed fraction of `f` milliseconds is one to three digits denoting
/// `f` again under its place value.
proof fn lemma_frac_digits(f: int)
    requires
        0 < f < 1000,
    ensures
        all_digits(frac_digits(f)),
        1 <= frac_digits(f).len() <= 3,
        frac_val(frac_digits(f)) == f,
{
    let fp = frac_digits(f);
    assert('0' as int == 48 && '1' as int == 49 && '2' as int == 50 && '3' as int == 51
        && '4' as int == 52 && '5' as int == 53 && '6' as int == 54 && '7' as int == 55
        && '8' as int == 56 && '9' as int == 57);
    let d1 = crate::strutil::digit_char(f / 100);
    let d2 = crate::strutil::digit_char((f / 10) % 10);
    let d3 = crate::strutil::digit_char(f % 10);
    let digit_one = f / 100;
    let digit_two = (f / 10) % 10;
    let digit_three = f % 10;
    assert(is_digit(d1) && crate::strutil::digit_val(d1) == digit_one);
    assert(is_digit(d2) && crate::strutil::digit_val(d2) == digit_two);
    assert(is_digit(d3) && crate::strutil::digit_val(d3) == digit_three);
    assert(digits_val(Seq::<char>::empty()) == 0);
    assert(seq![d1].drop_last() =~= Seq::<char>::empty());
    assert(seq![d1].last() == d1);
    assert(digits_val(seq![d1]) == digit_one);
    assert(seq![d1, d2].drop_last() =~= seq![d1]);
    assert(seq![d1, d2].last() == d2);
    assert(digits_val(seq![d1, d2]) == digit_one * 10 + digit_two);
    assert(seq![d1, d2, d3].drop_last() =~= seq![d1, d2]);
    assert(seq![d1, d2, d3].last() == d3);
    assert(digits_val(seq![d1, d2, d3]) == (digit_one * 10 + digit_two) * 10 + digit_three);
    if f % 100 == 0 {
        assert(fp =~= seq![d1]);
        assert(frac_val(fp) == (f / 100) * 100);
        assert((f / 100) * 100 == f);
    } else if f % 10 == 0 {
        assert(fp =~= seq![d1, d2]);
        assert(digits_val(fp) == (f / 100) * 10 + (f / 10) % 10);
        assert((f / 100) * 10 + (f / 10) % 10 == f / 10);
        assert(frac_val(fp) == (f / 10) * 10);
        assert((f / 10) * 10 == f);
    } else {
        assert(fp =~= seq![d1, d2, d3]);
        assert(digits_val(fp) == ((f / 100) * 10 + (f / 10) % 10) * 10 + f % 10);
        assert(((f / 100) * 10 + (f / 10) % 10) * 10 + f % 10 == (f / 10) * 10 + f % 10);
        assert((f / 10) * 10 + f % 10 == f);
    }
}

/// A record whose fields survive the file format: tab- and newline-free
/// text, optional fields absent rather than empty, and a storable path.
pub open spec fn entry_ok(e: EntryView, music_dir: Seq<char>) -> bool {
    &&& 0 <= e.duration_ms <= u64::MAX
    &&& field_ok(e.artist)
    &&& opt_field_ok(e.album_artist)
    &&& opt_field_ok(e.album)
    &&& field_ok(e.title)
    &&& field_ok(e.path)
    &&& stored_path_ok(e.path, music_dir)
}

/// Free of the separators of the file format.
pub open spec fn field_ok(s: Seq<char>) -> bool {
    !s.contains('\t') && !s.contains('\n')
}

/// An optional field is either absent or non-empty separator-free text.
pub open spec fn opt_field_ok(o: Option<Seq<char>>) -> bool {
    match o {
        Some(s) => s.len() > 0 && field_ok(s),
        None => true,
    }
}

/// No character of a rendered duration is a separator.
proof fn lemma_render_ms_clean(ms: int)
    requires
        0 <= ms,
    ensures
        forall|i: int| 0 <= i < render_ms(ms).len()
            ==> render_ms(ms)[i] != '\t' && render_ms(ms)[i] != '\n',
{
    lemma_dec_digits(ms / 1000);
    assert('\t' as int == 9 && '\n' as int == 10 && '.' as int == 46);
    let ip = dec_digits(ms / 1000);
    assert(forall|i: int| 0 <= i < ip.len() ==> is_digit(ip[i]));
    if ms % 1000 != 0 {
        lemma_frac_digits(ms % 1000);
        let fp = frac_digits(ms % 1000);
        assert(forall|i: int| 0 <= i < fp.len() ==> is_digit(fp[i]));
    }
}

/// Splitting one more tab-terminated segment onto a line.
proof fn lemma_split_tab_step(x: Seq<char>, seg: Seq<char>)
    requires
        !seg.contains('\t'),
    ensures
        split_all(x + seq!['\t'] + seg, '\t') == split_all(x, '\t').push(seg),
{
    assert((x + seq!['\t']).last() == '\t');
    assert((x + seq!['\t']).drop_last() =~= x);
    assert(split_all(x + seq!['\t'], '\t') == split_all(x, '\t').push(Seq::empty()));
    assert(forall|i: int| 0 <= i < seg.len() ==> seg[i] != '\t') by {
        assert forall|i: int| 0 <= i < seg.len() implies seg[i] != '\t' by {
            if seg[i] == '\t' {
                assert(seg.contains('\t'));
            }
        }
    }
    lemma_split_all_append_free(x + seq!['\t'], seg, '\t');
    let base = split_all(x, '\t').push(Seq::<char>::empty());
    crate::strutil::lemma_split_all_nonempty(x, '\t');
    assert(x + seq!['\t'] + seg =~= (x + seq!['\t']) + seg);
    assert(split_all((x + seq!['\t']) + seg, '\t')
        == base.update(base.len() - 1, base.last() + seg));
    assert(Seq::<char>::empty() + seg =~= seg);
    assert(base.update(base.len() - 1, seg) =~= split_all(x, '\t').push(seg));
}

/// A rendered record parses back to the same record.
pub proof fn lemma_entry_round_trip(e: EntryView, music_dir: Seq<char>)
    requires
        entry_ok(e, music_dir),
    ensures
        parse_entry(render_entry(e), music_dir) == Some(e),
{
    let ms = render_ms(e.duration_ms);
    lemma_render_ms_clean(e.duration_ms);
    assert(!ms.contains('\t')) by {
        if ms.contains('\t') {
            let i = choose|i: int| 0 <= i < ms.len() && ms[i] == '\t';
        }
    }
    assert(forall|i: int| 0 <= i < ms.len() ==> ms[i] != '\t');
    lemma_split_all_no_sep(ms, '\t');
    let a1 = e.artist;
    let a2 = opt_chars(e.album_artist);
    let a3 = opt_chars(e.album);
    let a4 = e.title;
    let a5 = e.path;
    assert(!a2.contains('\t') && !a3.contains('\t'));
    lemma_split_tab_step(ms, a1);
    lemma_split_tab_step(ms + seq!['\t'] + a1, a2);
    lemma_split_tab_step(ms + seq!['\t'] + a1 + seq!['\t'] + a2, a3);
    lemma_split_tab_step(ms + seq!['\t'] + a1 + seq!['\t'] + a2 + seq!['\t'] + a3, a4);
    lemma_split_tab_step(
        ms + seq!['\t'] + a1 + seq!['\t'] + a2 + seq!['\t'] + a3 + seq!['\t'] + a4,
        a5,
    );
    let parts = split_all(render_entry(e), '\t');
    assert(parts =~= seq![ms, a1, a2, a3, a4, a5]);
    lemma_ms_round_trip(e.duration_ms);
    assert(parse_entry(render_entry(e), music_dir) == Some(e)) by {
        assert(parts.len() == 6);
        assert(parse_ms(parts[0]) == Some(e.duration_ms));
        assert(Track::normalized(parts[5], music_dir) == e.path);
        match e.album_artist {
            Some(s) => {
                assert(parts[2].len() > 0);
            },
            None => {
                assert(parts[2].len() == 0);
            },
        }
        match e.album {
            Some(s) => {
                assert(parts[3].len() > 0);
            },
            None => {
                assert(parts[3].len() == 0);
            },
        }
    }
}

/// A rendered record holds no newline.
proof fn lemma_render_entry_clean(e: EntryView)
    requires
        0 <= e.duration_ms,
        field_ok(e.artist),
        opt_field_ok(e.album_artist),
        opt_field_ok(e.album),
        field_ok(e.title),
        field_ok(e.path),
    ensures
        !render_entry(e).contains('\n'),
{
    lemma_render_ms_clean(e.duration_ms);
    assert('\t' as int == 9 && '\n' as int == 10);
    assert(!render_entry(e).contains('\n')) by {
        if render_entry(e).contains('\n') {
            let i = choose|i: int| 0 <= i < render_entry(e).len() && render_entry(e)[i] == '\n';
            assert(forall|j: int| 0 <= j < e.artist.len() ==> e.artist[j] != '\n') by {
                assert forall|j: int| 0 <= j < e.artist.len() implies e.artist[j] != '\n' by {
                    if e.artist[j] == '\n' {
                        assert(e.artist.contains('\n'));
                    }
                }
            }
            assert(forall|j: int| 0 <= j < e.title.len() ==> e.title[j] != '\n') by {
                assert forall|j: int| 0 <= j < e.title.len() implies e.title[j] != '\n' by {
                    if e.title[j] == '\n' {
                        assert(e.title.contains('\n'));
                    }
                }
            }
            assert(forall|j: int| 0 <= j < e.path.len() ==> e.path[j] != '\n') by {
                assert forall|j: int| 0 <= j < e.path.len() implies e.path[j] != '\n' by {
                    if e.path[j] == '\n' {
                        assert(e.path.contains('\n'));
                    }
                }
            }
            assert(forall|j: int| 0 <= j < opt_chars(e.album_artist).len()
                ==> opt_chars(e.album_artist)[j] != '\n') by {
                assert forall|j: int| 0 <= j < opt_chars(e.album_artist).len()
                    implies opt_chars(e.album_artist)[j] != '\n' by {
                    if opt_chars(e.album_artist)[j] == '\n' {
                        assert(opt_chars(e.album_artist).contains('\n'));
                    }
                }
            }
            assert(forall|j: int| 0 <= j < opt_chars(e.album).len()
                ==> opt_chars(e.album)[j] != '\n') by {
                assert forall|j: int| 0 <= j < opt_chars(e.album).len()
                    implies opt_chars(e.album)[j] != '\n' by {
                    if opt_chars(e.album)[j] == '\n' {
                        assert(opt_chars(e.album).contains('\n'));
                    }
                }
            }
            assert(render_entry(e)[i] != '\n');
        }
    }
}

/// Writing a playcount and reading the file back reproduces its records,
/// for every playcount whose records survive the file format.
pub proof fn lemma_playcount_round_trip(s: Seq<EntryView>, music_dir: Seq<char>)
    requires
        forall|i: int| 0 <= i < s.len() ==> entry_ok(#[trigger] s[i], music_dir),
    ensures
        parse_playcount(render_playcount(s), music_dir) == s,
{
    let lines = s.map_values(|e: EntryView| render_entry(e));
    lemma_render_playcount_as_lines(s);
    assert(forall|i: int| 0 <= i < lines.len() ==> !(#[trigger] lines[i]).contains('\n')) by {
        assert forall|i: int| 0 <= i < lines.len()
            implies !(#[trigger] lines[i]).contains('\n') by {
            lemma_render_entry_clean(s[i]);
        }
    }
    lemma_render_lines(lines);
    lemma_parse_pc_lines(s, music_dir);
}

/// A playcount renders exactly as the playlist of its record lines.
proof fn lemma_render_playcount_as_lines(s: Seq<EntryView>)
    ensures
        render_playcount(s) == render_playlist(s.map_values(|e: EntryView| render_entry(e))),
    decreases s.len(),
{
    let lines = s.map_values(|e: EntryView| render_entry(e));
    if s.len() == 0 {
        assert(lines =~= Seq::<Seq<char>>::empty());
    } else {
        lemma_render_playcount_as_lines(s.drop_last());
        assert(lines.drop_last() =~= s.drop_last().map_values(|e: EntryView| render_entry(e)));
        assert(lines.last() == render_entry(s.last()));
    }
}

/// Parsing the rendered lines recovers the records, one per line.
proof fn lemma_parse_pc_lines(s: Seq<EntryView>, music_dir: Seq<char>)
    requires
        forall|i: int| 0 <= i < s.len() ==> entry_ok(#[trigger] s[i], music_dir),
    ensures
        parse_pc_lines(s.map_values(|e: EntryView| render_entry(e)), music_dir) == s,
    decreases s.len(),
{
    let lines = s.map_values(|e: EntryView| render_entry(e));
    if s.len() == 0 {
        assert(lines =~= Seq::<Seq<char>>::empty());
    } else {
        lemma_parse_pc_lines(s.drop_last(), music_dir);
        assert(lines.drop_last() =~= s.drop_last().map_values(|e: EntryView| render_entry(e)));
        assert(lines.last() == render_entry(s.last()));
        lemma_entry_round_trip(s.last(), music_dir);
        assert(parse_pc_lines(lines, music_dir)
            =~= parse_pc_lines(lines.drop_last(), music_dir) + seq![s.last()]);
        assert(s.drop_last() + seq![s.last()] =~= s);
    }
}

} // verus!
