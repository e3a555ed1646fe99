use music_tools::entry::Entry;
use music_tools::error::Error;
use music_tools::playlist::Playlist;
use music_tools::playcount::Playcount;
use music_tools::track::Track;

fn t(path: &str) -> Track {
    Track { path: String::from(path) }
}

fn pl(paths: &[&str]) -> Playlist {
    let mut pl = Playlist::new(String::from("test.m3u")).unwrap();
    for p in paths {
        pl.push(t(p));
    }
    pl
}

fn paths_of(pl: &Playlist) -> Vec<String> {
    pl.tracks().iter().map(|x| x.path.clone()).collect()
}

fn entry(path: &str, ms: u64) -> Entry {
    Entry::new(
        t(path),
        ms,
        String::from("artist"),
        None,
        None,
        String::from("title"),
    )
}

#[test]
fn new_playlist_takes_name_from_stem() {
    let pl = Playlist::new(String::from("/music/Playlists/road trip.m3u")).unwrap();
    assert_eq!(pl.name(), "road trip");
    assert_eq!(pl.path(), "/music/Playlists/road trip.m3u");
    assert_eq!(pl.len(), 0);
    assert!(pl.is_empty());
    assert!(!pl.is_modified());
}

#[test]
fn new_playlist_without_file_name_fails() {
    assert_eq!(Playlist::new(String::from("")).unwrap_err(), Error::MissingFileName);
    assert_eq!(Playlist::new(String::from("dir/")).unwrap_err(), Error::MissingFileName);
}

#[test]
fn hidden_file_keeps_leading_dot_in_stem() {
    let pl = Playlist::new(String::from("/m/.ignore.m3u")).unwrap();
    assert_eq!(pl.name(), ".ignore");
}

#[test]
fn push_and_query() {
    let mut pl = pl(&["a.mp3", "b.mp3"]);
    pl.push(t("a.mp3"));
    assert_eq!(pl.len(), 3);
    assert!(pl.contains(&t("a.mp3")));
    assert!(pl.contains(&t("b.mp3")));
    assert!(!pl.contains(&t("c.mp3")));
    assert_eq!(pl.track_positions(&t("a.mp3")).unwrap(), &vec![0usize, 2]);
    assert_eq!(pl.track_positions(&t("b.mp3")).unwrap(), &vec![1usize]);
    assert!(pl.track_positions(&t("c.mp3")).is_none());
    assert!(pl.is_modified());
    let mut unique: Vec<String> =
        pl.tracks_unique().iter().map(|x| x.path.clone()).collect();
    unique.sort();
    assert_eq!(unique, vec!["a.mp3".to_string(), "b.mp3".to_string()]);
}

#[test]
fn remove_at_shifts_positions() {
    // Removing B from [A, B, A, C] leaves [A, A, C] with A at {0, 1} and C
    // at {2}.
    let mut pl = pl(&["A", "B", "A", "C"]);
    pl.remove_at(1);
    assert_eq!(paths_of(&pl), vec!["A", "A", "C"]);
    assert_eq!(pl.track_positions(&t("A")).unwrap(), &vec![0usize, 1]);
    assert_eq!(pl.track_positions(&t("C")).unwrap(), &vec![2usize]);
    assert!(pl.track_positions(&t("B")).is_none());
}

#[test]
fn remove_at_out_of_range_is_ignored() {
    let mut pl = pl(&["A", "B"]);
    pl.mark_saved();
    pl.remove_at(17);
    assert_eq!(paths_of(&pl), vec!["A", "B"]);
    assert!(!pl.is_modified());
}

#[test]
fn remove_last_removes_highest_occurrence() {
    let mut pl = pl(&["A", "B", "A"]);
    assert!(pl.remove_last(&t("A")));
    assert_eq!(paths_of(&pl), vec!["A", "B"]);
    assert!(!pl.remove_last(&t("Z")));
    assert_eq!(paths_of(&pl), vec!["A", "B"]);
}

#[test]
fn remove_all_counts_occurrences() {
    let mut pl = pl(&["A", "B", "A", "C", "A"]);
    assert_eq!(pl.remove_all(&t("A")), 3);
    assert_eq!(paths_of(&pl), vec!["B", "C"]);
    assert_eq!(pl.remove_all(&t("Z")), 0);
}

#[test]
fn remove_duplicates_keeps_first_occurrences() {
    // [A, B, A, C, A] deduplicates to [A, B, C] with 2 removed; a second
    // call removes nothing.
    let mut pl = pl(&["A", "B", "A", "C", "A"]);
    assert_eq!(pl.count_duplicates(), 2);
    assert_eq!(pl.remove_duplicates(), 2);
    assert_eq!(paths_of(&pl), vec!["A", "B", "C"]);
    assert_eq!(pl.remove_duplicates(), 0);
    assert_eq!(paths_of(&pl), vec!["A", "B", "C"]);
}

#[test]
fn history_playlists_are_exempt_from_dedup() {
    let mut pl = Playlist::new(String::from("hist.2024.m3u")).unwrap();
    pl.push(t("A"));
    pl.push(t("A"));
    pl.push(t("B"));
    assert!(pl.is_history());
    assert_eq!(pl.remove_duplicates(), 0);
    assert_eq!(paths_of(&pl), vec!["A", "A", "B"]);
}

#[test]
fn bulk_rename_swaps_without_collapse() {
    // Renaming A to B while renaming B to A swaps the two identities.
    let mut pl = pl(&["A", "B", "A"]);
    let edits = vec![(t("A"), String::from("B")), (t("B"), String::from("A"))];
    let changed = pl.bulk_rename(&edits);
    assert_eq!(changed, 3);
    assert_eq!(paths_of(&pl), vec!["B", "A", "B"]);
    assert_eq!(pl.track_positions(&t("B")).unwrap(), &vec![0usize, 2]);
    assert_eq!(pl.track_positions(&t("A")).unwrap(), &vec![1usize]);
}

#[test]
fn bulk_rename_does_not_cascade() {
    // A -> B and B -> C must not turn A into C.
    let mut pl = pl(&["A", "B"]);
    let edits = vec![(t("A"), String::from("B")), (t("B"), String::from("C"))];
    assert_eq!(pl.bulk_rename(&edits), 2);
    assert_eq!(paths_of(&pl), vec!["B", "C"]);
}

#[test]
fn bulk_rename_skips_absent_tracks() {
    let mut pl = pl(&["A"]);
    pl.mark_saved();
    let edits = vec![(t("Z"), String::from("Y"))];
    assert_eq!(pl.bulk_rename(&edits), 0);
    assert_eq!(paths_of(&pl), vec!["A"]);
    assert!(!pl.is_modified());
}

#[test]
fn playlist_render_and_reload_round_trip() {
    let mut pl = pl(&["x/a.mp3", "y/b.mp3", "x/a.mp3"]);
    let text = pl.render();
    assert_eq!(text, "x/a.mp3\ny/b.mp3\nx/a.mp3\n");
    let back =
        Playlist::from_content(String::from("test.m3u"), text.as_str(), "/home/u/Music").unwrap();
    assert_eq!(paths_of(&back), paths_of(&pl));
    assert!(!back.is_modified());
    pl.mark_saved();
    assert!(!pl.is_modified());
    assert_eq!(pl.render(), text);
}

#[test]
fn playlist_single_empty_line_is_empty() {
    let pl = Playlist::from_content(String::from("t.m3u"), "\n", "/m").unwrap();
    assert!(pl.is_empty());
    let pl2 = Playlist::from_content(String::from("t.m3u"), "", "/m").unwrap();
    assert!(pl2.is_empty());
}

#[test]
fn playlist_lines_strip_music_dir_prefix() {
    let pl = Playlist::from_content(
        String::from("t.m3u"),
        "/home/u/Music/x/a.mp3\ny/b.mp3\n",
        "/home/u/Music",
    )
    .unwrap();
    assert_eq!(paths_of(&pl), vec!["x/a.mp3", "y/b.mp3"]);
}

#[test]
fn playcount_merge_sums_durations_into_first() {
    // Entries for A with counts [3, 5, 2] at positions 0, 2 and 4 merge
    // into one entry for A with count 10 at position 0, reporting 2.
    let mut pc = Playcount::new(String::from("2024-01.tsv"));
    pc.push(entry("A", 3));
    pc.push(entry("B", 7));
    pc.push(entry("A", 5));
    pc.push(entry("C", 1));
    pc.push(entry("A", 2));
    assert_eq!(pc.count_duplicates(), 2);
    assert_eq!(pc.merge_duplicates(), 2);
    let es = pc.entries();
    assert_eq!(es.len(), 3);
    assert_eq!(es[0].track.path, "A");
    assert_eq!(es[0].duration_ms, 10);
    assert_eq!(es[1].track.path, "B");
    assert_eq!(es[1].duration_ms, 7);
    assert_eq!(es[2].track.path, "C");
    assert_eq!(es[2].duration_ms, 1);
    assert_eq!(pc.merge_duplicates(), 0);
}

#[test]
fn playcount_bulk_rename_carries_durations() {
    let mut pc = Playcount::new(String::from("2024-01.tsv"));
    pc.push(entry("A", 3));
    pc.push(entry("B", 5));
    pc.push(entry("A", 7));
    let edits = vec![
        (t("A"), Some(entry("B", 0))),
        (t("B"), Some(entry("A", 0))),
    ];
    let changed = pc.bulk_rename(&edits).unwrap();
    assert_eq!(changed, 3);
    let es = pc.entries();
    assert_eq!(es[0].track.path, "B");
    assert_eq!(es[0].duration_ms, 3);
    assert_eq!(es[1].track.path, "A");
    assert_eq!(es[1].duration_ms, 5);
    assert_eq!(es[2].track.path, "B");
    assert_eq!(es[2].duration_ms, 7);
}

#[test]
fn playcount_bulk_rename_fails_whole_on_missing_replacement() {
    // One failed metadata lookup aborts the whole call with no change.
    let mut pc = Playcount::new(String::from("2024-01.tsv"));
    pc.push(entry("A", 3));
    pc.push(entry("B", 5));
    pc.mark_saved();
    let edits = vec![
        (t("A"), Some(entry("C", 0))),
        (t("B"), None),
    ];
    assert_eq!(pc.bulk_rename(&edits).unwrap_err(), Error::MissingReplacement);
    let es = pc.entries();
    assert_eq!(es[0].track.path, "A");
    assert_eq!(es[1].track.path, "B");
    assert!(!pc.is_modified());
}

#[test]
fn playcount_render_and_reload_round_trip() {
    let mut pc = Playcount::new(String::from("2024-01.tsv"));
    pc.push(Entry::new(
        t("x/a.mp3"),
        3500,
        String::from("Ann"),
        Some(String::from("Various")),
        Some(String::from("Hits")),
        String::from("One"),
    ));
    pc.push(Entry::new(t("y/b.mp3"), 3000, String::from("Bob"), None, None, String::from("Two")));
    let text = pc.render();
    assert_eq!(text, "3.5\tAnn\tVarious\tHits\tOne\tx/a.mp3\n3\tBob\t\t\tTwo\ty/b.mp3\n");
    let (back, skipped) =
        Playcount::from_content(String::from("2024-01.tsv"), text.as_str(), "/m");
    assert_eq!(skipped, 0);
    assert_eq!(back.len(), 2);
    let es = back.entries();
    assert_eq!(es[0].track.path, "x/a.mp3");
    assert_eq!(es[0].duration_ms, 3500);
    assert_eq!(es[0].artist, "Ann");
    assert_eq!(es[0].album_artist.as_deref(), Some("Various"));
    assert_eq!(es[0].album.as_deref(), Some("Hits"));
    assert_eq!(es[0].title, "One");
    assert_eq!(es[1].duration_ms, 3000);
    assert_eq!(es[1].album_artist, None);
    assert_eq!(back.render(), text);
}

#[test]
fn playcount_bad_lines_are_skipped() {
    let text = "3.5\tAnn\t\t\tOne\ta.mp3\nnot a record\nx\ty\n2\tBob\t\t\tTwo\tb.mp3\n";
    let (pc, skipped) = Playcount::from_content(String::from("t.tsv"), text, "/m");
    assert_eq!(skipped, 2);
    assert_eq!(pc.len(), 2);
    assert_eq!(pc.entries()[0].track.path, "a.mp3");
    assert_eq!(pc.entries()[1].track.path, "b.mp3");
}

#[test]
fn entry_album_path_is_parent_directory() {
    let e = entry("artist/album/song.mp3", 1);
    assert_eq!(e.album_path(), "artist/album");
    let e2 = entry("song.mp3", 1);
    assert_eq!(e2.album_path(), "");
}

#[test]
fn track_new_strips_music_dir() {
    assert_eq!(Track::new("/m/Music/a.mp3", "/m/Music").path, "a.mp3");
    assert_eq!(Track::new("a.mp3", "/m/Music").path, "a.mp3");
    assert_eq!(Track::new("/other/a.mp3", "/m/Music").path, "/other/a.mp3");
    assert_eq!(Track::new("/m/Music", "/m/Music").path, "");
    assert_eq!(Track::new("/m/Musica/a.mp3", "/m/Music").path, "/m/Musica/a.mp3");
}
