use music_tools::entry::Entry;
use music_tools::playcount::Playcount;
use music_tools::playlist::Playlist;
use music_tools::tools::{merge_playcount_duplicates, remove_playlist_duplicates,
    remove_tracks_from_playcounts, remove_tracks_from_playlists};
use music_tools::track::Track;

fn t(path: &str) -> Track {
    Track { path: String::from(path) }
}

fn pl(name: &str, paths: &[&str]) -> Playlist {
    let mut pl = Playlist::new(String::from(name)).unwrap();
    for p in paths {
        pl.push(t(p));
    }
    pl
}

fn paths_of(pl: &Playlist) -> Vec<String> {
    pl.tracks().iter().map(|x| x.path.clone()).collect()
}

fn entry(path: &str, ms: u64) -> Entry {
    Entry::new(t(path), ms, String::from("ar"), None, None, String::from("ti"))
}

#[test]
fn dedup_runs_across_playlists_but_skips_histories() {
    let mut playlists = vec![
        pl("one.m3u", &["A", "B", "A"]),
        pl("hist.old.m3u", &["C", "C"]),
        pl("two.m3u", &["D", "D", "D"]),
    ];
    let removed = remove_playlist_duplicates(&mut playlists);
    assert_eq!(removed, 3);
    assert_eq!(paths_of(&playlists[0]), vec!["A", "B"]);
    assert_eq!(paths_of(&playlists[1]), vec!["C", "C"]);
    assert_eq!(paths_of(&playlists[2]), vec!["D"]);
}

#[test]
fn merge_runs_across_playcounts() {
    let mut a = Playcount::new(String::from("a.tsv"));
    a.push(entry("X", 1));
    a.push(entry("X", 2));
    let mut b = Playcount::new(String::from("b.tsv"));
    b.push(entry("Y", 5));
    let mut playcounts = vec![a, b];
    let removed = merge_playcount_duplicates(&mut playcounts);
    assert_eq!(removed, 1);
    assert_eq!(playcounts[0].len(), 1);
    assert_eq!(playcounts[0].entries()[0].duration_ms, 3);
    assert_eq!(playcounts[1].len(), 1);
}

#[test]
fn invalid_tracks_leave_playlists_but_histories_feed_ignore() {
    let mut playlists = vec![
        pl("one.m3u", &["bad", "good", "bad"]),
        pl("hist.old.m3u", &["bad", "other"]),
    ];
    let mut ignore = Playlist::new(String::from(".ignore.m3u")).unwrap();
    let doomed = vec![t("bad")];
    remove_tracks_from_playlists(&mut playlists, &doomed, &mut ignore);
    assert_eq!(paths_of(&playlists[0]), vec!["good"]);
    assert_eq!(paths_of(&playlists[1]), vec!["bad", "other"]);
    assert_eq!(paths_of(&ignore), vec!["bad"]);
}

#[test]
fn playcount_tracks_feed_ignore_without_deletion() {
    let mut pc = Playcount::new(String::from("a.tsv"));
    pc.push(entry("bad", 1));
    pc.push(entry("good", 2));
    let playcounts = vec![pc];
    let mut ignore = Playlist::new(String::from(".ignore.m3u")).unwrap();
    let doomed = vec![t("bad"), t("gone")];
    remove_tracks_from_playcounts(&playcounts, &doomed, &mut ignore);
    assert_eq!(playcounts[0].len(), 2);
    assert_eq!(paths_of(&ignore), vec!["bad"]);
}
