use music_tools::error::Error;
use music_tools::gen::{generate, parse_content, Content};
use music_tools::library_size;
use music_tools::paths::{current_playcount_path, ignore_file, path_from, playcount_dir,
    playcount_filename, playlist_dir};
use music_tools::strutil::{format_ms, format_u64, parse_ms_str, parse_u64, split_lines_vec,
    str_eq, str_has_prefix};
use music_tools::track::Track;

fn t(path: &str) -> Track {
    Track { path: String::from(path) }
}

#[test]
fn numbers_format_and_parse() {
    assert_eq!(format_u64(0), "0");
    assert_eq!(format_u64(90210), "90210");
    assert_eq!(format_u64(u64::MAX), "18446744073709551615");
    assert_eq!(parse_u64("0"), Some(0));
    assert_eq!(parse_u64("90210"), Some(90210));
    assert_eq!(parse_u64("18446744073709551615"), Some(u64::MAX));
    assert_eq!(parse_u64("18446744073709551616"), None);
    assert_eq!(parse_u64(""), None);
    assert_eq!(parse_u64("12a"), None);
    assert_eq!(parse_u64("-3"), None);
}

#[test]
fn durations_format_and_parse() {
    assert_eq!(format_ms(3000), "3");
    assert_eq!(format_ms(3500), "3.5");
    assert_eq!(format_ms(3050), "3.05");
    assert_eq!(format_ms(3005), "3.005");
    assert_eq!(format_ms(0), "0");
    assert_eq!(parse_ms_str("3"), Some(3000));
    assert_eq!(parse_ms_str("3.5"), Some(3500));
    assert_eq!(parse_ms_str("3.05"), Some(3050));
    assert_eq!(parse_ms_str("3.005"), Some(3005));
    assert_eq!(parse_ms_str("210.133"), Some(210133));
    assert_eq!(parse_ms_str(""), None);
    assert_eq!(parse_ms_str("."), None);
    assert_eq!(parse_ms_str("3."), None);
    assert_eq!(parse_ms_str(".5"), None);
    assert_eq!(parse_ms_str("3.1415"), None);
    assert_eq!(parse_ms_str("1e3"), None);
}

#[test]
fn lines_split_like_a_reader() {
    let lines = split_lines_vec("a\nb\n");
    assert_eq!(lines, vec!["a", "b"]);
    let lines = split_lines_vec("a\n\nb");
    assert_eq!(lines, vec!["a", "", "b"]);
    let lines = split_lines_vec("");
    assert!(lines.is_empty());
    let lines = split_lines_vec("\n");
    assert_eq!(lines, vec![""]);
}

#[test]
fn prefixes_and_equality() {
    assert!(str_has_prefix("hist.2024", "hist."));
    assert!(!str_has_prefix("history", "hist."));
    assert!(str_eq("abc", "abc"));
    assert!(!str_eq("abc", "abd"));
}

#[test]
fn content_parses_numbers_and_durations() {
    assert!(matches!(parse_content(&String::from("25")), Ok(Content::Number(25))));
    assert!(matches!(
        parse_content(&String::from("90:00")),
        Ok(Content::Duration(5_400_000))
    ));
    assert!(matches!(
        parse_content(&String::from("1:30:05")),
        Ok(Content::Duration(5_405_000))
    ));
    assert_eq!(parse_content(&String::from("abc")).unwrap_err(), Error::BadContent);
    assert_eq!(parse_content(&String::from("1:2:3:4")).unwrap_err(), Error::BadContent);
    assert_eq!(parse_content(&String::from(":30")).unwrap_err(), Error::BadContent);
}

#[test]
fn generate_by_count() {
    let candidates = vec![(t("a"), 1000u64), (t("b"), 2000), (t("c"), 3000)];
    let out = generate(&String::from("2"), false, false, &candidates).unwrap();
    let names: Vec<&str> = out.iter().map(|x| x.path.as_str()).collect();
    assert_eq!(names, vec!["a", "b"]);
    let out = generate(&String::from("2"), true, false, &candidates).unwrap();
    let names: Vec<&str> = out.iter().map(|x| x.path.as_str()).collect();
    assert_eq!(names, vec!["c", "b"]);
    let out = generate(&String::from("9"), false, false, &candidates).unwrap();
    assert_eq!(out.len(), 3);
    assert_eq!(
        generate(&String::from("9"), false, true, &candidates).unwrap_err(),
        Error::NotEnoughTracks
    );
}

#[test]
fn generate_by_duration() {
    // 0:05 asks for five seconds; a and b together reach it.
    let candidates = vec![(t("a"), 3000u64), (t("b"), 2000), (t("c"), 3000)];
    let out = generate(&String::from("0:05"), false, false, &candidates).unwrap();
    let names: Vec<&str> = out.iter().map(|x| x.path.as_str()).collect();
    assert_eq!(names, vec!["a", "b"]);
    let out = generate(&String::from("0:20"), false, false, &candidates).unwrap();
    assert_eq!(out.len(), 3);
    assert_eq!(
        generate(&String::from("0:20"), false, true, &candidates).unwrap_err(),
        Error::NotEnoughTracks
    );
    assert_eq!(
        generate(&String::from("nonsense"), false, false, &candidates).unwrap_err(),
        Error::BadContent
    );
}

#[test]
fn library_size_counts_songs() {
    let songs = vec![t("a"), t("b"), t("c")];
    assert_eq!(library_size(&songs), 3);
    assert_eq!(library_size(&Vec::new()), 0);
}

#[test]
fn directories_and_filenames() {
    assert_eq!(playlist_dir("/home/u/Music"), "/home/u/Music/Playlists");
    assert_eq!(playcount_dir("/home/u/Music"), "/home/u/Music/.playcount");
    assert_eq!(ignore_file("/home/u/Music"), "/home/u/Music/.ignore.m3u");
    assert_eq!(playcount_filename(2024, 3), "2024-03.tsv");
    assert_eq!(playcount_filename(988, 12), "0988-12.tsv");
    assert_eq!(path_from("/home/u", "Music").unwrap(), "/home/u/Music");
    assert_eq!(path_from("/home/u/", "Music").unwrap(), "/home/u/Music");
    assert_eq!(path_from("home", "Music").unwrap_err(), Error::NotAbsolute);
    assert_eq!(path_from("/home", "/Music").unwrap_err(), Error::NotRelative);
    assert!(!Error::BadContent.message().is_empty());
}

#[test]
fn current_playcount_path_names_a_month() {
    let p = current_playcount_path("/m/.playcount").unwrap();
    assert!(p.starts_with("/m/.playcount/"));
    assert!(p.ends_with(".tsv"));
    let name = &p["/m/.playcount/".len()..];
    // year-month.tsv: four or more digits, a dash, two digits.
    let dash = name.find('-').unwrap();
    assert!(dash >= 4);
    assert!(name[..dash].chars().all(|c| c.is_ascii_digit()));
    assert!(name[dash + 1..dash + 3].chars().all(|c| c.is_ascii_digit()));
}
