use pgn_tools::cli::{default_output_path, filtered_output_path, output_path, sort_games, validate_args};
use pgn_tools::parse_games;
use pgn_tools::util::{count_invalid_utf8, decode_pgn, format_games, is_valid_utf8_at};

#[test]
fn format_games_joins_with_blank_lines() {
    let games = parse_games("[A \"1\"]\n\n1. e4\n\n[B \"2\"]\n\n1. d4\n");
    let refs: Vec<_> = games.iter().collect();
    assert_eq!(format_games(&refs, 3), "[A \"1\"]\n\n1. e4\n\n[B \"2\"]\n\n1. d4\n\n\n");
    assert_eq!(format_games(&refs, 0), "[A \"1\"]\n\n1. e4\n\n[B \"2\"]\n\n1. d4\n");
    assert_eq!(format_games(&[], 2), "\n\n");
}

#[test]
fn decode_strips_bom_and_counts_newlines() {
    let (text, n) = decode_pgn("\u{feff}[A]\n\n1. e4\n\n".as_bytes());
    assert_eq!(text, "[A]\n\n1. e4\n\n");
    assert_eq!(n, 2);
    let (text, n) = decode_pgn(b"ab");
    assert_eq!(text, "ab");
    assert_eq!(n, 0);
    let (text, n) = decode_pgn(b"\n\n\n");
    assert_eq!(text, "\n\n\n");
    assert_eq!(n, 3);
}

#[test]
fn decode_replaces_invalid_bytes() {
    let (text, n) = decode_pgn(b"a\xffb\n");
    assert_eq!(text, "a\u{fffd}b\n");
    assert_eq!(n, 1);
}

#[test]
fn invalid_utf8_is_counted() {
    assert_eq!(count_invalid_utf8("héllo".as_bytes()), None);
    assert_eq!(count_invalid_utf8(b"a\xffb"), Some(1));
    assert_eq!(count_invalid_utf8(b"\xff\xfe"), Some(2));
    // no window that starts at or before each byte is valid as a whole
    assert_eq!(count_invalid_utf8(b"\xc3\xa9\xa9"), Some(3));
}

#[test]
fn utf8_window_check() {
    let bytes = "aé".as_bytes();
    assert!(is_valid_utf8_at(bytes, 1));
    assert!(is_valid_utf8_at(bytes, 2));
    assert!(!is_valid_utf8_at(b"\xff", 0));
    assert!(is_valid_utf8_at(b"\xff", 1));
}

#[test]
fn default_paths() {
    assert_eq!(default_output_path("games.pgn", "sorted"), "games-sorted.pgn");
    assert_eq!(default_output_path("games", "filtered"), "games-filtered");
    assert_eq!(default_output_path("dir/x.PGN", "sorted"), "dir/x.PGN-sorted");
    assert_eq!(output_path(Some("out.pgn"), true, "in.pgn"), "out.pgn");
    assert_eq!(output_path(None, true, "in.pgn"), "in-filtered.pgn");
    assert_eq!(output_path(None, false, "in.pgn"), "in-sorted.pgn");
}

#[test]
fn filter_file_path() {
    assert_eq!(filtered_output_path(Some("year2014.pgn"), None, "games.pgn"), "year2014.pgn");
    assert_eq!(filtered_output_path(Some("f.pgn"), Some("o.pgn"), "games.pgn"), "f.pgn");
    assert_eq!(filtered_output_path(None, Some("o.pgn"), "games.pgn"), "o.pgn");
    assert_eq!(filtered_output_path(None, None, "games.pgn"), "games-filtered.pgn");
}

#[test]
fn asc_and_desc_exclude_each_other() {
    assert!(!validate_args(true, true));
    assert!(validate_args(true, false));
    assert!(validate_args(false, true));
    assert!(validate_args(false, false));
}

#[test]
fn sort_games_picks_direction() {
    let mut games = parse_games("[Date \"2001.01.01\"]\n\n[Date \"1999.01.01\"]\n\n[Date \"2005.01.01\"]\n");
    sort_games(&mut games, true);
    let dates: Vec<&str> = games.iter().map(|g| g.date_raw.as_str()).collect();
    assert_eq!(dates, vec!["2005.01.01", "2001.01.01", "1999.01.01"]);
    sort_games(&mut games, false);
    let dates: Vec<&str> = games.iter().map(|g| g.date_raw.as_str()).collect();
    assert_eq!(dates, vec!["1999.01.01", "2001.01.01", "2005.01.01"]);
}
