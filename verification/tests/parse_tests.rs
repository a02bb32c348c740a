use pgn_tools::date::date_to_timestamp;
use pgn_tools::sort::{sort_asc, sort_desc};
use pgn_tools::{parse_games, parse_games_checked};

#[test]
fn test_parse_two_games() {
    let pgn = r#"[Event "A"]
[Date "2020.05.10"]
[Result "1-0"]

1. e4 e5 1-0

[Event "B"]
[Date "1988.??.??"]
[Result "0-1"]

1. d4 d5 0-1
"#;
    let games = parse_games(pgn);
    assert_eq!(games.len(), 2);
    assert_eq!(games[0].date_raw, "2020.05.10");
    assert_eq!(games[0].timestamp, date_to_timestamp(2020, 5, 10));
    assert_eq!(games[1].date_raw, "1988.??.??");
    assert_eq!(games[1].timestamp, date_to_timestamp(1988, 1, 1));
}

#[test]
fn test_sorting_asc() {
    let pgn = r#"[Event "C"]
[Date "2020.05.10"]
[Result "1-0"]

1. e4 e5 1-0

[Event "A"]
[Date "1988.??.??"]
[Result "0-1"]

1. d4 d5 0-1

[Event "B"]
[Date "2002.06.??"]
[Result "1/2-1/2"]

1. c4 e5 1/2-1/2
"#;
    let mut games = parse_games(pgn);
    sort_asc(&mut games);
    assert_eq!(games[0].date_raw, "1988.??.??");
    assert_eq!(games[1].date_raw, "2002.06.??");
    assert_eq!(games[2].date_raw, "2020.05.10");
}

#[test]
fn parse_keeps_raw_text_trimmed() {
    let pgn = "\u{20}\n[Event \"A\"]\r\n[Date \"2001.01.01\"]\r\n\r\n1. e4 *\r\n\r\n\r\n[Event \"B\"]\n\n1. d4 *\n";
    let games = parse_games(pgn);
    assert_eq!(games.len(), 2);
    assert_eq!(games[0].raw, "[Event \"A\"]\n[Date \"2001.01.01\"]\n\n1. e4 *");
    assert_eq!(games[1].raw, "[Event \"B\"]\n\n1. d4 *");
    assert_eq!(games[1].date_raw, "????.??.??");
    assert_eq!(games[1].timestamp, date_to_timestamp(101, 1, 1));
}

#[test]
fn parse_needs_blank_line_before_bracket() {
    // a `[` line right after move text does not start a new game
    let pgn = "[Event \"A\"]\n\n1. e4\n[Event \"B\"]\n";
    let games = parse_games(pgn);
    assert_eq!(games.len(), 1);
    assert_eq!(games[0].raw, "[Event \"A\"]\n\n1. e4\n[Event \"B\"]");
}

#[test]
fn parse_empty_and_blank_input() {
    assert_eq!(parse_games("").len(), 0);
    assert_eq!(parse_games("  \n\t\n").len(), 0);
}

#[test]
fn parse_checked_refuses_bad_month() {
    assert!(parse_games_checked("[Date \"2020.13.01\"]\n\n1. e4 *\n").is_none());
    assert!(parse_games_checked("[Date \"2020.-1.01\"]\n").is_none());
    assert!(parse_games_checked("[Date \"-2147483648.01.01\"]\n").is_none());
    let ok = parse_games_checked("[Date \"2020.12.01\"]\n").unwrap();
    assert_eq!(ok.len(), 1);
}

#[test]
fn sort_desc_is_stable() {
    let pgn = "[Event \"1\"]\n[Date \"2000.01.01\"]\n\n[Event \"2\"]\n[Date \"2010.01.01\"]\n\n[Event \"3\"]\n[Date \"2000.??.??\"]\n\n[Event \"4\"]\n[Date \"2010.01.??\"]\n";
    let mut games = parse_games(pgn);
    sort_desc(&mut games);
    let order: Vec<&str> = games.iter().map(|g| &g.raw[8..9]).collect();
    assert_eq!(order, vec!["2", "4", "1", "3"]);
    sort_asc(&mut games);
    let order: Vec<&str> = games.iter().map(|g| &g.raw[8..9]).collect();
    assert_eq!(order, vec!["1", "3", "2", "4"]);
}

#[test]
fn sort_keeps_every_game() {
    let mut pgn = String::new();
    for i in 0..200 {
        let y = 1950 + (i * 37) % 70;
        pgn.push_str(&format!("[Event \"{i}\"]\n[Date \"{y}.0{}.1{}\"]\n\n1. e4 *\n\n", i % 9 + 1, i % 10));
    }
    let mut games = parse_games(&pgn);
    assert_eq!(games.len(), 200);
    sort_asc(&mut games);
    assert_eq!(games.len(), 200);
    for w in games.windows(2) {
        assert!(w[0].timestamp <= w[1].timestamp);
    }
    sort_desc(&mut games);
    for w in games.windows(2) {
        assert!(w[0].timestamp >= w[1].timestamp);
    }
    let mut names: Vec<String> = games.iter().map(|g| g.raw.clone()).collect();
    names.sort();
    names.dedup();
    assert_eq!(names.len(), 200);
}
