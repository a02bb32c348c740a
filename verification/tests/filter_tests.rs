use pgn_tools::date::{date_to_timestamp, pgn_date_to_timestamp};
use pgn_tools::filter::{
    filter_games, matches_filter, parse_filter, parse_filter_checked, retain_matching, Comparator,
};
use pgn_tools::PgnGame;

fn make_game(date_raw: &str) -> PgnGame {
    PgnGame {
        raw: String::new(),
        date_raw: date_raw.to_string(),
        timestamp: pgn_date_to_timestamp(date_raw),
    }
}

#[test]
fn test_parse_filter() {
    let f = parse_filter("2026");
    assert_eq!(f.comparator, None);
    assert_eq!(f.year, 2026);
    assert_eq!(f.month, None);
    assert_eq!(f.day, None);

    let f = parse_filter("2026-01");
    assert_eq!(f.comparator, None);
    assert_eq!(f.year, 2026);
    assert_eq!(f.month, Some(1));
    assert_eq!(f.day, None);

    let f = parse_filter("2026-01-15");
    assert_eq!(f.comparator, None);
    assert_eq!(f.year, 2026);
    assert_eq!(f.month, Some(1));
    assert_eq!(f.day, Some(15));

    let f = parse_filter("< 2025");
    assert_eq!(f.comparator, Some(Comparator::Lt));
    assert_eq!(f.year, 2025);

    let f = parse_filter(">= 2025-06");
    assert_eq!(f.comparator, Some(Comparator::Ge));
    assert_eq!(f.year, 2025);
    assert_eq!(f.month, Some(6));

    let f = parse_filter("<= 2025-06-15");
    assert_eq!(f.comparator, Some(Comparator::Le));
    assert_eq!(f.year, 2025);
    assert_eq!(f.month, Some(6));
    assert_eq!(f.day, Some(15));

    let f = parse_filter("> 2020");
    assert_eq!(f.comparator, Some(Comparator::Gt));
    assert_eq!(f.year, 2020);
}

#[test]
fn test_matches_filter_exact_year() {
    let filter = parse_filter("2025");

    assert!(matches_filter(&make_game("2025.??.??"), &filter));
    assert!(matches_filter(&make_game("2025.06.15"), &filter));
    assert!(matches_filter(&make_game("2025.12.??"), &filter));
    assert!(!matches_filter(&make_game("2024.12.31"), &filter));
    assert!(!matches_filter(&make_game("2026.01.01"), &filter));
}

#[test]
fn test_matches_filter_exact_year_month() {
    let filter = parse_filter("2025-06");

    assert!(matches_filter(&make_game("2025.06.??"), &filter));
    assert!(matches_filter(&make_game("2025.06.15"), &filter));
    assert!(!matches_filter(&make_game("2025.??.??"), &filter)); // ?? -> 01 != 06
    assert!(!matches_filter(&make_game("2025.07.01"), &filter));
    assert!(!matches_filter(&make_game("2024.06.15"), &filter));
}

#[test]
fn test_matches_filter_exact_year_month_matches_unknown() {
    // "2025-01" should match "2025.??.??" because ?? -> 01
    let filter = parse_filter("2025-01");
    assert!(matches_filter(&make_game("2025.??.??"), &filter));
}

#[test]
fn test_matches_filter_exact_full_date() {
    let filter = parse_filter("2025-06-15");

    assert!(matches_filter(&make_game("2025.06.15"), &filter));
    assert!(!matches_filter(&make_game("2025.06.16"), &filter));
    assert!(!matches_filter(&make_game("2025.06.??"), &filter)); // ?? -> 01 != 15
    assert!(!matches_filter(&make_game("2025.??.??"), &filter));
}

#[test]
fn test_matches_filter_exact_full_date_matches_unknown() {
    // "2025-01-01" should match "2025.??.??" because ?? -> 01
    let filter = parse_filter("2025-01-01");
    assert!(matches_filter(&make_game("2025.??.??"), &filter));
    assert!(matches_filter(&make_game("2025.01.??"), &filter));
}

#[test]
fn test_matches_filter_comparators() {
    // < 2025 means before 2025.01.01
    let filter = parse_filter("< 2025");
    assert!(matches_filter(&make_game("2024.12.31"), &filter));
    assert!(matches_filter(&make_game("2020.01.01"), &filter));
    assert!(!matches_filter(&make_game("2025.01.01"), &filter));
    assert!(!matches_filter(&make_game("2025.06.15"), &filter));

    // >= 2025-06 means >= 2025.06.01
    let filter = parse_filter(">= 2025-06");
    assert!(matches_filter(&make_game("2025.06.01"), &filter));
    assert!(matches_filter(&make_game("2025.06.15"), &filter));
    assert!(matches_filter(&make_game("2025.12.31"), &filter));
    assert!(matches_filter(&make_game("2026.01.01"), &filter));
    assert!(!matches_filter(&make_game("2025.05.31"), &filter));
    assert!(!matches_filter(&make_game("2024.12.31"), &filter));

    // > 2025 means > 2025.01.01
    let filter = parse_filter("> 2025");
    assert!(matches_filter(&make_game("2025.01.02"), &filter));
    assert!(matches_filter(&make_game("2026.01.01"), &filter));
    assert!(!matches_filter(&make_game("2025.01.01"), &filter));
    assert!(!matches_filter(&make_game("2024.12.31"), &filter));

    // <= 2025-06-15
    let filter = parse_filter("<= 2025-06-15");
    assert!(matches_filter(&make_game("2025.06.15"), &filter));
    assert!(matches_filter(&make_game("2025.06.14"), &filter));
    assert!(matches_filter(&make_game("2024.01.01"), &filter));
    assert!(!matches_filter(&make_game("2025.06.16"), &filter));
}

#[test]
fn test_filter_with_unknown_date_components() {
    // Comparisons use sort key (??->01)
    let filter = parse_filter("< 2025");
    assert!(matches_filter(&make_game("1988.??.??"), &filter));

    let filter = parse_filter(">= 2025");
    assert!(matches_filter(&make_game("2025.??.??"), &filter));

    // Exact match: ?? is replaced by 01
    let filter = parse_filter("2025-06");
    assert!(!matches_filter(&make_game("2025.??.??"), &filter)); // 01 != 06

    let filter = parse_filter("2025-01");
    assert!(matches_filter(&make_game("2025.??.??"), &filter)); // 01 == 01

    let filter = parse_filter("2025-06-15");
    assert!(!matches_filter(&make_game("2025.06.??"), &filter)); // 01 != 15
    assert!(!matches_filter(&make_game("2025.??.??"), &filter)); // 01 != 06
}

#[test]
fn parse_filter_timestamps_and_defaults() {
    assert_eq!(parse_filter("< 2025").timestamp, date_to_timestamp(2025, 1, 1));
    assert_eq!(parse_filter(">= 2025-06").timestamp, date_to_timestamp(2025, 6, 1));
    assert_eq!(parse_filter("  <=2025-06-15  ").timestamp, date_to_timestamp(2025, 6, 15));
    let f = parse_filter("abc-xy");
    assert_eq!(f.year, 1970);
    assert_eq!(f.month, Some(1));
    assert_eq!(f.comparator, None);
    let f = parse_filter("=> 2020");
    assert_eq!(f.comparator, None);
    assert_eq!(f.year, 1970);
}

#[test]
fn parse_filter_checked_refuses_unusable_months() {
    assert!(parse_filter_checked("2025-13").is_none());
    assert!(parse_filter_checked("> 2025-14").is_none());
    assert!(parse_filter_checked("1999-99-01").is_none());
    // a leading '-' separates an empty year from the rest
    let f = parse_filter_checked("-2147483648").unwrap();
    assert_eq!(f.year, 1970);
    assert_eq!(f.month, Some(1));
    assert!(parse_filter_checked("2025-12-40").is_some());
    assert!(parse_filter_checked("2025-0").is_some());
}

#[test]
fn exact_filter_needs_three_components() {
    let filter = parse_filter("2025");
    assert!(!matches_filter(&make_game("2025.06"), &filter));
    assert!(!matches_filter(&make_game("2025.06.01.02"), &filter));
}

#[test]
fn filter_games_keeps_order() {
    let games: Vec<PgnGame> = ["2020.01.01", "1999.05.05", "2021.07.04", "2020.??.??", "2019.12.31"]
        .iter()
        .map(|d| make_game(d))
        .collect();
    let picked = filter_games(&games, ">= 2020");
    let dates: Vec<&str> = picked.iter().map(|g| g.date_raw.as_str()).collect();
    assert_eq!(dates, vec!["2020.01.01", "2021.07.04", "2020.??.??"]);
    let picked = filter_games(&games, "2020");
    assert_eq!(picked.len(), 2);
}

#[test]
fn retain_matching_reports_total() {
    let mut games: Vec<PgnGame> = ["2020.01.01", "1999.05.05", "2021.07.04", "2020.??.??", "2019.12.31"]
        .iter()
        .map(|d| make_game(d))
        .collect();
    let total = retain_matching(&mut games, "< 2020");
    assert_eq!(total, 5);
    let dates: Vec<&str> = games.iter().map(|g| g.date_raw.as_str()).collect();
    assert_eq!(dates, vec!["1999.05.05", "2019.12.31"]);
}
