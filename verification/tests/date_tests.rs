use pgn_tools::date::{date_to_timestamp, extract_date, is_leap_year, pgn_date_to_timestamp};

#[test]
fn test_date_to_timestamp() {
    assert_eq!(date_to_timestamp(1970, 1, 1), 0);
    assert_eq!(date_to_timestamp(1970, 1, 2), 86400);
    assert_eq!(date_to_timestamp(2000, 1, 1), 946684800);
    assert!(date_to_timestamp(1969, 12, 31) < 0);
    assert_eq!(date_to_timestamp(1969, 12, 31), -86400);
}

#[test]
fn test_pgn_date_to_timestamp() {
    assert_eq!(pgn_date_to_timestamp("1970.01.01"), 0);
    assert_eq!(pgn_date_to_timestamp("2000.01.01"), 946684800);
    assert_eq!(pgn_date_to_timestamp("1988.??.??"), date_to_timestamp(1988, 1, 1));
    assert_eq!(pgn_date_to_timestamp("2002.06.??"), date_to_timestamp(2002, 6, 1));
    assert_eq!(pgn_date_to_timestamp("2013.07.27"), date_to_timestamp(2013, 7, 27));
}

#[test]
fn test_extract_date() {
    let headers = r#"[Event "Test"]
[Site "Nowhere"]
[Date "1988.??.??"]
[Round "1"]"#;
    assert_eq!(extract_date(headers), Some("1988.??.??".to_string()));
}

#[test]
fn leap_years_follow_gregorian_rule() {
    assert!(is_leap_year(2000));
    assert!(is_leap_year(2024));
    assert!(!is_leap_year(1900));
    assert!(!is_leap_year(2023));
    assert!(is_leap_year(-4));
}

#[test]
fn leap_day_and_month_lengths() {
    // 2024 is a leap year: Feb 29 exists, Mar 1 is the next day
    assert_eq!(date_to_timestamp(2024, 3, 1) - date_to_timestamp(2024, 2, 28), 2 * 86400);
    assert_eq!(date_to_timestamp(2023, 3, 1) - date_to_timestamp(2023, 2, 28), 86400);
    assert_eq!(date_to_timestamp(2025, 1, 1) - date_to_timestamp(2024, 1, 1), 366 * 86400);
    assert_eq!(date_to_timestamp(2024, 1, 1) - date_to_timestamp(2023, 1, 1), 365 * 86400);
    assert_eq!(date_to_timestamp(2021, 7, 4), 1625356800);
}

#[test]
fn month_zero_counts_like_january() {
    assert_eq!(date_to_timestamp(2020, 0, 1), date_to_timestamp(2020, 1, 1));
}

#[test]
fn pgn_dates_with_defaults() {
    // missing or unreadable components
    assert_eq!(pgn_date_to_timestamp("????.??.??"), date_to_timestamp(101, 1, 1));
    assert_eq!(pgn_date_to_timestamp(""), date_to_timestamp(1970, 1, 1));
    assert_eq!(pgn_date_to_timestamp("2020"), date_to_timestamp(2020, 1, 1));
    assert_eq!(pgn_date_to_timestamp("2020.x.5"), date_to_timestamp(2020, 1, 5));
    assert_eq!(pgn_date_to_timestamp("+2020.-0.05"), date_to_timestamp(2020, 0, 5));
    assert_eq!(pgn_date_to_timestamp("99999999999.02.03"), date_to_timestamp(1970, 2, 3));
}

#[test]
fn extract_date_edge_cases() {
    assert_eq!(extract_date("[Event \"A\"]"), None);
    assert_eq!(extract_date("  [Date \"2001.02.03\"]  \r\n[Date \"1999.01.01\"]"), Some("2001.02.03".to_string()));
    // a Date line with a single quote is passed over
    assert_eq!(extract_date("[Date \"broken]\n[Date \"2010.10.10\"]"), Some("2010.10.10".to_string()));
    assert_eq!(extract_date("[Date \"\"]"), Some(String::new()));
    assert_eq!(extract_date("[Date\"2001.02.03\"]"), None);
}
