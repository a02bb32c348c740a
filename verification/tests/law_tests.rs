use pgn_tools::date::{date_to_timestamp, pgn_date_to_timestamp};
use pgn_tools::filter::{matches_filter, parse_filter, retain_matching};
use pgn_tools::sort::{sort_asc, sort_desc};
use pgn_tools::util::{decode_pgn, format_games};
use pgn_tools::{parse_games, PgnGame};

fn sample() -> Vec<PgnGame> {
    let pgn = "[Event \"a\"]\n[Date \"2020.05.01\"]\n\n[Event \"b\"]\n[Date \"2019.??.??\"]\n\n\
[Event \"c\"]\n[Date \"2020.05.01\"]\n\n[Event \"d\"]\n[Date \"2021.01.01\"]\n\n\
[Event \"e\"]\n[Date \"2019.01.01\"]\n\n[Event \"f\"]\n[Date \"2020.??.??\"]\n\n\
[Event \"g\"]\n[Date \"2020.12.31\"]\n";
    parse_games(pgn)
}

fn names(games: &[PgnGame]) -> String {
    games.iter().map(|g| &g.raw[8..9]).collect()
}

#[test]
fn timestamps_follow_calendar_order() {
    let dates = [(1899, 12, 31), (1900, 1, 1), (1900, 2, 28), (1900, 3, 1), (1999, 12, 31),
        (2000, 2, 29), (2000, 3, 1), (2024, 2, 29), (2024, 12, 31), (2025, 1, 1)];
    for w in dates.windows(2) {
        let (a, b) = (w[0], w[1]);
        assert!(date_to_timestamp(a.0, a.1, a.2) < date_to_timestamp(b.0, b.1, b.2));
    }
    assert_eq!(date_to_timestamp(1900, 3, 1) - date_to_timestamp(1900, 2, 28), 86400);
    assert_eq!(date_to_timestamp(2000, 3, 1) - date_to_timestamp(2000, 2, 28), 2 * 86400);
}

#[test]
fn unknown_components_read_as_01() {
    assert_eq!(pgn_date_to_timestamp("2020.??.05"), pgn_date_to_timestamp("2020.01.05"));
    assert_eq!(pgn_date_to_timestamp("????.??.??"), pgn_date_to_timestamp("0101.01.01"));
    let f = parse_filter("2020-01-05");
    let g1 = PgnGame { raw: String::new(), date_raw: "2020.??.05".to_string(), timestamp: 0 };
    let g2 = PgnGame { raw: String::new(), date_raw: "2020.01.05".to_string(), timestamp: 0 };
    assert!(matches_filter(&g1, &f));
    assert!(matches_filter(&g2, &f));
}

#[test]
fn filtering_then_sorting_equals_sorting_then_filtering() {
    for expr in [">= 2020", "2020", "< 2020-06", "2019-01"] {
        for desc in [false, true] {
            let mut a = sample();
            if desc { sort_desc(&mut a) } else { sort_asc(&mut a) }
            retain_matching(&mut a, expr);
            let mut b = sample();
            retain_matching(&mut b, expr);
            if desc { sort_desc(&mut b) } else { sort_asc(&mut b) }
            assert_eq!(names(&a), names(&b));
        }
    }
}

#[test]
fn stable_sort_has_one_outcome() {
    let mut a = sample();
    sort_asc(&mut a);
    assert_eq!(names(&a), "befacgd");
    let mut b = sample();
    sort_desc(&mut b);
    assert_eq!(names(&b), "dgacfbe");
    sort_asc(&mut b);
    assert_eq!(names(&a), names(&b));
    sort_asc(&mut a);
    assert_eq!(names(&a), "befacgd");
}

#[test]
fn year_filter_is_a_time_range() {
    let games = sample();
    let exact = parse_filter("2020");
    let from = parse_filter(">= 2020");
    let before = parse_filter("< 2021");
    for g in &games {
        let in_range = matches_filter(g, &from) && matches_filter(g, &before);
        assert_eq!(matches_filter(g, &exact), in_range);
    }
    assert_eq!(date_to_timestamp(2021, 1, 1), before.timestamp);
}

#[test]
fn month_and_day_filters_are_time_ranges() {
    let games = sample();
    let month = parse_filter("2020-05");
    let from = parse_filter(">= 2020-05");
    let before = parse_filter("< 2020-06");
    for g in &games {
        let in_range = matches_filter(g, &from) && matches_filter(g, &before);
        assert_eq!(matches_filter(g, &month), in_range);
    }
    let day = parse_filter("2020-12-31");
    for g in &games {
        assert_eq!(matches_filter(g, &day), g.timestamp == date_to_timestamp(2020, 12, 31));
    }
}

#[test]
fn output_keeps_input_trailing_newlines() {
    let (text, n) = decode_pgn(b"[A \"1\"]\n\n1. e4  \n\n\n");
    let games = parse_games(&text);
    let refs: Vec<&PgnGame> = games.iter().collect();
    let out = format_games(&refs, n);
    assert_eq!(n, 3);
    assert!(out.ends_with("e4\n\n\n"));
}

#[test]
fn complementary_comparators() {
    let games = sample();
    for d in ["2020", "2020-05", "2020-05-01", " 2019-12 ", "", "x"] {
        let lt = parse_filter(&format!("< {}", d));
        let ge = parse_filter(&format!(">= {}", d));
        let le = parse_filter(&format!("<= {}", d));
        let gt = parse_filter(&format!("> {}", d));
        for g in &games {
            assert_eq!(matches_filter(g, &lt), !matches_filter(g, &ge));
            assert_eq!(matches_filter(g, &le), !matches_filter(g, &gt));
        }
    }
}

#[test]
fn year_filter_texts_agree() {
    let games = sample();
    for y in [2019, 2020, 2021] {
        let exact = parse_filter(&y.to_string());
        let from = parse_filter(&format!(">= {}", y));
        let before = parse_filter(&format!("< {}", y + 1));
        for g in &games {
            assert_eq!(matches_filter(g, &exact), matches_filter(g, &from) && matches_filter(g, &before));
        }
    }
}

#[test]
fn output_parses_back_to_the_same_games() {
    let inputs = [
        "[Event \"a\"]\n[Date \"2020.05.01\"]\n\n1. e4 e5\n[Not a header]\n\n\n[Event \"b\"]\n\n1. d4 *\n",
        "leading move text\n\n  [Event \"x\"]  \n\n \t \n[Event \"y\"]\n[Date \"1999.??.??\"]",
        "\n\n\n",
        "[A]\n \n  \n1. c4\n\n[B]\n\n[C]\n",
    ];
    for input in inputs {
        let games = parse_games(input);
        for n in [0, 1, 3] {
            let refs: Vec<&PgnGame> = games.iter().collect();
            let out = format_games(&refs, n);
            let again = parse_games(&out);
            assert_eq!(again.len(), games.len());
            for (g, h) in games.iter().zip(again.iter()) {
                assert_eq!(g.raw, h.raw);
                assert_eq!(g.date_raw, h.date_raw);
                assert_eq!(g.timestamp, h.timestamp);
            }
        }
    }
}
