//! Date filter expressions and the selection of games by them.
use vstd::prelude::*;

use rayon::iter::{IntoParallelIterator, IntoParallelRefIterator, ParallelIterator};

use crate::date::{
    component_value, lemma_pgn_date_parts, pgn_component, lemma_timestamp_in_range,
    date_args_ok, date_to_timestamp, law_timestamp_chronological, pgn_date_fields, pgn_date_parts,
    pgn_timestamp, timestamp_of, valid_date,
};
use crate::text::{
    all_digits, digit_text, digits_value, is_digit, is_white, lemma_digit_text, lemma_split_three,
    lemma_split_two, lemma_digits_value_nonneg, chars_of, decimal, lemma_decimal_reads_back, law_replace_unknown_idempotent, lemma_trim_after_space, lemma_trim_end_cons,
    lemma_trim_end_prefix, trim_end, trim_start, has_prefix, lemma_split_on_len, parse_i32, parse_i32_chars, replace_unknown,
    replace_unknown_chars, split_chars, split_on, starts_with, sub_chars, trim, trim_bounds,
};
use crate::PgnGame;

verus! {

/// Comparison operator for date filters.
#[derive(Debug, Clone, Copy, PartialEq, Eq, Structural)]
pub enum Comparator {
    Lt,
    Le,
    Gt,
    Ge,
}

/// A parsed date filter with an optional comparator and date components.
#[derive(Debug)]
pub struct DateFilter {
    pub comparator: Option<Comparator>,
    pub year: i32,
    pub month: Option<i32>,
    pub day: Option<i32>,
    /// Precomputed timestamp for comparison filters (missing components default to 1).
    pub timestamp: i64,
}

pub open spec fn i32_or(o: Option<i32>, default: i32) -> i32 {
    match o {
        Some(v) => v,
        None => default,
    }
}

/// The comparator an expression starts with (after trimming), and the
/// trimmed text after it.
pub open spec fn split_comparator(expr: Seq<char>) -> (Option<Comparator>, Seq<char>) {
    let e = trim(expr);
    if starts_with(e, seq!['>', '=']) {
        (Some(Comparator::Ge), trim(e.skip(2)))
    } else if starts_with(e, seq!['<', '=']) {
        (Some(Comparator::Le), trim(e.skip(2)))
    } else if starts_with(e, seq!['>']) {
        (Some(Comparator::Gt), trim(e.skip(1)))
    } else if starts_with(e, seq!['<']) {
        (Some(Comparator::Lt), trim(e.skip(1)))
    } else {
        (None, e)
    }
}

/// The `-`-separated date components of an expression.
pub open spec fn filter_parts(expr: Seq<char>) -> Seq<Seq<char>> {
    split_on(split_comparator(expr).1, '-')
}

/// The year of an expression (1970 where it cannot be read).
pub open spec fn filter_year(expr: Seq<char>) -> i32 {
    i32_or(parse_i32(filter_parts(expr)[0]), 1970)
}

/// The month of an expression, if it has one (1 where it cannot be read).
pub open spec fn filter_month(expr: Seq<char>) -> Option<i32> {
    if filter_parts(expr).len() > 1 {
        Some(i32_or(parse_i32(filter_parts(expr)[1]), 1))
    } else {
        None
    }
}

/// The day of an expression, if it has one (1 where it cannot be read).
pub open spec fn filter_day(expr: Seq<char>) -> Option<i32> {
    if filter_parts(expr).len() > 2 {
        Some(i32_or(parse_i32(filter_parts(expr)[2]), 1))
    } else {
        None
    }
}

/// Whether an expression names a date that has a timestamp.
pub open spec fn filter_ok(expr: Seq<char>) -> bool {
    date_args_ok(filter_year(expr) as int, i32_or(filter_month(expr), 1) as int)
}

/// The filter an expression denotes.
pub open spec fn filter_of(expr: Seq<char>) -> DateFilter {
    DateFilter {
        comparator: split_comparator(expr).0,
        year: filter_year(expr),
        month: filter_month(expr),
        day: filter_day(expr),
        timestamp: timestamp_of(
            filter_year(expr) as int,
            i32_or(filter_month(expr), 1) as int,
            i32_or(filter_day(expr), 1) as int,
        ) as i64,
    }
}

/// Whether a game's Date, read with `"??"` as `"01"` and unreadable
/// components as 0, has exactly three components that agree with the
/// filter's year and with its month and day where it has them.
pub open spec fn matches_exact_spec(date_raw: Seq<char>, f: DateFilter) -> bool {
    let parts = split_on(replace_unknown(date_raw), '.');
    &&& parts.len() == 3
    &&& i32_or(parse_i32(parts[0]), 0) == f.year
    &&& (f.month matches Some(m) ==> i32_or(parse_i32(parts[1]), 0) == m)
    &&& (f.day matches Some(d) ==> i32_or(parse_i32(parts[2]), 0) == d)
}

/// Whether a game matches a filter: by date components without a
/// comparator, and by timestamp with one.
pub open spec fn matches(g: PgnGame, f: DateFilter) -> bool {
    match f.comparator {
        None => matches_exact_spec(g.date_raw@, f),
        Some(Comparator::Lt) => g.timestamp < f.timestamp,
        Some(Comparator::Le) => g.timestamp <= f.timestamp,
        Some(Comparator::Gt) => g.timestamp > f.timestamp,
        Some(Comparator::Ge) => g.timestamp >= f.timestamp,
    }
}

/// The test that a filter applies to each game.
pub open spec fn selects(f: DateFilter) -> spec_fn(PgnGame) -> bool {
    |g: PgnGame| matches(g, f)
}

/// Unknown date components are read as `01` by exact filters: a Date and
/// the same Date with each `"??"` written as `"01"` match the same filters.
pub proof fn law_exact_match_reads_unknown_as_01(date_raw: Seq<char>, f: DateFilter)
    ensures
        matches_exact_spec(replace_unknown(date_raw), f) == matches_exact_spec(date_raw, f),
{
    law_replace_unknown_idempotent(date_raw);
}

/// A PGN date whose three components are all numbers forming a valid date.
pub open spec fn reads_as_valid_date(d: Seq<char>) -> bool {
    let parts = pgn_date_parts(d);
    &&& parts.len() == 3
    &&& parse_i32(parts[0]) is Some
    &&& parse_i32(parts[1]) is Some
    &&& parse_i32(parts[2]) is Some
    &&& valid_date(pgn_date_fields(d).0, pgn_date_fields(d).1, pgn_date_fields(d).2)
}

/// An exact year filter selects a range of time: a game with a valid date,
/// timestamped as its date, matches the filter for year `Y` exactly when
/// its timestamp is at least that of `Y-01-01` and below that of
/// `(Y+1)-01-01`, which is what `>= Y` together with `< Y+1` select.
pub proof fn law_year_filter_is_time_range(g: PgnGame, f: DateFilter)
    requires
        f.comparator is None,
        f.month is None,
        f.day is None,
        1 <= f.year < i32::MAX,
        reads_as_valid_date(g.date_raw@),
        g.timestamp == pgn_timestamp(g.date_raw@),
    ensures
        matches(g, f) <==> (timestamp_of(f.year as int, 1, 1) <= g.timestamp < timestamp_of(
            f.year + 1,
            1,
            1,
        )),
{
    let (y, m, d) = pgn_date_fields(g.date_raw@);
    let yf = f.year as int;
    law_timestamp_chronological(yf, 1, 1, y, m, d);
    law_timestamp_chronological(y, m, d, yf + 1, 1, 1);
}

/// An exact month filter selects a range of time: a game with a valid
/// date, timestamped as its date, matches the filter for `Y-M` exactly
/// when its timestamp is at least that of `Y-M-01` and below that of the
/// first day of the following month.
pub proof fn law_month_filter_is_time_range(g: PgnGame, f: DateFilter)
    requires
        f.comparator is None,
        f.month matches Some(m) && 1 <= m <= 12,
        f.day is None,
        1 <= f.year < i32::MAX,
        reads_as_valid_date(g.date_raw@),
        g.timestamp == pgn_timestamp(g.date_raw@),
    ensures
        ({
            let yf = f.year as int;
            let mf = f.month->0 as int;
            let next = if mf == 12 {
                timestamp_of(yf + 1, 1, 1)
            } else {
                timestamp_of(yf, mf + 1, 1)
            };
            matches(g, f) <==> (timestamp_of(yf, mf, 1) <= g.timestamp < next)
        }),
{
    let (y, m, d) = pgn_date_fields(g.date_raw@);
    let yf = f.year as int;
    let mf = f.month->0 as int;
    law_timestamp_chronological(yf, mf, 1, y, m, d);
    if mf == 12 {
        law_timestamp_chronological(y, m, d, yf + 1, 1, 1);
    } else {
        law_timestamp_chronological(y, m, d, yf, mf + 1, 1);
    }
}

/// An exact date filter selects one day: a game with a valid date,
/// timestamped as its date, matches the filter for a valid date `Y-M-D`
/// exactly when its timestamp is that of `Y-M-D`.
pub proof fn law_day_filter_is_time_point(g: PgnGame, f: DateFilter)
    requires
        f.comparator is None,
        f.month is Some,
        f.day is Some,
        valid_date(f.year as int, f.month->0 as int, f.day->0 as int),
        reads_as_valid_date(g.date_raw@),
        g.timestamp == pgn_timestamp(g.date_raw@),
    ensures
        matches(g, f) <==> g.timestamp == timestamp_of(
            f.year as int,
            f.month->0 as int,
            f.day->0 as int,
        ),
{
    let (y, m, d) = pgn_date_fields(g.date_raw@);
    law_timestamp_chronological(f.year as int, f.month->0 as int, f.day->0 as int, y, m, d);
}

/// `"op d"`: an operator, a space, then a date text.
pub open spec fn with_op(op: Seq<char>, d: Seq<char>) -> Seq<char> {
    op + seq![' '] + d
}

/// What follows an operator and a space trims to the date text itself.
proof fn lemma_op_text(op: Seq<char>, d: Seq<char>)
    requires
        op == seq!['<'] || op == seq!['>'] || op == seq!['<', '='] || op == seq!['>', '='],
    ensures
        op == seq!['<'] ==> split_comparator(with_op(op, d)) == (Some(Comparator::Lt), trim(d)),
        op == seq!['>'] ==> split_comparator(with_op(op, d)) == (Some(Comparator::Gt), trim(d)),
        op == seq!['<', '='] ==> split_comparator(with_op(op, d)) == (
            Some(Comparator::Le),
            trim(d),
        ),
        op == seq!['>', '='] ==> split_comparator(with_op(op, d)) == (
            Some(Comparator::Ge),
            trim(d),
        ),
{
    let sd = seq![' '] + d;
    let t = trim_end(sd);
    lemma_trim_end_prefix(sd);
    lemma_trim_after_space(d);
    assert(t.len() > 0 ==> t[0] == ' ');
    let x = with_op(op, d);
    assert(trim_start(x) == x);
    if op.len() == 1 {
        assert(x =~= seq![op[0]] + sd);
        lemma_trim_end_cons(op[0], sd);
        let e = seq![op[0]] + t;
        assert(trim(x) == e);
        assert(e.skip(1) =~= t);
        assert(e.len() >= 2 ==> e[1] == ' ');
        assert(!starts_with(e, seq!['>', '=']));
        assert(!starts_with(e, seq!['<', '=']));
        assert(e.take(1) =~= op);
    } else {
        let y = seq![op[1]] + sd;
        assert(x =~= seq![op[0]] + y);
        lemma_trim_end_cons(op[0], y);
        lemma_trim_end_cons(op[1], sd);
        let e = seq![op[0]] + (seq![op[1]] + t);
        assert(trim(x) == e);
        assert(e.skip(2) =~= t);
        assert(e.take(2) =~= op);
    }
}

/// Complementary comparators: `< d` selects exactly the games that `>= d`
/// does not, and `<= d` exactly those that `> d` does not.
pub proof fn law_comparators_complement(g: PgnGame, d: Seq<char>)
    ensures
        matches(g, filter_of(with_op(seq!['<'], d))) == !matches(
            g,
            filter_of(with_op(seq!['>', '='], d)),
        ),
        matches(g, filter_of(with_op(seq!['<', '='], d))) == !matches(
            g,
            filter_of(with_op(seq!['>'], d)),
        ),
{
    lemma_op_text(seq!['<'], d);
    lemma_op_text(seq!['>'], d);
    lemma_op_text(seq!['<', '='], d);
    lemma_op_text(seq!['>', '='], d);
}

/// The filter written as a year alone, `Y`, is the exact filter for that
/// year; preceded by `>= ` or `< ` it compares with the start of that year.
proof fn lemma_year_texts(y: i32)
    requires
        1 <= y,
    ensures
        filter_of(decimal(y as nat)) == (DateFilter {
            comparator: None,
            year: y,
            month: None,
            day: None,
            timestamp: timestamp_of(y as int, 1, 1) as i64,
        }),
        filter_of(with_op(seq!['>', '='], decimal(y as nat))) == (DateFilter {
            comparator: Some(Comparator::Ge),
            year: y,
            month: None,
            day: None,
            timestamp: timestamp_of(y as int, 1, 1) as i64,
        }),
        filter_of(with_op(seq!['<'], decimal(y as nat))) == (DateFilter {
            comparator: Some(Comparator::Lt),
            year: y,
            month: None,
            day: None,
            timestamp: timestamp_of(y as int, 1, 1) as i64,
        }),
        filter_ok(decimal(y as nat)),
        filter_ok(with_op(seq!['>', '='], decimal(y as nat))),
        filter_ok(with_op(seq!['<'], decimal(y as nat))),
{
    let d = decimal(y as nat);
    lemma_decimal_reads_back(y as nat);
    lemma_op_text(seq!['>', '='], d);
    lemma_op_text(seq!['<'], d);
    assert(d.take(1)[0] == d[0]);
    assert(d.len() >= 2 ==> d.take(2)[0] == d[0]);
    assert(!starts_with(d, seq!['>', '=']));
    assert(!starts_with(d, seq!['<', '=']));
    assert(!starts_with(d, seq!['>']));
    assert(!starts_with(d, seq!['<']));
    assert(split_comparator(d) == (None::<Comparator>, d));
}

/// The filter texts `Y`, `>= Y` and `< Y+1` agree: a game with a valid
/// date, timestamped as its date, matches `Y` exactly when it matches both
/// `>= Y` and `< Y+1` (all three texts parse without failing).
pub proof fn law_year_filter_texts(g: PgnGame, y: i32)
    requires
        1 <= y < i32::MAX,
        reads_as_valid_date(g.date_raw@),
        g.timestamp == pgn_timestamp(g.date_raw@),
    ensures
        filter_ok(decimal(y as nat)),
        filter_ok(with_op(seq!['>', '='], decimal(y as nat))),
        filter_ok(with_op(seq!['<'], decimal((y + 1) as nat))),
        matches(g, filter_of(decimal(y as nat))) <==> (matches(
            g,
            filter_of(with_op(seq!['>', '='], decimal(y as nat))),
        ) && matches(g, filter_of(with_op(seq!['<'], decimal((y + 1) as nat))))),
{
    lemma_year_texts(y);
    lemma_year_texts((y + 1) as i32);
    law_year_filter_is_time_range(g, filter_of(decimal(y as nat)));
    crate::date::lemma_timestamp_fits(y as int);
    crate::date::lemma_timestamp_fits(y + 1);
}

/// A date text starting and ending with a digit is its own trimming and
/// reads the same with or without a comparator in front.
proof fn lemma_date_text(t: Seq<char>)
    requires
        t.len() > 0,
        is_digit(t[0]),
        is_digit(t.last()),
    ensures
        split_comparator(t) == (None::<Comparator>, t),
        split_comparator(with_op(seq!['>', '='], t)) == (Some(Comparator::Ge), t),
        split_comparator(with_op(seq!['<', '='], t)) == (Some(Comparator::Le), t),
        split_comparator(with_op(seq!['>'], t)) == (Some(Comparator::Gt), t),
        split_comparator(with_op(seq!['<'], t)) == (Some(Comparator::Lt), t),
{
    assert(!is_white(t[0]));
    assert(!is_white(t.last()));
    assert(trim_start(t) == t);
    assert(trim_end(t) == t);
    assert(t.take(1)[0] == t[0]);
    assert(t.len() >= 2 ==> t.take(2)[0] == t[0]);
    lemma_op_text(seq!['>', '='], t);
    lemma_op_text(seq!['<', '='], t);
    lemma_op_text(seq!['>'], t);
    lemma_op_text(seq!['<'], t);
}

/// A filter text that is a year `Y` (decimal digits), alone or after any of
/// `>= `, `<= `, `> `, `< `, parses to year `Y` with no month or day and
/// the timestamp of `Y-01-01`, whatever the comparator.
pub proof fn law_year_filter_text(y: Seq<char>)
    requires
        digit_text(y),
    ensures
        filter_ok(y),
        filter_of(y).comparator == None::<Comparator>,
        filter_of(y).year == digits_value(y) as i32,
        filter_of(y).month == None::<i32>,
        filter_of(y).day == None::<i32>,
        filter_of(y).timestamp == timestamp_of(digits_value(y), 1, 1),
        filter_ok(with_op(seq!['>', '='], y)),
        filter_of(with_op(seq!['>', '='], y)).comparator == Some(Comparator::Ge),
        filter_of(with_op(seq!['>', '='], y)).year == digits_value(y) as i32,
        filter_of(with_op(seq!['>', '='], y)).month == None::<i32>,
        filter_of(with_op(seq!['>', '='], y)).day == None::<i32>,
        filter_of(with_op(seq!['>', '='], y)).timestamp == timestamp_of(digits_value(y), 1, 1),
        filter_ok(with_op(seq!['<', '='], y)),
        filter_of(with_op(seq!['<', '='], y)).comparator == Some(Comparator::Le),
        filter_of(with_op(seq!['<', '='], y)).year == digits_value(y) as i32,
        filter_of(with_op(seq!['<', '='], y)).month == None::<i32>,
        filter_of(with_op(seq!['<', '='], y)).day == None::<i32>,
        filter_of(with_op(seq!['<', '='], y)).timestamp == timestamp_of(digits_value(y), 1, 1),
        filter_ok(with_op(seq!['>'], y)),
        filter_of(with_op(seq!['>'], y)).comparator == Some(Comparator::Gt),
        filter_of(with_op(seq!['>'], y)).year == digits_value(y) as i32,
        filter_of(with_op(seq!['>'], y)).month == None::<i32>,
        filter_of(with_op(seq!['>'], y)).day == None::<i32>,
        filter_of(with_op(seq!['>'], y)).timestamp == timestamp_of(digits_value(y), 1, 1),
        filter_ok(with_op(seq!['<'], y)),
        filter_of(with_op(seq!['<'], y)).comparator == Some(Comparator::Lt),
        filter_of(with_op(seq!['<'], y)).year == digits_value(y) as i32,
        filter_of(with_op(seq!['<'], y)).month == None::<i32>,
        filter_of(with_op(seq!['<'], y)).day == None::<i32>,
        filter_of(with_op(seq!['<'], y)).timestamp == timestamp_of(digits_value(y), 1, 1),
{
    let t = y;
    lemma_digit_text(y);
    lemma_digits_value_nonneg(y);
    crate::text::lemma_split_on_without_sep(y, '-');
    lemma_timestamp_in_range(digits_value(y), 1, 1);
    assert(is_digit(y[0]) && is_digit(y.last()));
    lemma_date_text(t);
}

/// A filter text `Y-M` (decimal digits, leading zeros allowed, `M <= 12`),
/// alone or after any comparator, parses to year `Y`, month `M`, no day,
/// and the timestamp of `Y-M-01`, whatever the comparator.
pub proof fn law_month_filter_text(y: Seq<char>, m: Seq<char>)
    requires
        digit_text(y),
        digit_text(m),
        digits_value(m) <= 12,
    ensures
        filter_ok(y + seq!['-'] + m),
        filter_of(y + seq!['-'] + m).comparator == None::<Comparator>,
        filter_of(y + seq!['-'] + m).year == digits_value(y) as i32,
        filter_of(y + seq!['-'] + m).month == Some(digits_value(m) as i32),
        filter_of(y + seq!['-'] + m).day == None::<i32>,
        filter_of(y + seq!['-'] + m).timestamp == timestamp_of(digits_value(y), digits_value(m), 1),
        filter_ok(with_op(seq!['>', '='], y + seq!['-'] + m)),
        filter_of(with_op(seq!['>', '='], y + seq!['-'] + m)).comparator == Some(Comparator::Ge),
        filter_of(with_op(seq!['>', '='], y + seq!['-'] + m)).year == digits_value(y) as i32,
        filter_of(with_op(seq!['>', '='], y + seq!['-'] + m)).month == Some(digits_value(m) as i32),
        filter_of(with_op(seq!['>', '='], y + seq!['-'] + m)).day == None::<i32>,
        filter_of(with_op(seq!['>', '='], y + seq!['-'] + m)).timestamp == timestamp_of(digits_value(y), digits_value(m), 1),
        filter_ok(with_op(seq!['<', '='], y + seq!['-'] + m)),
        filter_of(with_op(seq!['<', '='], y + seq!['-'] + m)).comparator == Some(Comparator::Le),
        filter_of(with_op(seq!['<', '='], y + seq!['-'] + m)).year == digits_value(y) as i32,
        filter_of(with_op(seq!['<', '='], y + seq!['-'] + m)).month == Some(digits_value(m) as i32),
        filter_of(with_op(seq!['<', '='], y + seq!['-'] + m)).day == None::<i32>,
        filter_of(with_op(seq!['<', '='], y + seq!['-'] + m)).timestamp == timestamp_of(digits_value(y), digits_value(m), 1),
        filter_ok(with_op(seq!['>'], y + seq!['-'] + m)),
        filter_of(with_op(seq!['>'], y + seq!['-'] + m)).comparator == Some(Comparator::Gt),
        filter_of(with_op(seq!['>'], y + seq!['-'] + m)).year == digits_value(y) as i32,
        filter_of(with_op(seq!['>'], y + seq!['-'] + m)).month == Some(digits_value(m) as i32),
        filter_of(with_op(seq!['>'], y + seq!['-'] + m)).day == None::<i32>,
        filter_of(with_op(seq!['>'], y + seq!['-'] + m)).timestamp == timestamp_of(digits_value(y), digits_value(m), 1),
        filter_ok(with_op(seq!['<'], y + seq!['-'] + m)),
        filter_of(with_op(seq!['<'], y + seq!['-'] + m)).comparator == Some(Comparator::Lt),
        filter_of(with_op(seq!['<'], y + seq!['-'] + m)).year == digits_value(y) as i32,
        filter_of(with_op(seq!['<'], y + seq!['-'] + m)).month == Some(digits_value(m) as i32),
        filter_of(with_op(seq!['<'], y + seq!['-'] + m)).day == None::<i32>,
        filter_of(with_op(seq!['<'], y + seq!['-'] + m)).timestamp == timestamp_of(digits_value(y), digits_value(m), 1),
{
    let t = y + seq!['-'] + m;
    lemma_digit_text(y);
    lemma_digit_text(m);
    lemma_digits_value_nonneg(y);
    lemma_digits_value_nonneg(m);
    lemma_split_two(y, m, '-');
    lemma_timestamp_in_range(digits_value(y), digits_value(m), 1);
    assert(is_digit(y[0]) && is_digit(m.last()));
    assert(t[0] == y[0] && t.last() == m.last());
    lemma_date_text(t);
}

/// A filter text `Y-M-D` (decimal digits, leading zeros allowed, `M <= 12`),
/// alone or after any comparator, parses to year `Y`, month `M`, day `D`,
/// and the timestamp of `Y-M-D`, whatever the comparator.
pub proof fn law_day_filter_text(y: Seq<char>, m: Seq<char>, d: Seq<char>)
    requires
        digit_text(y),
        digit_text(m),
        digit_text(d),
        digits_value(m) <= 12,
    ensures
        filter_ok(y + seq!['-'] + m + seq!['-'] + d),
        filter_of(y + seq!['-'] + m + seq!['-'] + d).comparator == None::<Comparator>,
        filter_of(y + seq!['-'] + m + seq!['-'] + d).year == digits_value(y) as i32,
        filter_of(y + seq!['-'] + m + seq!['-'] + d).month == Some(digits_value(m) as i32),
        filter_of(y + seq!['-'] + m + seq!['-'] + d).day == Some(digits_value(d) as i32),
        filter_of(y + seq!['-'] + m + seq!['-'] + d).timestamp == timestamp_of(digits_value(y), digits_value(m), digits_value(d)),
        filter_ok(with_op(seq!['>', '='], y + seq!['-'] + m + seq!['-'] + d)),
        filter_of(with_op(seq!['>', '='], y + seq!['-'] + m + seq!['-'] + d)).comparator == Some(Comparator::Ge),
        filter_of(with_op(seq!['>', '='], y + seq!['-'] + m + seq!['-'] + d)).year == digits_value(y) as i32,
        filter_of(with_op(seq!['>', '='], y + seq!['-'] + m + seq!['-'] + d)).month == Some(digits_value(m) as i32),
        filter_of(with_op(seq!['>', '='], y + seq!['-'] + m + seq!['-'] + d)).day == Some(digits_value(d) as i32),
        filter_of(with_op(seq!['>', '='], y + seq!['-'] + m + seq!['-'] + d)).timestamp == timestamp_of(digits_value(y), digits_value(m), digits_value(d)),
        filter_ok(with_op(seq!['<', '='], y + seq!['-'] + m + seq!['-'] + d)),
        filter_of(with_op(seq!['<', '='], y + seq!['-'] + m + seq!['-'] + d)).comparator == Some(Comparator::Le),
        filter_of(with_op(seq!['<', '='], y + seq!['-'] + m + seq!['-'] + d)).year == digits_value(y) as i32,
        filter_of(with_op(seq!['<', '='], y + seq!['-'] + m + seq!['-'] + d)).month == Some(digits_value(m) as i32),
        filter_of(with_op(seq!['<', '='], y + seq!['-'] + m + seq!['-'] + d)).day == Some(digits_value(d) as i32),
        filter_of(with_op(seq!['<', '='], y + seq!['-'] + m + seq!['-'] + d)).timestamp == timestamp_of(digits_value(y), digits_value(m), digits_value(d)),
        filter_ok(with_op(seq!['>'], y + seq!['-'] + m + seq!['-'] + d)),
        filter_of(with_op(seq!['>'], y + seq!['-'] + m + seq!['-'] + d)).comparator == Some(Comparator::Gt),
        filter_of(with_op(seq!['>'], y + seq!['-'] + m + seq!['-'] + d)).year == digits_value(y) as i32,
        filter_of(with_op(seq!['>'], y + seq!['-'] + m + seq!['-'] + d)).month == Some(digits_value(m) as i32),
        filter_of(with_op(seq!['>'], y + seq!['-'] + m + seq!['-'] + d)).day == Some(digits_value(d) as i32),
        filter_of(with_op(seq!['>'], y + seq!['-'] + m + seq!['-'] + d)).timestamp == timestamp_of(digits_value(y), digits_value(m), digits_value(d)),
        filter_ok(with_op(seq!['<'], y + seq!['-'] + m + seq!['-'] + d)),
        filter_of(with_op(seq!['<'], y + seq!['-'] + m + seq!['-'] + d)).comparator == Some(Comparator::Lt),
        filter_of(with_op(seq!['<'], y + seq!['-'] + m + seq!['-'] + d)).year == digits_value(y) as i32,
        filter_of(with_op(seq!['<'], y + seq!['-'] + m + seq!['-'] + d)).month == Some(digits_value(m) as i32),
        filter_of(with_op(seq!['<'], y + seq!['-'] + m + seq!['-'] + d)).day == Some(digits_value(d) as i32),
        filter_of(with_op(seq!['<'], y + seq!['-'] + m + seq!['-'] + d)).timestamp == timestamp_of(digits_value(y), digits_value(m), digits_value(d)),
{
    let t = y + seq!['-'] + m + seq!['-'] + d;
    lemma_digit_text(y);
    lemma_digit_text(m);
    lemma_digit_text(d);
    lemma_digits_value_nonneg(y);
    lemma_digits_value_nonneg(m);
    lemma_digits_value_nonneg(d);
    lemma_split_three(y, m, d, '-');
    lemma_timestamp_in_range(digits_value(y), digits_value(m), digits_value(d));
    assert(is_digit(y[0]) && is_digit(d.last()));
    assert(t[0] == y[0] && t.last() == d.last());
    lemma_date_text(t);
}

/// The comparator in front of a date text does not change the date read
/// from it: after each of `>= `, `<= `, `> `, `< ` the same text gives the
/// same year, month, day and timestamp, and yields a timestamp or not
/// alike.
pub proof fn law_comparator_keeps_date(d: Seq<char>)
    ensures
        forall|op: Seq<char>|
            #![trigger filter_of(with_op(op, d))]
            op == seq!['<', '='] || op == seq!['>'] || op == seq!['<'] ==> {
                let f = filter_of(with_op(op, d));
                let g = filter_of(with_op(seq!['>', '='], d));
                &&& f.year == g.year
                &&& f.month == g.month
                &&& f.day == g.day
                &&& f.timestamp == g.timestamp
                &&& filter_ok(with_op(op, d)) == filter_ok(with_op(seq!['>', '='], d))
            },
{
    lemma_op_text(seq!['<'], d);
    lemma_op_text(seq!['>'], d);
    lemma_op_text(seq!['<', '='], d);
    lemma_op_text(seq!['>', '='], d);
}

/// Whitespace around a filter expression does not change the filter it
/// denotes.
pub proof fn law_filter_ignores_surrounding_space(e: Seq<char>)
    ensures
        filter_of(seq![' '] + e + seq![' ']) == filter_of(e),
        filter_ok(seq![' '] + e + seq![' ']) == filter_ok(e),
{
    crate::text::lemma_trim_spaced(e);
}

/// An exact filter `Y-M-D` (decimal digits, leading zeros allowed,
/// `M <= 12`) selects a game whose Date is `Y'.M'.D'` (each component a
/// decimal number or `??`, read as 1) exactly when the two dates name the
/// same year, month and day.
pub proof fn law_exact_day_filter_matches(
    g: PgnGame,
    y: Seq<char>,
    m: Seq<char>,
    d: Seq<char>,
    gy: Seq<char>,
    gm: Seq<char>,
    gd: Seq<char>,
)
    requires
        digit_text(y),
        digit_text(m),
        digit_text(d),
        digits_value(m) <= 12,
        pgn_component(gy),
        pgn_component(gm),
        pgn_component(gd),
        g.date_raw@ == gy + seq!['.'] + gm + seq!['.'] + gd,
    ensures
        matches(g, filter_of(y + seq!['-'] + m + seq!['-'] + d)) <==> (component_value(gy)
            == digits_value(y) && component_value(gm) == digits_value(m) && component_value(gd)
            == digits_value(d)),
{
    law_day_filter_text(y, m, d);
    lemma_pgn_date_parts(gy, gm, gd);
    lemma_digits_value_nonneg(y);
    lemma_digits_value_nonneg(m);
    lemma_digits_value_nonneg(d);
}

/// A comparison filter selects a game by comparing the game's timestamp
/// with the filter's timestamp and nothing else: `<`, `<=`, `>`, `>=` are
/// the orders on the two timestamps.
pub proof fn law_comparison_is_timestamp_order(g: PgnGame, f: DateFilter)
    ensures
        f.comparator == Some(Comparator::Lt) ==> (matches(g, f) <==> g.timestamp < f.timestamp),
        f.comparator == Some(Comparator::Le) ==> (matches(g, f) <==> g.timestamp <= f.timestamp),
        f.comparator == Some(Comparator::Gt) ==> (matches(g, f) <==> g.timestamp > f.timestamp),
        f.comparator == Some(Comparator::Ge) ==> (matches(g, f) <==> g.timestamp >= f.timestamp),
{
}

/// A comparison with a full date `Y-M-D` (decimal digits, leading zeros
/// allowed, `M <= 12`) compares the game's timestamp with the timestamp of
/// that very day.
pub proof fn law_day_comparison_matches(g: PgnGame, y: Seq<char>, m: Seq<char>, d: Seq<char>)
    requires
        digit_text(y),
        digit_text(m),
        digit_text(d),
        digits_value(m) <= 12,
    ensures
        ({
            let t = y + seq!['-'] + m + seq!['-'] + d;
            let ts = timestamp_of(digits_value(y), digits_value(m), digits_value(d));
            &&& matches(g, filter_of(with_op(seq!['>', '='], t))) <==> g.timestamp >= ts
            &&& matches(g, filter_of(with_op(seq!['<', '='], t))) <==> g.timestamp <= ts
            &&& matches(g, filter_of(with_op(seq!['>'], t))) <==> g.timestamp > ts
            &&& matches(g, filter_of(with_op(seq!['<'], t))) <==> g.timestamp < ts
        }),
{
    law_day_filter_text(y, m, d);
}

/// A comparison with a month `Y-M` (decimal digits, leading zeros allowed,
/// `M <= 12`) compares the game's timestamp with the timestamp of the first
/// day of that month.
pub proof fn law_month_comparison_matches(g: PgnGame, y: Seq<char>, m: Seq<char>)
    requires
        digit_text(y),
        digit_text(m),
        digits_value(m) <= 12,
    ensures
        ({
            let t = y + seq!['-'] + m;
            let ts = timestamp_of(digits_value(y), digits_value(m), 1);
            &&& matches(g, filter_of(with_op(seq!['>', '='], t))) <==> g.timestamp >= ts
            &&& matches(g, filter_of(with_op(seq!['<', '='], t))) <==> g.timestamp <= ts
            &&& matches(g, filter_of(with_op(seq!['>'], t))) <==> g.timestamp > ts
            &&& matches(g, filter_of(with_op(seq!['<'], t))) <==> g.timestamp < ts
        }),
{
    law_month_filter_text(y, m);
}

/// Parse a filter expression, or `None` where its date has no timestamp.
pub fn parse_filter_checked(expr: &str) -> (r: Option<DateFilter>)
    ensures
        r is Some <==> filter_ok(expr@),
        r matches Some(f) ==> f == filter_of(expr@),
        r matches Some(f) ==> f.timestamp == timestamp_of(
            f.year as int,
            i32_or(f.month, 1) as int,
            i32_or(f.day, 1) as int,
        ),
{
    let v = chars_of(expr);
    let (lo, hi) = trim_bounds(&v, 0, v.len());
    assert(v@.subrange(0, v@.len() as int) =~= v@);
    let ghost e = v@.subrange(lo as int, hi as int);
    let ge: Vec<char> = vec!['>', '='];
    let le: Vec<char> = vec!['<', '='];
    let gt: Vec<char> = vec!['>'];
    let lt: Vec<char> = vec!['<'];
    assert(ge@ =~= seq!['>', '=']);
    assert(le@ =~= seq!['<', '=']);
    assert(gt@ =~= seq!['>']);
    assert(lt@ =~= seq!['<']);
    let (comparator, skip) = if has_prefix(&v, lo, hi, &ge) {
        (Some(Comparator::Ge), 2)
    } else if has_prefix(&v, lo, hi, &le) {
        (Some(Comparator::Le), 2)
    } else if has_prefix(&v, lo, hi, &gt) {
        (Some(Comparator::Gt), 1)
    } else if has_prefix(&v, lo, hi, &lt) {
        (Some(Comparator::Lt), 1)
    } else {
        (None, 0)
    };
    let (rlo, rhi) = if comparator.is_some() {
        assert(e.skip(skip as int) =~= v@.subrange(lo + skip, hi as int));
        trim_bounds(&v, lo + skip, hi)
    } else {
        (lo, hi)
    };
    let rest = sub_chars(&v, rlo, rhi);
    assert(rest@ == split_comparator(expr@).1);
    assert(comparator == split_comparator(expr@).0);
    let parts = split_chars(&rest, '-');
    proof {
        lemma_split_on_len(rest@, '-');
    }
    let ghost pv = parts@.map_values(|p: Vec<char>| p@);
    assert(pv[0] == parts[0]@);
    let year = match parse_i32_chars(&parts[0]) {
        Some(y) => y,
        None => 1970,
    };
    let month = if parts.len() > 1 {
        assert(pv[1] == parts[1]@);
        match parse_i32_chars(&parts[1]) {
            Some(m) => Some(m),
            None => Some(1),
        }
    } else {
        None
    };
    let day = if parts.len() > 2 {
        assert(pv[2] == parts[2]@);
        match parse_i32_chars(&parts[2]) {
            Some(d) => Some(d),
            None => Some(1),
        }
    } else {
        None
    };
    let m = match month {
        Some(m) => m,
        None => 1,
    };
    let d = match day {
        Some(d) => d,
        None => 1,
    };
    if !(0 <= m && m <= 12 && year > i32::MIN) {
        return None;
    }
    let timestamp = date_to_timestamp(year, m, d);
    Some(DateFilter { comparator, year, month, day, timestamp })
}

/// Parse a filter expression like "2026", "< 2025", or ">= 2025-06"
/// into a `DateFilter`. Supports `<`, `<=`, `>`, `>=` prefixes and
/// year, year-month, or year-month-day date formats.
pub fn parse_filter(expr: &str) -> (f: DateFilter)
    requires
        filter_ok(expr@),
    ensures
        f == filter_of(expr@),
{
    match parse_filter_checked(expr) {
        Some(f) => f,
        None => DateFilter { comparator: None, year: 1970, month: None, day: None, timestamp: 0 },
    }
}

/// Check whether a game matches an exact date filter (no comparator).
/// Unknown date components ("??") are treated as "01".
fn matches_exact(game: &PgnGame, filter: &DateFilter) -> (b: bool)
    ensures
        b == matches_exact_spec(game.date_raw@, *filter),
{
    let raw = chars_of(game.date_raw.as_str());
    let normalized = replace_unknown_chars(&raw);
    let parts = split_chars(&normalized, '.');
    let ghost pv = parts@.map_values(|p: Vec<char>| p@);
    if parts.len() != 3 {
        return false;
    }
    assert(pv[0] == parts[0]@);
    assert(pv[1] == parts[1]@);
    assert(pv[2] == parts[2]@);
    let game_year = match parse_i32_chars(&parts[0]) {
        Some(y) => y,
        None => 0,
    };
    let game_month = match parse_i32_chars(&parts[1]) {
        Some(m) => m,
        None => 0,
    };
    let game_day = match parse_i32_chars(&parts[2]) {
        Some(d) => d,
        None => 0,
    };
    if game_year != filter.year {
        return false;
    }
    if let Some(m) = filter.month {
        if game_month != m {
            return false;
        }
    }
    if let Some(d) = filter.day {
        if game_day != d {
            return false;
        }
    }
    true
}

/// Check whether a game matches a date filter.
///
/// For exact filters (no comparator), date components with "??" are
/// normalized to "01" before comparing year, month, and day.
/// For comparison filters, timestamps are compared directly.
pub fn matches_filter(game: &PgnGame, filter: &DateFilter) -> (b: bool)
    ensures
        b == matches(*game, *filter),
        filter.comparator == Some(Comparator::Lt) ==> (b <==> game.timestamp < filter.timestamp),
        filter.comparator == Some(Comparator::Le) ==> (b <==> game.timestamp <= filter.timestamp),
        filter.comparator == Some(Comparator::Gt) ==> (b <==> game.timestamp > filter.timestamp),
        filter.comparator == Some(Comparator::Ge) ==> (b <==> game.timestamp >= filter.timestamp),
{
    match &filter.comparator {
        None => matches_exact(game, filter),
        Some(cmp) => match cmp {
            Comparator::Lt => game.timestamp < filter.timestamp,
            Comparator::Le => game.timestamp <= filter.timestamp,
            Comparator::Gt => game.timestamp > filter.timestamp,
            Comparator::Ge => game.timestamp >= filter.timestamp,
        },
    }
}

/// The games of `games` that `filter` matches, in their order, selected
/// in parallel with rayon's `par_iter().filter(..).collect()`, whose
/// `Vec` collection keeps the order of the items.
#[verifier::external_body]
fn par_select<'a>(games: &'a [PgnGame], filter: &DateFilter) -> (r: Vec<&'a PgnGame>)
    ensures
        r@.map_values(|g: &PgnGame| *g) == games@.filter(selects(*filter)),
{
    games.par_iter().filter(|g| matches_filter(g, filter)).collect()
}

/// The games of `games` that `filter` matches, in their order, selected
/// in parallel with rayon's `into_par_iter().filter(..).collect()`, whose
/// `Vec` collection keeps the order of the items.
#[verifier::external_body]
fn par_keep(games: Vec<PgnGame>, filter: &DateFilter) -> (r: Vec<PgnGame>)
    ensures
        r@ == games@.filter(selects(*filter)),
{
    games.into_par_iter().filter(|g| matches_filter(g, filter)).collect()
}

/// Filter games by a date expression string using parallel iteration.
/// Parses the expression and returns references to matching games.
pub fn filter_games<'a>(games: &'a [PgnGame], expr: &str) -> (r: Vec<&'a PgnGame>)
    requires
        filter_ok(expr@),
    ensures
        r@.map_values(|g: &PgnGame| *g) == games@.filter(selects(filter_of(expr@))),
{
    let filter = parse_filter(expr);
    par_select(games, &filter)
}

/// Remove games that don't match the filter expression, collecting
/// matches in parallel. Returns the number of games before filtering.
pub fn retain_matching(games: &mut Vec<PgnGame>, expr: &str) -> (total: usize)
    requires
        filter_ok(expr@),
    ensures
        total == old(games).len(),
        final(games)@ == old(games)@.filter(selects(filter_of(expr@))),
{
    let total = games.len();
    let filter = parse_filter(expr);
    let mut taken: Vec<PgnGame> = Vec::new();
    std::mem::swap(&mut taken, games);
    *games = par_keep(taken, &filter);
    total
}

} // verus!
