//! Calendar arithmetic and PGN date handling.
use vstd::prelude::*;

use crate::text::{
    strip_cr, trim_start, trim_end, all_digits, digit_text, digits_value, lemma_digit_text, lemma_split_three, chars_of, law_replace_unknown_idempotent, has_prefix, lemma_split_on_len, lines, lines_of, parse_i32, parse_i32_chars,
    replace_unknown, replace_unknown_chars, split_chars, split_on, starts_with, string_of, trim,
    trim_bounds,
};

verus! {

/// Gregorian leap-year rule.
pub open spec fn leap_year(year: int) -> bool {
    (year % 4 == 0 && year % 100 != 0) || year % 400 == 0
}

/// Integer division rounding toward zero (Rust's `/` on signed integers), for `b > 0`.
pub open spec fn quot(a: int, b: int) -> int {
    if a >= 0 {
        a / b
    } else {
        -((-a) / b)
    }
}

/// Days from the start of year 1 to the start of `year`, as computed with
/// truncating division (exact for `year >= 1`).
pub open spec fn days_to_year(year: int) -> int {
    let y = year - 1;
    365 * y + quot(y, 4) - quot(y, 100) + quot(y, 400)
}

/// Days in a common year before the first of `month` (`0` for months 0 and 1).
pub open spec fn days_before_month(month: int) -> int {
    if month <= 1 {
        0
    } else if month == 2 {
        31
    } else if month == 3 {
        59
    } else if month == 4 {
        90
    } else if month == 5 {
        120
    } else if month == 6 {
        151
    } else if month == 7 {
        181
    } else if month == 8 {
        212
    } else if month == 9 {
        243
    } else if month == 10 {
        273
    } else if month == 11 {
        304
    } else {
        334
    }
}

/// The day number of a date, counted from the start of year 1.
pub open spec fn day_number(year: int, month: int, day: int) -> int {
    days_to_year(year) + days_before_month(month) + day - 1 + (if month > 2 && leap_year(year) {
        1int
    } else {
        0int
    })
}

/// Seconds since 1970-01-01 of midnight at the start of the given date.
pub open spec fn timestamp_of(year: int, month: int, day: int) -> int {
    (day_number(year, month, day) - day_number(1970, 1, 1)) * 86400
}

/// Whether `date_to_timestamp` is defined for these arguments: the month
/// indexes the cumulative-days table and `year - 1` does not overflow.
pub open spec fn date_args_ok(year: int, month: int) -> bool {
    0 <= month <= 12 && year > i32::MIN
}

/// Number of days in a month of the given year.
pub open spec fn days_in_month(year: int, month: int) -> int {
    if month == 2 {
        if leap_year(year) {
            29int
        } else {
            28int
        }
    } else if month == 4 || month == 6 || month == 9 || month == 11 {
        30int
    } else {
        31int
    }
}

/// A calendar date with a positive year.
pub open spec fn valid_date(year: int, month: int, day: int) -> bool {
    &&& year >= 1
    &&& 1 <= month <= 12
    &&& 1 <= day <= days_in_month(year, month)
}

/// Lexicographic (chronological) order on (year, month, day).
pub open spec fn date_before(y1: int, m1: int, d1: int, y2: int, m2: int, d2: int) -> bool {
    ||| y1 < y2
    ||| (y1 == y2 && m1 < m2)
    ||| (y1 == y2 && m1 == m2 && d1 < d2)
}

// ---------------------------------------------------------------------------
// PGN dates
// ---------------------------------------------------------------------------

pub open spec fn int_or(o: Option<i32>, default: int) -> int {
    match o {
        Some(v) => v as int,
        None => default,
    }
}

/// The dot-separated pieces of a PGN date after `"??"` became `"01"`.
pub open spec fn pgn_date_parts(d: Seq<char>) -> Seq<Seq<char>> {
    split_on(replace_unknown(d), '.')
}

/// Year, month and day read from a PGN date: `"??"` is read as `"01"`, and a
/// missing or unreadable year, month or day is 1970, 1 or 1.
pub open spec fn pgn_date_fields(d: Seq<char>) -> (int, int, int) {
    let parts = pgn_date_parts(d);
    let year = int_or(parse_i32(parts[0]), 1970);
    let month = if parts.len() > 1 {
        int_or(parse_i32(parts[1]), 1)
    } else {
        1
    };
    let day = if parts.len() > 2 {
        int_or(parse_i32(parts[2]), 1)
    } else {
        1
    };
    (year, month, day)
}

/// Whether a PGN date can be turned into a timestamp.
pub open spec fn pgn_date_ok(d: Seq<char>) -> bool {
    let f = pgn_date_fields(d);
    date_args_ok(f.0, f.1)
}

/// The timestamp of a PGN date.
pub open spec fn pgn_timestamp(d: Seq<char>) -> int {
    let f = pgn_date_fields(d);
    timestamp_of(f.0, f.1, f.2)
}

/// Index of the first `c` in `s`.
pub open spec fn first_index(s: Seq<char>, c: char) -> Option<int>
    decreases s.len(),
{
    if s.len() == 0 {
        None
    } else if s[0] == c {
        Some(0)
    } else {
        match first_index(s.drop_first(), c) {
            Some(i) => Some(i + 1),
            None => None,
        }
    }
}

/// Index of the last `c` in `s`.
pub open spec fn last_index(s: Seq<char>, c: char) -> Option<int>
    decreases s.len(),
{
    if s.len() == 0 {
        None
    } else if s.last() == c {
        Some(s.len() - 1)
    } else {
        last_index(s.drop_last(), c)
    }
}

pub open spec fn date_tag() -> Seq<char> {
    seq!['[', 'D', 'a', 't', 'e', ' ']
}

/// The value of a (trimmed) header line `[Date "..."]`: the text between
/// its first and its last double quote.
pub open spec fn date_line_value(t: Seq<char>) -> Option<Seq<char>> {
    if starts_with(t, date_tag()) {
        match (first_index(t, '"'), last_index(t, '"')) {
            (Some(a), Some(b)) => if a < b {
                Some(t.subrange(a + 1, b))
            } else {
                None
            },
            _ => None,
        }
    } else {
        None
    }
}

/// The first Date value among the given lines, each read after trimming.
pub open spec fn date_in_lines(ls: Seq<Seq<char>>) -> Option<Seq<char>>
    decreases ls.len(),
{
    if ls.len() == 0 {
        None
    } else {
        match date_line_value(trim(ls[0])) {
            Some(v) => Some(v),
            None => date_in_lines(ls.drop_first()),
        }
    }
}

/// The Date tag value of a header block.
pub open spec fn date_of_headers(h: Seq<char>) -> Option<Seq<char>> {
    date_in_lines(lines(h))
}

// ---------------------------------------------------------------------------
// Calendar laws
// ---------------------------------------------------------------------------

/// The offset of a date inside its year.
pub open spec fn day_of_year(year: int, month: int, day: int) -> int {
    day_number(year, month, day) - days_to_year(year)
}

/// A year from 1 on is 365 days long, or 366 when it is a leap year.
#[verifier::spinoff_prover]
pub proof fn law_year_length(year: int)
    requires
        year >= 1,
    ensures
        days_to_year(year + 1) == days_to_year(year) + 365 + (if leap_year(year) {
            1int
        } else {
            0int
        }),
{
    let y = year - 1;
    assert(quot(y, 4) == y / 4);
    assert(quot(y + 1, 4) == (y + 1) / 4);
    assert(quot(y, 100) == y / 100);
    assert(quot(y + 1, 100) == (y + 1) / 100);
    assert(quot(y, 400) == y / 400);
    assert(quot(y + 1, 400) == (y + 1) / 400);
    assert((y + 1) / 4 - y / 4 == if year % 4 == 0 { 1int } else { 0int });
    assert((y + 1) / 100 - y / 100 == if year % 100 == 0 { 1int } else { 0int });
    assert((y + 1) / 400 - y / 400 == if year % 400 == 0 { 1int } else { 0int });
    assert(year % 400 == 0 ==> year % 100 == 0);
    assert(year % 100 == 0 ==> year % 4 == 0);
}

/// Days before the start of a year grow with the year.
proof fn lemma_days_before_year_grows(y1: int, y2: int)
    requires
        1 <= y1 <= y2,
    ensures
        days_to_year(y1) + 365 * (y2 - y1) <= days_to_year(y2),
    decreases y2 - y1,
{
    if y1 < y2 {
        lemma_days_before_year_grows(y1, y2 - 1);
        law_year_length(y2 - 1);
    }
}

/// Within a year, the day offset of a valid date lies inside the year and
/// grows with (month, day).
proof fn lemma_day_of_year(year: int, m1: int, d1: int, m2: int, d2: int)
    requires
        valid_date(year, m1, d1),
        valid_date(year, m2, d2),
    ensures
        0 <= day_of_year(year, m1, d1) < 365 + (if leap_year(year) {
            1int
        } else {
            0int
        }),
        (m1 < m2 || (m1 == m2 && d1 < d2)) ==> day_of_year(year, m1, d1) < day_of_year(
            year,
            m2,
            d2,
        ),
{
}

/// Timestamps order valid dates chronologically: one date comes before
/// another exactly when its timestamp is smaller, and two dates share a
/// timestamp exactly when they are the same date.
pub proof fn law_timestamp_chronological(y1: int, m1: int, d1: int, y2: int, m2: int, d2: int)
    requires
        valid_date(y1, m1, d1),
        valid_date(y2, m2, d2),
    ensures
        date_before(y1, m1, d1, y2, m2, d2) <==> timestamp_of(y1, m1, d1) < timestamp_of(
            y2,
            m2,
            d2,
        ),
        (y1 == y2 && m1 == m2 && d1 == d2) <==> timestamp_of(y1, m1, d1) == timestamp_of(
            y2,
            m2,
            d2,
        ),
{
    assert forall|ya: int, ma: int, da: int, yb: int, mb: int, db: int|
        valid_date(ya, ma, da) && valid_date(yb, mb, db) && date_before(ya, ma, da, yb, mb, db)
        implies #[trigger] day_number(ya, ma, da) < #[trigger] day_number(yb, mb, db) by {
        if ya < yb {
            lemma_day_of_year(ya, ma, da, 1, 1);
            lemma_day_of_year(yb, mb, db, 1, 1);
            law_year_length(ya);
            lemma_days_before_year_grows(ya + 1, yb);
        } else {
            lemma_day_of_year(ya, ma, da, mb, db);
        }
    }
    assert(day_number(y1, m1, d1) < day_number(y2, m2, d2) || day_number(y2, m2, d2) < day_number(
        y1,
        m1,
        d1,
    ) || (y1 == y2 && m1 == m2 && d1 == d2));
}

/// Unknown date components are read as `01`: a PGN date and the same date
/// with each `"??"` written as `"01"` have the same fields, hence the same
/// timestamp.
pub proof fn law_unknown_reads_as_01(d: Seq<char>)
    ensures
        pgn_date_fields(replace_unknown(d)) == pgn_date_fields(d),
        pgn_date_ok(replace_unknown(d)) == pgn_date_ok(d),
        pgn_timestamp(replace_unknown(d)) == pgn_timestamp(d),
{
    law_replace_unknown_idempotent(d);
}

/// The first of January of an `i32` year has a timestamp that fits in `i64`.
pub proof fn lemma_timestamp_fits(year: int)
    requires
        i32::MIN < year <= i32::MAX,
    ensures
        i64::MIN <= timestamp_of(year, 1, 1) <= i64::MAX,
{
}

/// `"??"` is replaced inside each dot-separated piece on its own.
proof fn lemma_replace_unknown_dot(a: Seq<char>, b: Seq<char>)
    ensures
        replace_unknown(a + seq!['.'] + b) == replace_unknown(a) + seq!['.'] + replace_unknown(b),
    decreases a.len(),
{
    let x = a + seq!['.'] + b;
    if a.len() >= 2 && a[0] == '?' && a[1] == '?' {
        assert(x[0] == '?' && x[1] == '?');
        assert(x.skip(2) =~= a.skip(2) + seq!['.'] + b);
        lemma_replace_unknown_dot(a.skip(2), b);
        assert(seq!['0', '1'] + (replace_unknown(a.skip(2)) + seq!['.'] + replace_unknown(b)) =~= (
        seq!['0', '1'] + replace_unknown(a.skip(2))) + seq!['.'] + replace_unknown(b));
    } else if a.len() >= 1 {
        assert(x[0] == a[0]);
        assert(x[1] == if a.len() >= 2 {
            a[1]
        } else {
            '.'
        });
        assert(x.skip(1) =~= a.skip(1) + seq!['.'] + b);
        lemma_replace_unknown_dot(a.skip(1), b);
        assert(seq![a[0]] + (replace_unknown(a.skip(1)) + seq!['.'] + replace_unknown(b)) =~= (
        seq![a[0]] + replace_unknown(a.skip(1))) + seq!['.'] + replace_unknown(b));
    } else {
        assert(a =~= Seq::<char>::empty());
        assert(x =~= seq!['.'] + b);
        assert(x[0] == '.');
        assert(x.skip(1) =~= b);
        assert(replace_unknown(a) =~= Seq::<char>::empty());
        assert(seq!['.'] + replace_unknown(b) =~= replace_unknown(a) + seq!['.'] + replace_unknown(
            b,
        ));
    }
}

/// A component of a PGN date: unknown (`??`) or a decimal number.
pub open spec fn pgn_component(s: Seq<char>) -> bool {
    s == seq!['?', '?'] || digit_text(s)
}

/// The number a PGN date component stands for: 1 when unknown.
pub open spec fn component_value(s: Seq<char>) -> int {
    if s == seq!['?', '?'] {
        1
    } else {
        digits_value(s)
    }
}

proof fn lemma_component(s: Seq<char>)
    requires
        pgn_component(s),
    ensures
        digit_text(replace_unknown(s)),
        digits_value(replace_unknown(s)) == component_value(s),
{
    if s == seq!['?', '?'] {
        assert(s.skip(2) =~= Seq::<char>::empty());
        assert(replace_unknown(Seq::<char>::empty()) =~= Seq::<char>::empty());
        let r = seq!['0', '1'];
        assert(replace_unknown(s) =~= r);
        assert('0' as u32 == 48 && '1' as u32 == 49);
        assert(r.drop_last() =~= seq!['0']);
        assert(seq!['0'].drop_last() =~= Seq::<char>::empty());
        assert(seq!['0'].last() == '0');
        assert(r.last() == '1');
        assert(digits_value(Seq::<char>::empty()) == 0);
        assert(digits_value(seq!['0']) == 0);
        assert(digits_value(r) == 1);
        assert(all_digits(r));
    } else {
        lemma_digit_text(s);
    }
}

/// The pieces of a PGN date `Y.M.D` with components that are decimal
/// numbers or `??` read as the numbers those components stand for.
pub proof fn lemma_pgn_date_parts(y: Seq<char>, m: Seq<char>, d: Seq<char>)
    requires
        pgn_component(y),
        pgn_component(m),
        pgn_component(d),
    ensures
        ({
            let parts = pgn_date_parts(y + seq!['.'] + m + seq!['.'] + d);
            &&& parts.len() == 3
            &&& parse_i32(parts[0]) == Some(component_value(y) as i32)
            &&& parse_i32(parts[1]) == Some(component_value(m) as i32)
            &&& parse_i32(parts[2]) == Some(component_value(d) as i32)
        }),
        0 <= component_value(y) <= i32::MAX,
        0 <= component_value(m) <= i32::MAX,
        0 <= component_value(d) <= i32::MAX,
{
    let t = y + seq!['.'] + m + seq!['.'] + d;
    lemma_replace_unknown_dot(y + seq!['.'] + m, d);
    lemma_replace_unknown_dot(y, m);
    let (ry, rm, rd) = (replace_unknown(y), replace_unknown(m), replace_unknown(d));
    assert(replace_unknown(t) == ry + seq!['.'] + rm + seq!['.'] + rd);
    lemma_component(y);
    lemma_component(m);
    lemma_component(d);
    lemma_digit_text(ry);
    lemma_digit_text(rm);
    lemma_digit_text(rd);
    lemma_split_three(ry, rm, rd, '.');
    assert(pgn_date_parts(t) == seq![ry, rm, rd]);
    lemma_digits_nonneg_of(ry);
    lemma_digits_nonneg_of(rm);
    lemma_digits_nonneg_of(rd);
}

/// A PGN date whose three components are decimal numbers (leading zeros
/// allowed) or `??` has the timestamp of the date those numbers name, with
/// `??` standing for 1: `Y.M.D` gives `timestamp_of(Y, M, D)`.
pub proof fn law_pgn_date_value(y: Seq<char>, m: Seq<char>, d: Seq<char>)
    requires
        pgn_component(y),
        pgn_component(m),
        pgn_component(d),
        component_value(m) <= 12,
    ensures
        pgn_date_ok(y + seq!['.'] + m + seq!['.'] + d),
        pgn_timestamp(y + seq!['.'] + m + seq!['.'] + d) == timestamp_of(
            component_value(y),
            component_value(m),
            component_value(d),
        ),
{
    lemma_pgn_date_parts(y, m, d);
}

/// The header line `[Date "v"]`.
pub open spec fn date_line(v: Seq<char>) -> Seq<char> {
    date_tag() + seq!['"'] + v + seq!['"', ']']
}

/// The Date value of a header text is read from its `[Date "v"]` line: that
/// line alone gives `v`, and so does a header text that begins with that
/// line, whatever follows it (`v` holding no double quote and no line
/// break).
pub proof fn law_date_tag_read(v: Seq<char>, rest: Seq<char>)
    requires
        forall|i: int| 0 <= i < v.len() ==> v[i] != '"' && v[i] != '\n',
    ensures
        date_of_headers(date_line(v)) == Some(v),
        date_of_headers(date_line(v) + seq!['\n'] + rest) == Some(v),
{
    let l = date_line(v);
    let n = l.len();
    assert(n == v.len() + 9);
    assert(l[0] == '[' && l[n - 1] == ']');
    assert(trim_start(l) == l);
    assert(trim_end(l) == l);
    assert(trim(l) == l);
    assert(l.take(6) =~= date_tag());
    assert forall|j: int| 0 <= j < 6 implies l[j] != '"' by {}
    lemma_first_index_found(l, '"', 6);
    assert forall|j: int| 7 + v.len() < j < n implies l[j] != '"' by {}
    lemma_last_index_found(l, '"', 7 + v.len() as int);
    assert(l.subrange(7, 7 + v.len() as int) =~= v);
    assert(date_line_value(l) == Some(v));
    assert forall|i: int| 0 <= i < n implies l[i] != '\n' by {
        if 7 <= i < 7 + v.len() {
            assert(l[i] == v[i - 7]);
        }
    }
    crate::text::lemma_split_on_without_sep(l, '\n');
    assert(l.last() != '\n');
    assert(strip_cr(l) == l);
    // the line alone
    let ls1 = lines(l);
    assert(split_on(l, '\n').drop_last().map_values(|x: Seq<char>| strip_cr(x)) =~= Seq::<
        Seq<char>,
    >::empty());
    assert(ls1 =~= seq![l]);
    assert(date_in_lines(ls1.drop_first()) is None) by {
        assert(ls1.drop_first() =~= Seq::<Seq<char>>::empty());
    }
    // the line followed by more text
    let h = l + seq!['\n'] + rest;
    crate::text::lemma_split_concat(l, rest, '\n');
    lemma_split_on_len(rest, '\n');
    let p = split_on(h, '\n');
    assert(p == seq![l] + split_on(rest, '\n'));
    assert(p.len() >= 2);
    assert(p[0] == l);
    let ls2 = lines(h);
    assert(ls2.len() >= 1);
    assert(ls2[0] == strip_cr(l));
    assert(date_line_value(trim(ls2[0])) == Some(v));
}

/// The timestamp of a date with `i32` components (and a month in range)
/// fits in `i64`.
pub proof fn lemma_timestamp_in_range(y: int, m: int, d: int)
    requires
        i32::MIN < y <= i32::MAX,
        0 <= m <= 12,
        i32::MIN <= d <= i32::MAX,
    ensures
        i64::MIN <= timestamp_of(y, m, d) <= i64::MAX,
{
}

proof fn lemma_digits_nonneg_of(s: Seq<char>)
    requires
        digit_text(s),
    ensures
        digits_value(s) >= 0,
{
    crate::text::lemma_digits_value_nonneg(s);
}

proof fn lemma_first_index_found(s: Seq<char>, c: char, k: int)
    requires
        0 <= k < s.len(),
        s[k] == c,
        forall|j: int| 0 <= j < k ==> s[j] != c,
    ensures
        first_index(s, c) == Some(k),
    decreases k,
{
    if k > 0 {
        lemma_first_index_found(s.drop_first(), c, k - 1);
    }
}

proof fn lemma_first_index_none(s: Seq<char>, c: char)
    requires
        forall|j: int| 0 <= j < s.len() ==> s[j] != c,
    ensures
        first_index(s, c) is None,
    decreases s.len(),
{
    if s.len() > 0 {
        lemma_first_index_none(s.drop_first(), c);
    }
}

proof fn lemma_last_index_found(s: Seq<char>, c: char, k: int)
    requires
        0 <= k < s.len(),
        s[k] == c,
        forall|j: int| k < j < s.len() ==> s[j] != c,
    ensures
        last_index(s, c) == Some(k),
    decreases s.len() - k,
{
    if k < s.len() - 1 {
        lemma_last_index_found(s.drop_last(), c, k);
    }
}

proof fn lemma_last_index_none(s: Seq<char>, c: char)
    requires
        forall|j: int| 0 <= j < s.len() ==> s[j] != c,
    ensures
        last_index(s, c) is None,
    decreases s.len(),
{
    if s.len() > 0 {
        lemma_last_index_none(s.drop_last(), c);
    }
}

// ---------------------------------------------------------------------------
// Executable functions
// ---------------------------------------------------------------------------

/// Divisibility does not depend on the sign.
proof fn lemma_divisible_negated(y: int, k: int)
    requires
        k > 0,
    ensures
        ((-y) % k == 0) == (y % k == 0),
{
    if y % k == 0 {
        vstd::arithmetic::div_mod::lemma_fundamental_div_mod(y, k);
        vstd::arithmetic::div_mod::lemma_mod_multiples_basic(-(y / k), k);
        assert(-y == (-(y / k)) * k) by (nonlinear_arith)
            requires
                y == k * (y / k),
        ;
    }
    if (-y) % k == 0 {
        vstd::arithmetic::div_mod::lemma_fundamental_div_mod(-y, k);
        vstd::arithmetic::div_mod::lemma_mod_multiples_basic(-((-y) / k), k);
        assert(y == (-((-y) / k)) * k) by (nonlinear_arith)
            requires
                -y == k * ((-y) / k),
        ;
    }
}

/// Check whether a year is a leap year (Gregorian calendar).
#[verifier::spinoff_prover]
pub fn is_leap_year(year: i32) -> (b: bool)
    ensures
        b == leap_year(year as int),
{
    // divisibility does not depend on the sign
    let a: i64 = if year < 0 {
        -(year as i64)
    } else {
        year as i64
    };
    proof {
        lemma_divisible_negated(year as int, 4);
        lemma_divisible_negated(year as int, 100);
        lemma_divisible_negated(year as int, 400);
    }
    (a % 4 == 0 && a % 100 != 0) || a % 400 == 0
}

/// Total days from year 1 to the start of the given year.
fn days_before_year(year: i32) -> (r: i64)
    requires
        year > i32::MIN,
    ensures
        r == days_to_year(year as int),
{
    let y = (year - 1) as i64;
    365 * y + y / 4 - y / 100 + y / 400
}

/// Cumulative days before each month of a common year.
fn days_before_month_of(month: i32) -> (r: i64)
    requires
        0 <= month <= 12,
    ensures
        r == days_before_month(month as int),
{
    match month {
        0 | 1 => 0,
        2 => 31,
        3 => 59,
        4 => 90,
        5 => 120,
        6 => 151,
        7 => 181,
        8 => 212,
        9 => 243,
        10 => 273,
        11 => 304,
        _ => 334,
    }
}

/// Convert a year/month/day to seconds since Unix epoch (1970-01-01).
/// Returns a negative value for dates before 1970-01-01.
pub fn date_to_timestamp(year: i32, month: i32, day: i32) -> (ts: i64)
    requires
        date_args_ok(year as int, month as int),
    ensures
        ts == timestamp_of(year as int, month as int, day as int),
{
    let mut total = days_before_year(year) + days_before_month_of(month) + day as i64 - 1;
    if month > 2 && is_leap_year(year) {
        total += 1;
    }
    (total - days_before_year(1970)) * 86400
}

/// Year, month and day of a PGN date, read as `pgn_date_fields` says.
fn pgn_date_fields_of(d: &Vec<char>) -> (r: (i32, i32, i32))
    ensures
        r.0 as int == pgn_date_fields(d@).0,
        r.1 as int == pgn_date_fields(d@).1,
        r.2 as int == pgn_date_fields(d@).2,
        digit_text(pgn_date_parts(d@)[0]) ==> r.0 as int == digits_value(pgn_date_parts(d@)[0]),
        pgn_date_parts(d@).len() > 1 && digit_text(pgn_date_parts(d@)[1]) ==> r.1 as int
            == digits_value(pgn_date_parts(d@)[1]),
        pgn_date_parts(d@).len() > 2 && digit_text(pgn_date_parts(d@)[2]) ==> r.2 as int
            == digits_value(pgn_date_parts(d@)[2]),
{
    proof {
        let ps = pgn_date_parts(d@);
        if digit_text(ps[0]) {
            lemma_digit_text(ps[0]);
            lemma_digits_nonneg_of(ps[0]);
        }
        if ps.len() > 1 && digit_text(ps[1]) {
            lemma_digit_text(ps[1]);
            lemma_digits_nonneg_of(ps[1]);
        }
        if ps.len() > 2 && digit_text(ps[2]) {
            lemma_digit_text(ps[2]);
            lemma_digits_nonneg_of(ps[2]);
        }
    }
    let norm = replace_unknown_chars(d);
    let parts = split_chars(&norm, '.');
    proof {
        lemma_split_on_len(norm@, '.');
    }
    let ghost pv = parts@.map_values(|p: Vec<char>| p@);
    assert(pv[0] == parts[0]@);
    let year = match parse_i32_chars(&parts[0]) {
        Some(y) => y,
        None => 1970,
    };
    let month = if parts.len() > 1 {
        assert(pv[1] == parts[1]@);
        match parse_i32_chars(&parts[1]) {
            Some(m) => m,
            None => 1,
        }
    } else {
        1
    };
    let day = if parts.len() > 2 {
        assert(pv[2] == parts[2]@);
        match parse_i32_chars(&parts[2]) {
            Some(m) => m,
            None => 1,
        }
    } else {
        1
    };
    (year, month, day)
}

/// The timestamp of a PGN date, or `None` where it has none.
pub(crate) fn pgn_date_timestamp_checked(d: &Vec<char>) -> (r: Option<i64>)
    ensures
        r is Some <==> pgn_date_ok(d@),
        r matches Some(t) ==> t == pgn_timestamp(d@),
{
    let (year, month, day) = pgn_date_fields_of(d);
    if 0 <= month && month <= 12 && year > i32::MIN {
        Some(date_to_timestamp(year, month, day))
    } else {
        None
    }
}

/// Parse a PGN date string like "2025.06.15" or "1988.??.??" into a
/// Unix timestamp. Unknown components ("??") are treated as "01".
pub fn pgn_date_to_timestamp(pgn_date: &str) -> (ts: i64)
    requires
        pgn_date_ok(pgn_date@),
    ensures
        ts == pgn_timestamp(pgn_date@),
{
    let d = chars_of(pgn_date);
    match pgn_date_timestamp_checked(&d) {
        Some(t) => t,
        None => 0,
    }
}

/// The bounds of the Date value in the (trimmed) line `v[lo..hi]`, if it is one.
fn date_value_bounds(v: &Vec<char>, lo: usize, hi: usize, tag: &Vec<char>) -> (r: Option<(usize, usize)>)
    requires
        lo <= hi <= v.len(),
        tag@ == date_tag(),
    ensures
        match r {
            Some((a, b)) => lo <= a <= b <= hi && date_line_value(v@.subrange(lo as int, hi as int))
                == Some(v@.subrange(a as int, b as int)),
            None => date_line_value(v@.subrange(lo as int, hi as int)) is None,
        },
{
    let ghost t = v@.subrange(lo as int, hi as int);
    if !has_prefix(v, lo, hi, tag) {
        return None;
    }
    let mut a = lo;
    while a < hi && v[a] != '"'
        invariant
            lo <= a <= hi <= v.len(),
            t == v@.subrange(lo as int, hi as int),
            forall|j: int| 0 <= j < a - lo ==> t[j] != '"',
        decreases hi - a,
    {
        a = a + 1;
    }
    if a == hi {
        proof {
            lemma_first_index_none(t, '"');
        }
        return None;
    }
    proof {
        lemma_first_index_found(t, '"', a - lo);
    }
    let mut b = hi;
    while b > lo && v[b - 1] != '"'
        invariant
            lo <= b <= hi <= v.len(),
            t == v@.subrange(lo as int, hi as int),
            forall|j: int| b - lo <= j < t.len() ==> t[j] != '"',
        decreases b,
    {
        b = b - 1;
    }
    // `b` is positive here: the quote at `a` stops the scan at the latest
    assert(t[a - lo] == '"');
    proof {
        lemma_last_index_found(t, '"', b - 1 - lo);
    }
    if a + 1 < b {
        assert(t.subrange(a - lo + 1, b - 1 - lo) =~= v@.subrange(a + 1, b - 1));
        Some((a + 1, b - 1))
    } else {
        None
    }
}

/// Extract the value of `[Date "..."]` from a block of PGN header lines.
/// Returns `None` if no Date tag is found.
pub fn extract_date(headers: &str) -> (r: Option<String>)
    ensures
        match r {
            Some(s) => date_of_headers(headers@) == Some(s@),
            None => date_of_headers(headers@) is None,
        },
{
    let text = chars_of(headers);
    extract_date_chars(&text)
}

/// `extract_date` on a sequence of characters.
pub(crate) fn extract_date_chars(text: &Vec<char>) -> (r: Option<String>)
    ensures
        match r {
            Some(s) => date_of_headers(text@) == Some(s@),
            None => date_of_headers(text@) is None,
        },
{
    let ls = lines_of(text);
    let tag: Vec<char> = vec!['[', 'D', 'a', 't', 'e', ' '];
    assert(tag@ =~= date_tag());
    let ghost lv = ls@.map_values(|p: Vec<char>| p@);
    let mut i: usize = 0;
    assert(lv.skip(0) =~= lv);
    while i < ls.len()
        invariant
            i <= ls.len(),
            lv == ls@.map_values(|p: Vec<char>| p@),
            lv == lines(text@),
            tag@ == date_tag(),
            date_in_lines(lv) == date_in_lines(lv.skip(i as int)),
        decreases ls.len() - i,
    {
        let line = &ls[i];
        assert(lv[i as int] == line@);
        assert(lv.skip(i as int).drop_first() =~= lv.skip(i + 1));
        let (lo, hi) = trim_bounds(line, 0, line.len());
        assert(line@.subrange(0, line@.len() as int) =~= line@);
        match date_value_bounds(line, lo, hi, &tag) {
            Some((a, b)) => {
                return Some(string_of(line, a, b));
            },
            None => {},
        }
        i = i + 1;
    }
    None
}

} // verus!
