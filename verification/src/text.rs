//! Character-level text model: whitespace trimming, line splitting,
//! splitting on a separator, `??` replacement and decimal integer parsing,
//! each given as a spec function over `Seq<char>` with a verified
//! executable counterpart working on `Vec<char>`.
use vstd::prelude::*;

verus! {

/// Unicode `White_Space` characters (what `char::is_whitespace` accepts).
pub open spec fn is_white(c: char) -> bool {
    let u = c as u32;
    ||| 0x09 <= u <= 0x0d
    ||| u == 0x20
    ||| u == 0x85
    ||| u == 0xa0
    ||| u == 0x1680
    ||| 0x2000 <= u <= 0x200a
    ||| u == 0x2028
    ||| u == 0x2029
    ||| u == 0x202f
    ||| u == 0x205f
    ||| u == 0x3000
}

/// `s` with its leading whitespace removed.
pub open spec fn trim_start(s: Seq<char>) -> Seq<char>
    decreases s.len(),
{
    if s.len() > 0 && is_white(s[0]) {
        trim_start(s.drop_first())
    } else {
        s
    }
}

/// `s` with its trailing whitespace removed.
pub open spec fn trim_end(s: Seq<char>) -> Seq<char>
    decreases s.len(),
{
    if s.len() > 0 && is_white(s.last()) {
        trim_end(s.drop_last())
    } else {
        s
    }
}

/// `s` with whitespace removed at both ends (as `str::trim`).
pub open spec fn trim(s: Seq<char>) -> Seq<char> {
    trim_end(trim_start(s))
}

/// Whether a line counts as blank: nothing but whitespace.
pub open spec fn is_blank(s: Seq<char>) -> bool {
    trim(s).len() == 0
}

/// The pieces of `s` between occurrences of `sep` (as `str::split` with a
/// `char` pattern): there is always one more piece than separators.
pub open spec fn split_on(s: Seq<char>, sep: char) -> Seq<Seq<char>>
    decreases s.len(),
{
    if s.len() == 0 {
        seq![Seq::<char>::empty()]
    } else {
        let rest = split_on(s.drop_last(), sep);
        if s.last() == sep {
            rest.push(Seq::<char>::empty())
        } else {
            rest.update(rest.len() - 1, rest.last().push(s.last()))
        }
    }
}

/// A line that ended with a newline loses one carriage return before it.
pub open spec fn strip_cr(l: Seq<char>) -> Seq<char> {
    if l.len() > 0 && l.last() == '\r' {
        l.drop_last()
    } else {
        l
    }
}

/// The lines of `s` (as `str::lines`): pieces between `'\n'`; a piece that
/// was ended by `'\n'` also loses a trailing `'\r'`; a final empty piece
/// after a closing newline is not a line, and the empty text has no lines.
pub open spec fn lines(s: Seq<char>) -> Seq<Seq<char>> {
    let p = split_on(s, '\n');
    if s.len() == 0 {
        Seq::empty()
    } else if s.last() == '\n' {
        p.drop_last().map_values(|l: Seq<char>| strip_cr(l))
    } else {
        p.drop_last().map_values(|l: Seq<char>| strip_cr(l)).push(p.last())
    }
}

/// `s` with each non-overlapping `"??"`, read left to right, replaced by `"01"`.
pub open spec fn replace_unknown(s: Seq<char>) -> Seq<char>
    decreases s.len(),
{
    if s.len() >= 2 && s[0] == '?' && s[1] == '?' {
        seq!['0', '1'] + replace_unknown(s.skip(2))
    } else if s.len() >= 1 {
        seq![s[0]] + replace_unknown(s.skip(1))
    } else {
        s
    }
}

pub open spec fn is_digit(c: char) -> bool {
    48 <= c as u32 <= 57
}

pub open spec fn all_digits(s: Seq<char>) -> bool {
    forall|i: int| 0 <= i < s.len() ==> is_digit(#[trigger] s[i])
}

/// The value of a string of decimal digits.
pub open spec fn digits_value(s: Seq<char>) -> int
    decreases s.len(),
{
    if s.len() == 0 {
        0
    } else {
        digits_value(s.drop_last()) * 10 + (s.last() as u32 - 48)
    }
}

/// What `s.parse::<i32>()` gives: an optional `+` or `-`, then at least one
/// decimal digit and nothing else, with a value that fits in `i32`.
pub open spec fn parse_i32(s: Seq<char>) -> Option<i32> {
    let neg = s.len() > 0 && s[0] == '-';
    let body = if s.len() > 0 && (s[0] == '-' || s[0] == '+') {
        s.drop_first()
    } else {
        s
    };
    let v = if neg {
        -digits_value(body)
    } else {
        digits_value(body)
    };
    if body.len() == 0 || !all_digits(body) || v < i32::MIN || v > i32::MAX {
        None
    } else {
        Some(v as i32)
    }
}

/// Whether `s` begins with `p`.
pub open spec fn starts_with(s: Seq<char>, p: Seq<char>) -> bool {
    p.len() <= s.len() && s.take(p.len() as int) == p
}

// ---------------------------------------------------------------------------
// Lemmas
// ---------------------------------------------------------------------------

proof fn lemma_trim_start_skip(s: Seq<char>, i: int)
    requires
        0 <= i < s.len(),
        is_white(s[i]),
    ensures
        trim_start(s.skip(i)) == trim_start(s.skip(i + 1)),
{
    assert(s.skip(i).drop_first() =~= s.skip(i + 1));
}

proof fn lemma_trim_end_take(s: Seq<char>, j: int)
    requires
        0 < j <= s.len(),
        is_white(s[j - 1]),
    ensures
        trim_end(s.take(j)) == trim_end(s.take(j - 1)),
{
    assert(s.take(j).drop_last() =~= s.take(j - 1));
}

pub proof fn lemma_split_on_len(s: Seq<char>, sep: char)
    ensures
        split_on(s, sep).len() >= 1,
        (split_on(s, sep).last().len() == 0) == (s.len() == 0 || s.last() == sep),
    decreases s.len(),
{
    if s.len() > 0 {
        lemma_split_on_len(s.drop_last(), sep);
    }
}

proof fn lemma_trim_start_first(s: Seq<char>)
    ensures
        trim_start(s).len() > 0 ==> !is_white(trim_start(s)[0]),
    decreases s.len(),
{
    if s.len() > 0 && is_white(s[0]) {
        lemma_trim_start_first(s.drop_first());
    }
}

pub proof fn lemma_trim_end_prefix(s: Seq<char>)
    ensures
        trim_end(s).len() <= s.len(),
        trim_end(s) == s.take(trim_end(s).len() as int),
        trim_end(s).len() > 0 ==> !is_white(trim_end(s).last()),
    decreases s.len(),
{
    if s.len() > 0 && is_white(s.last()) {
        lemma_trim_end_prefix(s.drop_last());
        let t = trim_end(s.drop_last());
        assert(s.drop_last().take(t.len() as int) =~= s.take(t.len() as int));
    } else {
        assert(s.take(s.len() as int) =~= s);
    }
}

/// Trimmed text neither starts nor ends with whitespace.
pub proof fn lemma_trim_ends(s: Seq<char>)
    ensures
        trim(s).len() > 0 ==> !is_white(trim(s)[0]) && !is_white(trim(s).last()),
{
    lemma_trim_start_first(s);
    lemma_trim_end_prefix(trim_start(s));
    let t = trim_start(s);
    if trim(s).len() > 0 {
        assert(trim(s)[0] == t.take(trim(s).len() as int)[0]);
    }
}

/// A leading non-whitespace character survives trimming at the end.
pub proof fn lemma_trim_end_cons(c: char, y: Seq<char>)
    requires
        !is_white(c),
    ensures
        trim_end(seq![c] + y) == seq![c] + trim_end(y),
    decreases y.len(),
{
    if y.len() > 0 {
        let x = seq![c] + y;
        assert(x.last() == y.last());
        assert(x.drop_last() =~= seq![c] + y.drop_last());
        lemma_trim_end_cons(c, y.drop_last());
    } else {
        assert(seq![c] + y =~= seq![c]);
        assert(seq![c].drop_last() =~= Seq::<char>::empty());
    }
}

proof fn lemma_trim_end_idem(x: Seq<char>)
    ensures
        trim_end(trim_end(x)) == trim_end(x),
{
    lemma_trim_end_prefix(x);
}

/// Trimming at the start and at the end commute.
pub proof fn lemma_trim_commute(x: Seq<char>)
    ensures
        trim_start(trim_end(x)) == trim_end(trim_start(x)),
    decreases x.len(),
{
    if x.len() > 0 {
        let tail = x.drop_first();
        assert(x =~= seq![x[0]] + tail);
        if is_white(x[0]) {
            lemma_trim_commute(tail);
            lemma_trim_end_prefix(x);
            lemma_trim_end_prefix(tail);
            lemma_trim_end_split(x[0], tail);
            let te = trim_end(tail);
            assert(trim_start(x) == trim_start(tail));
            if te.len() == 0 {
                assert(trim_start(trim_end(x)) == trim_end(x));
            } else {
                assert((seq![x[0]] + te).drop_first() =~= te);
                assert(trim_start(seq![x[0]] + te) == trim_start(te));
            }
        } else {
            lemma_trim_end_cons(x[0], tail);
            assert((seq![x[0]] + trim_end(tail))[0] == x[0]);
        }
    }
}

/// Trimming at the end of a text behind a whitespace character.
proof fn lemma_trim_end_split(c: char, y: Seq<char>)
    requires
        is_white(c),
    ensures
        trim_end(y).len() == 0 ==> trim_end(seq![c] + y).len() == 0,
        trim_end(y).len() > 0 ==> trim_end(seq![c] + y) == seq![c] + trim_end(y),
    decreases y.len(),
{
    let x = seq![c] + y;
    if y.len() > 0 {
        assert(x.last() == y.last());
        assert(x.drop_last() =~= seq![c] + y.drop_last());
        lemma_trim_end_split(c, y.drop_last());
    } else {
        assert(x =~= seq![c]);
        assert(x.drop_last() =~= Seq::<char>::empty());
        assert(trim_end(Seq::<char>::empty()).len() == 0);
    }
}

/// Trimming what is left after a whitespace character and the end-trimmed
/// text is trimming the text.
pub proof fn lemma_trim_after_space(d: Seq<char>)
    ensures
        trim(trim_end(seq![' '] + d)) == trim(d),
{
    let x = seq![' '] + d;
    lemma_trim_commute(x);
    assert(x.drop_first() =~= d);
    assert(trim_start(x) == trim_start(d));
    lemma_trim_end_idem(trim_start(d));
}

/// A space on each side of a text is trimmed away with the text's own
/// surrounding whitespace.
pub proof fn lemma_trim_spaced(e: Seq<char>)
    ensures
        trim(seq![' '] + e + seq![' ']) == trim(e),
{
    let z = seq![' '] + e;
    let x = z + seq![' '];
    assert(x.drop_last() =~= z);
    assert(trim_end(x) == trim_end(z));
    lemma_trim_commute(x);
    lemma_trim_commute(z);
    lemma_trim_end_idem(trim_start(z));
    lemma_trim_after_space(e);
}

/// Splitting around one separator splits both sides.
pub proof fn lemma_split_concat(a: Seq<char>, b: Seq<char>, sep: char)
    ensures
        split_on(a + seq![sep] + b, sep) == split_on(a, sep) + split_on(b, sep),
    decreases b.len(),
{
    let x = a + seq![sep] + b;
    lemma_split_on_len(a, sep);
    if b.len() == 0 {
        assert(x.drop_last() =~= a);
        assert(split_on(b, sep) == seq![Seq::<char>::empty()]);
        assert(split_on(a, sep).push(Seq::<char>::empty()) =~= split_on(a, sep) + seq![
            Seq::<char>::empty(),
        ]);
    } else {
        lemma_split_concat(a, b.drop_last(), sep);
        lemma_split_on_len(b.drop_last(), sep);
        assert(x.drop_last() =~= a + seq![sep] + b.drop_last());
        assert(x.last() == b.last());
        let p = split_on(a, sep);
        let q = split_on(b.drop_last(), sep);
        if b.last() == sep {
            assert((p + q).push(Seq::<char>::empty()) =~= p + q.push(Seq::<char>::empty()));
        } else {
            assert((p + q).update((p + q).len() - 1, (p + q).last().push(b.last())) =~= p
                + q.update(q.len() - 1, q.last().push(b.last())));
        }
    }
}

/// A decimal number written with digits only (leading zeros allowed) whose
/// value fits in `i32`.
pub open spec fn digit_text(s: Seq<char>) -> bool {
    s.len() > 0 && all_digits(s) && digits_value(s) <= i32::MAX
}

/// A digit text reads back as its value, is its own trimming, and holds
/// none of the separators `-`, `.`, `?`.
pub proof fn lemma_digit_text(s: Seq<char>)
    requires
        digit_text(s),
    ensures
        parse_i32(s) == Some(digits_value(s) as i32),
        trim(s) == s,
        !is_white(s[0]),
        s[0] != '<' && s[0] != '>',
        forall|i: int| 0 <= i < s.len() ==> s[i] != '-' && s[i] != '.' && s[i] != '?',
        no_unknown(s),
        replace_unknown(s) == s,
{
    lemma_digits_value_nonneg(s);
    assert(is_digit(s[0]));
    assert(is_digit(s.last()));
    assert(trim_start(s) == s);
    assert forall|i: int| 0 <= i < s.len() implies s[i] != '-' && s[i] != '.' && s[i] != '?' by {
        assert(is_digit(s[i]));
    }
    assert forall|i: int| 0 <= i < s.len() - 1 implies !(#[trigger] s[i] == '?' && s[i + 1]
        == '?') by {
        assert(is_digit(s[i]));
    }
    lemma_replace_unknown_keeps(s);
}

/// Three pieces joined by a separator they do not hold split back into
/// those pieces.
pub proof fn lemma_split_three(a: Seq<char>, b: Seq<char>, c: Seq<char>, sep: char)
    requires
        forall|i: int| 0 <= i < a.len() ==> a[i] != sep,
        forall|i: int| 0 <= i < b.len() ==> b[i] != sep,
        forall|i: int| 0 <= i < c.len() ==> c[i] != sep,
    ensures
        split_on(a + seq![sep] + b + seq![sep] + c, sep) == seq![a, b, c],
{
    lemma_split_concat(a + seq![sep] + b, c, sep);
    lemma_split_concat(a, b, sep);
    lemma_split_on_without_sep(a, sep);
    lemma_split_on_without_sep(b, sep);
    lemma_split_on_without_sep(c, sep);
    assert(seq![a] + seq![b] + seq![c] =~= seq![a, b, c]);
}

/// Two pieces joined by a separator they do not hold split back into them.
pub proof fn lemma_split_two(a: Seq<char>, b: Seq<char>, sep: char)
    requires
        forall|i: int| 0 <= i < a.len() ==> a[i] != sep,
        forall|i: int| 0 <= i < b.len() ==> b[i] != sep,
    ensures
        split_on(a + seq![sep] + b, sep) == seq![a, b],
{
    lemma_split_concat(a, b, sep);
    lemma_split_on_without_sep(a, sep);
    lemma_split_on_without_sep(b, sep);
    assert(seq![a] + seq![b] =~= seq![a, b]);
}

/// The decimal digit for `k` in `0..10`.
pub open spec fn digit_char(k: int) -> char {
    if k == 0 {
        '0'
    } else if k == 1 {
        '1'
    } else if k == 2 {
        '2'
    } else if k == 3 {
        '3'
    } else if k == 4 {
        '4'
    } else if k == 5 {
        '5'
    } else if k == 6 {
        '6'
    } else if k == 7 {
        '7'
    } else if k == 8 {
        '8'
    } else {
        '9'
    }
}

/// The decimal writing of `n`, without leading zeros (as `n.to_string()`).
pub open spec fn decimal(n: nat) -> Seq<char>
    decreases n,
{
    if n < 10 {
        seq![digit_char(n as int)]
    } else {
        decimal(n / 10).push(digit_char(n as int % 10))
    }
}

proof fn lemma_decimal(n: nat)
    ensures
        decimal(n).len() >= 1,
        all_digits(decimal(n)),
        digits_value(decimal(n)) == n,
    decreases n,
{
    let k = n as int % 10;
    assert('0' as u32 == 48 && '1' as u32 == 49 && '2' as u32 == 50 && '3' as u32 == 51 && '4' as u32
        == 52 && '5' as u32 == 53 && '6' as u32 == 54 && '7' as u32 == 55 && '8' as u32 == 56
        && '9' as u32 == 57);
    assert(digit_char(k) as u32 == 48 + k);
    if n < 10 {
        assert(k == n);
        assert(decimal(n).drop_last() =~= Seq::<char>::empty());
        assert(decimal(n).last() == digit_char(k));
        assert(digits_value(decimal(n)) == digits_value(Seq::<char>::empty()) * 10 + k);
    } else {
        lemma_decimal(n / 10);
        assert(decimal(n).drop_last() =~= decimal(n / 10));
        assert(decimal(n).last() == digit_char(k));
        assert(digits_value(decimal(n)) == (n / 10) as int * 10 + k);
        let d = decimal(n);
        assert forall|i: int| 0 <= i < d.len() implies is_digit(#[trigger] d[i]) by {
            if i < d.len() - 1 {
                assert(d[i] == decimal(n / 10)[i]);
            }
        }
    }
}

pub proof fn lemma_split_on_without_sep(s: Seq<char>, sep: char)
    requires
        forall|i: int| 0 <= i < s.len() ==> s[i] != sep,
    ensures
        split_on(s, sep) == seq![s],
    decreases s.len(),
{
    if s.len() > 0 {
        lemma_split_on_without_sep(s.drop_last(), sep);
        assert(s.drop_last().push(s.last()) =~= s);
        assert(seq![s.drop_last()].update(0, s) =~= seq![s]);
    } else {
        assert(Seq::<char>::empty() =~= s);
    }
}

/// The decimal writing of a number up to `i32::MAX` reads back as that
/// number, is its own trimming, and holds no `-`.
pub proof fn lemma_decimal_reads_back(n: nat)
    requires
        n <= i32::MAX,
    ensures
        parse_i32(decimal(n)) == Some(n as i32),
        trim(decimal(n)) == decimal(n),
        split_on(decimal(n), '-') == seq![decimal(n)],
        !is_white(decimal(n)[0]),
        decimal(n)[0] != '<' && decimal(n)[0] != '>',
{
    lemma_decimal(n);
    let d = decimal(n);
    assert(is_digit(d[0]));
    assert(is_digit(d.last()));
    assert forall|i: int| 0 <= i < d.len() implies d[i] != '-' by {
        assert(is_digit(d[i]));
    }
    lemma_split_on_without_sep(d, '-');
    assert(trim_start(d) == d);
}

/// `s` holds no `"??"`.
pub open spec fn no_unknown(s: Seq<char>) -> bool {
    forall|i: int| 0 <= i < s.len() - 1 ==> !(#[trigger] s[i] == '?' && s[i + 1] == '?')
}

proof fn lemma_replace_unknown_len(s: Seq<char>)
    ensures
        replace_unknown(s).len() == s.len(),
    decreases s.len(),
{
    if s.len() >= 2 && s[0] == '?' && s[1] == '?' {
        lemma_replace_unknown_len(s.skip(2));
    } else if s.len() >= 1 {
        lemma_replace_unknown_len(s.skip(1));
    }
}

/// Replacing leaves no `"??"` behind.
proof fn lemma_replace_unknown_leaves_none(s: Seq<char>)
    ensures
        no_unknown(replace_unknown(s)),
    decreases s.len(),
{
    let r = replace_unknown(s);
    if s.len() >= 2 && s[0] == '?' && s[1] == '?' {
        let rest = replace_unknown(s.skip(2));
        lemma_replace_unknown_leaves_none(s.skip(2));
        assert forall|i: int| 0 <= i < r.len() - 1 implies !(#[trigger] r[i] == '?' && r[i + 1]
            == '?') by {
            if i >= 2 {
                assert(r[i] == rest[i - 2] && r[i + 1] == rest[i - 1]);
            }
        }
    } else if s.len() >= 1 {
        let t = s.skip(1);
        let rest = replace_unknown(t);
        lemma_replace_unknown_leaves_none(t);
        lemma_replace_unknown_len(t);
        assert forall|i: int| 0 <= i < r.len() - 1 implies !(#[trigger] r[i] == '?' && r[i + 1]
            == '?') by {
            if i >= 1 {
                assert(r[i] == rest[i - 1] && r[i + 1] == rest[i]);
            } else if s[0] == '?' {
                assert(t[0] == s[1]);
                assert(s[1] != '?');
                if t.len() >= 2 && t[0] == '?' && t[1] == '?' {
                } else {
                    assert(rest[0] == t[0]);
                }
            }
        }
    }
}

/// Text without `"??"` is left as it is.
pub proof fn lemma_replace_unknown_keeps(s: Seq<char>)
    requires
        no_unknown(s),
    ensures
        replace_unknown(s) == s,
    decreases s.len(),
{
    if s.len() >= 2 {
        assert(!(s[0] == '?' && s[1] == '?'));
    }
    if s.len() >= 1 {
        let t = s.skip(1);
        assert forall|i: int| 0 <= i < t.len() - 1 implies !(#[trigger] t[i] == '?' && t[i + 1]
            == '?') by {
            assert(t[i] == s[i + 1] && t[i + 1] == s[i + 2]);
        }
        lemma_replace_unknown_keeps(t);
        assert(seq![s[0]] + t =~= s);
    }
}

/// Reading `"??"` as `"01"` twice is the same as once.
pub proof fn law_replace_unknown_idempotent(s: Seq<char>)
    ensures
        replace_unknown(replace_unknown(s)) == replace_unknown(s),
{
    lemma_replace_unknown_leaves_none(s);
    lemma_replace_unknown_keeps(replace_unknown(s));
}

pub proof fn lemma_digits_value_nonneg(s: Seq<char>)
    requires
        all_digits(s),
    ensures
        digits_value(s) >= 0,
    decreases s.len(),
{
    if s.len() > 0 {
        lemma_digits_value_nonneg(s.drop_last());
    }
}

/// Extending a digit string never lowers its value.
proof fn lemma_digits_value_grows(s: Seq<char>, k: int)
    requires
        all_digits(s),
        0 <= k <= s.len(),
    ensures
        digits_value(s.take(k)) <= digits_value(s),
    decreases s.len() - k,
{
    if k < s.len() {
        lemma_digits_value_grows(s, k + 1);
        assert(s.take(k + 1).drop_last() =~= s.take(k));
        lemma_digits_value_nonneg(s.take(k));
    } else {
        assert(s.take(k) =~= s);
    }
}

// ---------------------------------------------------------------------------
// Executable counterparts
// ---------------------------------------------------------------------------

/// The characters of `s`, in order.
pub fn chars_of(s: &str) -> (v: Vec<char>)
    ensures
        v@ == s@,
{
    let mut v: Vec<char> = Vec::new();
    for c in it: s.chars()
        invariant
            v@ == it.seq().take(it.index()),
    {
        v.push(c);
    }
    v
}

/// `String::push`: appends `c` to the end of `s`; the contract claims that
/// the text afterwards is the text before with `c` added at the end.
#[verifier::external_body]
pub fn push_char(s: &mut String, c: char)
    ensures
        final(s)@ == old(s)@.push(c),
{
    s.push(c);
}

/// The `String` holding `v[lo..hi]`.
pub fn string_of(v: &Vec<char>, lo: usize, hi: usize) -> (s: String)
    requires
        lo <= hi <= v.len(),
    ensures
        s@ == v@.subrange(lo as int, hi as int),
{
    let mut s = String::new();
    let mut i = lo;
    while i < hi
        invariant
            lo <= i <= hi <= v.len(),
            s@ == v@.subrange(lo as int, i as int),
        decreases hi - i,
    {
        push_char(&mut s, v[i]);
        assert(v@.subrange(lo as int, i + 1) =~= v@.subrange(lo as int, i as int).push(v@[i as int]));
        i = i + 1;
    }
    s
}

/// `v[lo..hi]` as a vector of its own.
pub fn sub_chars(v: &Vec<char>, lo: usize, hi: usize) -> (r: Vec<char>)
    requires
        lo <= hi <= v.len(),
    ensures
        r@ == v@.subrange(lo as int, hi as int),
{
    let mut r: Vec<char> = Vec::new();
    let mut i = lo;
    while i < hi
        invariant
            lo <= i <= hi <= v.len(),
            r@ == v@.subrange(lo as int, i as int),
        decreases hi - i,
    {
        r.push(v[i]);
        assert(r@ =~= v@.subrange(lo as int, i + 1));
        i = i + 1;
    }
    r
}

/// Whether `c` is Unicode whitespace.
pub fn is_white_char(c: char) -> (b: bool)
    ensures
        b == is_white(c),
{
    let u = c as u32;
    (0x09 <= u && u <= 0x0d) || u == 0x20 || u == 0x85 || u == 0xa0 || u == 0x1680 || (0x2000
        <= u && u <= 0x200a) || u == 0x2028 || u == 0x2029 || u == 0x202f || u == 0x205f || u
        == 0x3000
}

/// The bounds of `trim(v[lo..hi])` inside `v`.
pub fn trim_bounds(v: &Vec<char>, lo: usize, hi: usize) -> (r: (usize, usize))
    requires
        lo <= hi <= v.len(),
    ensures
        lo <= r.0 <= r.1 <= hi,
        v@.subrange(r.0 as int, r.1 as int) == trim(v@.subrange(lo as int, hi as int)),
{
    let ghost s = v@.subrange(lo as int, hi as int);
    assert(s.skip(0) =~= s);
    let mut i = lo;
    while i < hi && is_white_char(v[i])
        invariant
            lo <= i <= hi <= v.len(),
            s == v@.subrange(lo as int, hi as int),
            trim_start(s) == trim_start(s.skip(i - lo)),
        decreases hi - i,
    {
        proof {
            lemma_trim_start_skip(s, i - lo);
        }
        i = i + 1;
    }
    let ghost t = s.skip(i - lo);
    assert(trim_start(t) == t);
    assert(t =~= v@.subrange(i as int, hi as int));
    assert(t.take(t.len() as int) =~= t);
    let mut j = hi;
    while j > i && is_white_char(v[j - 1])
        invariant
            lo <= i <= j <= hi <= v.len(),
            t == v@.subrange(i as int, hi as int),
            trim_end(t) == trim_end(t.take(j - i)),
        decreases j,
    {
        proof {
            lemma_trim_end_take(t, j - i);
        }
        j = j - 1;
    }
    assert(t.take(j - i) =~= v@.subrange(i as int, j as int));
    (i, j)
}

/// The pieces of `v` between occurrences of `sep`.
pub fn split_chars(v: &Vec<char>, sep: char) -> (r: Vec<Vec<char>>)
    ensures
        r@.map_values(|p: Vec<char>| p@) == split_on(v@, sep),
{
    let mut out: Vec<Vec<char>> = Vec::new();
    let mut cur: Vec<char> = Vec::new();
    let mut i: usize = 0;
    while i < v.len()
        invariant
            i <= v.len(),
            out@.map_values(|p: Vec<char>| p@).push(cur@) == split_on(v@.take(i as int), sep),
        decreases v.len() - i,
    {
        let c = v[i];
        assert(v@.take(i + 1).drop_last() =~= v@.take(i as int));
        let ghost prev = out@.map_values(|p: Vec<char>| p@).push(cur@);
        if c == sep {
            let mut done: Vec<char> = Vec::new();
            std::mem::swap(&mut done, &mut cur);
            out.push(done);
        } else {
            cur.push(c);
        }
        assert(out@.map_values(|p: Vec<char>| p@).push(cur@) =~= split_on(v@.take(i + 1), sep));
        i = i + 1;
    }
    assert(v@.take(v.len() as int) =~= v@);
    let ghost before = out@.map_values(|p: Vec<char>| p@).push(cur@);
    out.push(cur);
    assert(out@.map_values(|p: Vec<char>| p@) =~= before);
    out
}

/// The lines of `v`.
pub fn lines_of(v: &Vec<char>) -> (r: Vec<Vec<char>>)
    ensures
        r@.map_values(|p: Vec<char>| p@) == lines(v@),
{
    let mut out: Vec<Vec<char>> = Vec::new();
    let mut cur: Vec<char> = Vec::new();
    let mut i: usize = 0;
    while i < v.len()
        invariant
            i <= v.len(),
            out@.map_values(|p: Vec<char>| p@) == split_on(v@.take(i as int), '\n').drop_last().map_values(
                |l: Seq<char>| strip_cr(l),
            ),
            cur@ == split_on(v@.take(i as int), '\n').last(),
        decreases v.len() - i,
    {
        let c = v[i];
        assert(v@.take(i + 1).drop_last() =~= v@.take(i as int));
        let ghost prev = split_on(v@.take(i as int), '\n');
        let ghost next = split_on(v@.take(i + 1), '\n');
        proof {
            lemma_split_on_len(v@.take(i as int), '\n');
        }
        if c == '\n' {
            let mut done: Vec<char> = Vec::new();
            std::mem::swap(&mut done, &mut cur);
            let k = done.len();
            if k > 0 && done[k - 1] == '\r' {
                done.pop();
            }
            assert(done@ == strip_cr(prev.last()));
            let ghost before = out@.map_values(|p: Vec<char>| p@).push(done@);
            out.push(done);
            assert(out@.map_values(|p: Vec<char>| p@) =~= before);
            assert(next.drop_last() =~= prev);
            assert(out@.map_values(|p: Vec<char>| p@) =~= next.drop_last().map_values(
                |l: Seq<char>| strip_cr(l),
            ));
        } else {
            cur.push(c);
            assert(next.drop_last() =~= prev.drop_last());
        }
        i = i + 1;
    }
    assert(v@.take(v.len() as int) =~= v@);
    let ghost p = split_on(v@, '\n');
    proof {
        lemma_split_on_len(v@, '\n');
    }
    if cur.len() > 0 {
        let ghost before = out@.map_values(|p: Vec<char>| p@).push(cur@);
        out.push(cur);
        assert(out@.map_values(|p: Vec<char>| p@) =~= before);
    }
    out
}

/// `v` with each `"??"` replaced by `"01"`.
pub fn replace_unknown_chars(v: &Vec<char>) -> (r: Vec<char>)
    ensures
        r@ == replace_unknown(v@),
{
    let mut out: Vec<char> = Vec::new();
    let mut i: usize = 0;
    assert(v@.skip(0) =~= v@);
    while i < v.len()
        invariant
            i <= v.len(),
            out@ + replace_unknown(v@.skip(i as int)) == replace_unknown(v@),
        decreases v.len() - i,
    {
        let ghost rest = v@.skip(i as int);
        if i + 1 < v.len() && v[i] == '?' && v[i + 1] == '?' {
            assert(rest.skip(2) =~= v@.skip(i + 2));
            out.push('0');
            out.push('1');
            assert(out@ + replace_unknown(v@.skip(i + 2)) =~= replace_unknown(v@));
            i = i + 2;
        } else {
            assert(rest.skip(1) =~= v@.skip(i + 1));
            out.push(v[i]);
            assert(out@ + replace_unknown(v@.skip(i + 1)) =~= replace_unknown(v@));
            i = i + 1;
        }
    }
    assert(v@.skip(i as int).len() == 0);
    assert(out@ + replace_unknown(v@.skip(i as int)) =~= out@);
    out
}

/// What `s.parse::<i32>()` gives, as an `Option`.
pub fn parse_i32_chars(s: &Vec<char>) -> (r: Option<i32>)
    ensures
        r == parse_i32(s@),
{
    let n = s.len();
    let mut start: usize = 0;
    let mut neg = false;
    if n > 0 && (s[0] == '-' || s[0] == '+') {
        neg = s[0] == '-';
        start = 1;
    }
    let ghost body = s@.skip(start as int);
    assert(start == 1 ==> body =~= s@.drop_first());
    assert(start == 0 ==> body =~= s@);

    if start == n {
        return None;
    }
    let mut acc: i64 = 0;
    let mut i = start;
    assert(body.take(0) =~= Seq::<char>::empty());
    while i < n
        invariant
            start <= i <= n == s.len(),
            body == s@.skip(start as int),
            body == (if s@.len() > 0 && (s@[0] == '-' || s@[0] == '+') { s@.drop_first() } else { s@ }),
            neg == (s@.len() > 0 && s@[0] == '-'),
            body.len() == n - start,
            all_digits(body.take(i - start)),
            acc == digits_value(body.take(i - start)),
            0 <= acc <= 2147483648,
        decreases n - i,
    {
        let c = s[i];
        let u = #[verifier::truncate] (c as u32);
        if u < 48 || u > 57 {
            assert(body[i - start] == c);
            assert(!is_digit(body[i - start]));
            return None;
        }
        assert(body.take(i - start + 1).drop_last() =~= body.take(i - start));
        acc = acc * 10 + (u - 48) as i64;
        assert(body.take(i - start + 1).last() == c);
        assert(acc == digits_value(body.take(i - start + 1)));
        assert(all_digits(body.take(i - start + 1)));
        if acc > 2147483648 {
            proof {
                if all_digits(body) {
                    lemma_digits_value_grows(body, i - start + 1);
                }
            }
            return None;
        }
        i = i + 1;
    }
    assert(body.take(n - start) =~= body);
    if neg {
        Some((0 - acc) as i32)
    } else if acc > 2147483647 {
        None
    } else {
        Some(acc as i32)
    }
}

/// Whether `v[lo..hi]` begins with `p`.
pub fn has_prefix(v: &Vec<char>, lo: usize, hi: usize, p: &Vec<char>) -> (b: bool)
    requires
        lo <= hi <= v.len(),
    ensures
        b == starts_with(v@.subrange(lo as int, hi as int), p@),
{
    let ghost s = v@.subrange(lo as int, hi as int);
    if p.len() > hi - lo {
        return false;
    }
    let mut k: usize = 0;
    while k < p.len()
        invariant
            p.len() <= hi - lo,
            lo <= hi <= v.len(),
            s == v@.subrange(lo as int, hi as int),
            k <= p.len(),
            forall|j: int| 0 <= j < k ==> s[j] == p@[j],
        decreases p.len() - k,
    {
        if v[lo + k] != p[k] {
            assert(s.take(p.len() as int)[k as int] != p@[k as int]);
            return false;
        }
        k = k + 1;
    }
    assert(s.take(p.len() as int) =~= p@);
    true
}

} // verus!
