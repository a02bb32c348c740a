//! The decisions of the command-line tool: argument checks, output paths
//! and the sort direction.
use vstd::prelude::*;

use crate::sort::{sort_asc, sort_desc, stable_sort_of};
use crate::text::{chars_of, push_char};
use crate::PgnGame;

verus! {

pub open spec fn pgn_ext() -> Seq<char> {
    seq!['.', 'p', 'g', 'n']
}

/// Whether `s` ends with `".pgn"`.
pub open spec fn has_pgn_ext(s: Seq<char>) -> bool {
    s.len() >= 4 && s.skip(s.len() - 4) == pgn_ext()
}

/// `input` with `-suffix` inserted before a final `.pgn`, or appended.
pub open spec fn default_output_path_spec(input: Seq<char>, suffix: Seq<char>) -> Seq<char> {
    if has_pgn_ext(input) {
        input.take(input.len() - 4) + seq!['-'] + suffix + pgn_ext()
    } else {
        input + seq!['-'] + suffix
    }
}

pub open spec fn sorted_word() -> Seq<char> {
    seq!['s', 'o', 'r', 't', 'e', 'd']
}

pub open spec fn filtered_word() -> Seq<char> {
    seq!['f', 'i', 'l', 't', 'e', 'r', 'e', 'd']
}

/// The path the result is written to: the one given, else the input's
/// path with `-filtered` (when filtering) or `-sorted` added.
pub open spec fn output_path_spec(output: Option<Seq<char>>, filtering: bool, input: Seq<char>) -> Seq<char> {
    match output {
        Some(p) => p,
        None => default_output_path_spec(
            input,
            if filtering {
                filtered_word()
            } else {
                sorted_word()
            },
        ),
    }
}

/// Where the filtered games are written: the `--filter-file` path when
/// given, else the output path chosen for a filtering run.
pub open spec fn filtered_output_path_spec(
    filter_file: Option<Seq<char>>,
    output: Option<Seq<char>>,
    input: Seq<char>,
) -> Seq<char> {
    match filter_file {
        Some(p) => p,
        None => output_path_spec(output, true, input),
    }
}

/// A given output path is used as it is, whether or not a filter is in
/// use; a given filter-file path is used for the filtered games, and
/// without one the given output path is.
pub proof fn law_given_path_is_used(
    p: Seq<char>,
    filter_file: Seq<char>,
    output: Option<Seq<char>>,
    filtering: bool,
    input: Seq<char>,
)
    ensures
        output_path_spec(Some(p), filtering, input) == p,
        filtered_output_path_spec(Some(filter_file), output, input) == filter_file,
        filtered_output_path_spec(None, Some(p), input) == p,
{
}

/// Without an output path, `stem.pgn` is written to `stem-sorted.pgn`, or
/// to `stem-filtered.pgn` when a filter is in use; a path without the
/// `.pgn` extension gets `-sorted` or `-filtered` appended.
pub proof fn law_default_paths(stem: Seq<char>, input: Seq<char>)
    requires
        !(input.len() >= 4 && input.skip(input.len() - 4) == seq!['.', 'p', 'g', 'n']),
    ensures
        output_path_spec(None, false, stem + seq!['.', 'p', 'g', 'n']) == stem + seq![
            '-',
            's',
            'o',
            'r',
            't',
            'e',
            'd',
            '.',
            'p',
            'g',
            'n',
        ],
        output_path_spec(None, true, stem + seq!['.', 'p', 'g', 'n']) == stem + seq![
            '-',
            'f',
            'i',
            'l',
            't',
            'e',
            'r',
            'e',
            'd',
            '.',
            'p',
            'g',
            'n',
        ],
        filtered_output_path_spec(None, None, stem + seq!['.', 'p', 'g', 'n'])
            == output_path_spec(None, true, stem + seq!['.', 'p', 'g', 'n']),
        output_path_spec(None, false, input) == input + seq!['-', 's', 'o', 'r', 't', 'e', 'd'],
        output_path_spec(None, true, input) == input + seq![
            '-',
            'f',
            'i',
            'l',
            't',
            'e',
            'r',
            'e',
            'd',
        ],
{
    let x = stem + seq!['.', 'p', 'g', 'n'];
    assert(x.skip(x.len() - 4) =~= pgn_ext());
    assert(!has_pgn_ext(input));
    assert(x.take(x.len() - 4) =~= stem);
    assert(stem + seq!['-'] + sorted_word() + pgn_ext() =~= stem + seq![
        '-',
        's',
        'o',
        'r',
        't',
        'e',
        'd',
        '.',
        'p',
        'g',
        'n',
    ]);
    assert(stem + seq!['-'] + filtered_word() + pgn_ext() =~= stem + seq![
        '-',
        'f',
        'i',
        'l',
        't',
        'e',
        'r',
        'e',
        'd',
        '.',
        'p',
        'g',
        'n',
    ]);
    assert(input + seq!['-'] + sorted_word() =~= input + seq!['-', 's', 'o', 'r', 't', 'e', 'd']);
    assert(input + seq!['-'] + filtered_word() =~= input + seq![
        '-',
        'f',
        'i',
        'l',
        't',
        'e',
        'r',
        'e',
        'd',
    ]);
}

pub open spec fn opt_view(o: Option<&str>) -> Option<Seq<char>> {
    match o {
        Some(s) => Some(s@),
        None => None,
    }
}

/// Appends `v[lo..hi]` to `s`.
fn push_all(s: &mut String, v: &Vec<char>, lo: usize, hi: usize)
    requires
        lo <= hi <= v.len(),
    ensures
        final(s)@ == old(s)@ + v@.subrange(lo as int, hi as int),
{
    let mut i = lo;
    while i < hi
        invariant
            lo <= i <= hi <= v.len(),
            s@ == old(s)@ + v@.subrange(lo as int, i as int),
        decreases hi - i,
    {
        push_char(s, v[i]);
        assert(s@ =~= old(s)@ + v@.subrange(lo as int, i + 1));
        i = i + 1;
    }
}

/// Build a default output path by inserting `suffix` before ".pgn" (or appending it).
pub fn default_output_path(input: &str, suffix: &str) -> (p: String)
    ensures
        p@ == default_output_path_spec(input@, suffix@),
{
    let v = chars_of(input);
    let sfx = chars_of(suffix);
    let n = v.len();
    let ext = n >= 4 && v[n - 4] == '.' && v[n - 3] == 'p' && v[n - 2] == 'g' && v[n - 1] == 'n';
    assert(ext ==> v@.skip(n - 4) =~= pgn_ext());
    assert(n >= 4 && v@.skip(n - 4) == pgn_ext() ==> v@.skip(n - 4)[0] == '.' && v@.skip(n - 4)[1]
        == 'p' && v@.skip(n - 4)[2] == 'g' && v@.skip(n - 4)[3] == 'n');
    let mut out = String::new();
    if ext {
        push_all(&mut out, &v, 0, n - 4);
        push_char(&mut out, '-');
        push_all(&mut out, &sfx, 0, sfx.len());
        push_char(&mut out, '.');
        push_char(&mut out, 'p');
        push_char(&mut out, 'g');
        push_char(&mut out, 'n');
        assert(v@.subrange(0, n - 4) =~= v@.take(n - 4));
        assert(sfx@.subrange(0, sfx@.len() as int) =~= sfx@);
        assert(out@ =~= default_output_path_spec(input@, suffix@));
    } else {
        push_all(&mut out, &v, 0, n);
        push_char(&mut out, '-');
        push_all(&mut out, &sfx, 0, sfx.len());
        assert(v@.subrange(0, n as int) =~= v@);
        assert(sfx@.subrange(0, sfx@.len() as int) =~= sfx@);
        assert(out@ =~= default_output_path_spec(input@, suffix@));
    }
    out
}

/// The characters of `s` as a `String`.
fn owned(s: &str) -> (r: String)
    ensures
        r@ == s@,
{
    let v = chars_of(s);
    let mut out = String::new();
    push_all(&mut out, &v, 0, v.len());
    assert(v@.subrange(0, v@.len() as int) =~= v@);
    assert(out@ =~= s@);
    out
}

/// Determine the path for filtered games: the given filter-file path,
/// else the given output path, else the input's path with `-filtered`.
pub fn filtered_output_path(filter_file: Option<&str>, output: Option<&str>, input: &str) -> (p:
    String)
    ensures
        p@ == filtered_output_path_spec(opt_view(filter_file), opt_view(output), input@),
        filter_file matches Some(given) ==> p@ == given@,
        (filter_file is None && output is Some) ==> p@ == output.unwrap()@,
{
    match filter_file {
        Some(path) => owned(path),
        None => output_path(output, true, input),
    }
}

/// Determine the output path from the given output path, whether a filter
/// is in use, and the input path.
pub fn output_path(output: Option<&str>, filtering: bool, input: &str) -> (p: String)
    ensures
        p@ == output_path_spec(
            opt_view(output),
            filtering,
            input@,
        ),
        output matches Some(given) ==> p@ == given@,
{
    match output {
        Some(path) => owned(path),
        None => {
            let word: Vec<char> = if filtering {
                vec!['f', 'i', 'l', 't', 'e', 'r', 'e', 'd']
            } else {
                vec!['s', 'o', 'r', 't', 'e', 'd']
            };
            assert(filtering ==> word@ =~= filtered_word());
            assert(!filtering ==> word@ =~= sorted_word());
            let mut suffix = String::new();
            push_all(&mut suffix, &word, 0, word.len());
            assert(word@.subrange(0, word@.len() as int) =~= word@);
            assert(suffix@ =~= word@);
            default_output_path(input, suffix.as_str())
        },
    }
}

/// The sort-direction flags are consistent: `--asc` and `--desc` are
/// mutually exclusive.
pub fn validate_args(asc: bool, desc: bool) -> (ok: bool)
    ensures
        ok == !(asc && desc),
{
    !(asc && desc)
}

/// Sort games in place, newest first when `descending`, else oldest first.
pub fn sort_games(games: &mut Vec<PgnGame>, descending: bool)
    ensures
        stable_sort_of(final(games)@, old(games)@, descending),
{
    if descending {
        sort_desc(games.as_mut_slice());
    } else {
        sort_asc(games.as_mut_slice());
    }
}

} // verus!
