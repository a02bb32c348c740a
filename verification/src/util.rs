//! Reading PGN text from raw bytes and writing games back out.
use vstd::prelude::*;

use vstd::utf8::{decode_utf8, valid_utf8};

use crate::text::push_char;
use crate::{games_in, law_game_texts_trimmed, GameView, PgnGame};

verus! {

// ---------------------------------------------------------------------------
// Decoding
// ---------------------------------------------------------------------------

/// Whether `std::str::from_utf8` accepts the bytes; the contract claims it
/// does exactly for the byte sequences that vstd's `valid_utf8` calls
/// well-formed UTF-8.
#[verifier::external_body]
fn utf8_ok(bytes: &[u8]) -> (r: bool)
    ensures
        r == valid_utf8(bytes@),
{
    std::str::from_utf8(bytes).is_ok()
}

/// The text `String::from_utf8_lossy` makes of the bytes.
pub uninterp spec fn lossy_text(bytes: Seq<u8>) -> Seq<char>;

/// `String::from_utf8_lossy`: the bytes decoded, with each invalid
/// sequence replaced by U+FFFD. Of valid UTF-8 it is the decoded text;
/// which replacement characters stand where in other input is left to the
/// name `lossy_text`.
#[verifier::external_body]
fn from_utf8_lossy(bytes: &[u8]) -> (r: String)
    ensures
        r@ == lossy_text(bytes@),
        valid_utf8(bytes@) ==> r@ == decode_utf8(bytes@),
{
    String::from_utf8_lossy(bytes).into_owned()
}

/// Where the window scan of `is_valid_utf8_at` starts.
pub open spec fn window_start(pos: int) -> int {
    if pos >= 3 {
        pos - 3
    } else {
        0
    }
}

/// The window of at most four bytes starting at `s`.
pub open spec fn window(bytes: Seq<u8>, s: int) -> Seq<u8> {
    bytes.subrange(s, if s + 4 <= bytes.len() {
        s + 4
    } else {
        bytes.len() as int
    })
}

/// Some window starting at most three bytes before `pos` is valid UTF-8.
pub open spec fn valid_utf8_near(bytes: Seq<u8>, pos: int) -> bool {
    exists|s: int| window_start(pos) <= s <= pos && valid_utf8(#[trigger] window(bytes, s))
}

/// A byte counted as invalid: not ASCII and in no valid window.
pub open spec fn invalid_byte_at(bytes: Seq<u8>, i: int) -> bool {
    bytes[i] > 127 && !valid_utf8_near(bytes, i)
}

/// How many bytes among the first `n` are counted as invalid.
pub open spec fn invalid_bytes_before(bytes: Seq<u8>, n: int) -> nat
    decreases n,
{
    if n <= 0 {
        0
    } else {
        invalid_bytes_before(bytes, n - 1) + if invalid_byte_at(bytes, n - 1) {
            1nat
        } else {
            0nat
        }
    }
}

/// Check if the byte at `pos` is part of a valid UTF-8 sequence.
/// Scans a small window around `pos` as a best-effort heuristic.
pub fn is_valid_utf8_at(bytes: &[u8], pos: usize) -> (b: bool)
    requires
        pos <= bytes@.len(),
    ensures
        b == valid_utf8_near(bytes@, pos as int),
{
    let start = if pos >= 3 {
        pos - 3
    } else {
        0
    };
    let mut s = start;
    while s <= pos
        invariant
            start == window_start(pos as int),
            start <= s <= pos + 1,
            pos <= bytes@.len(),
            forall|k: int| start <= k < s ==> !valid_utf8(#[trigger] window(bytes@, k)),
        decreases pos + 1 - s,
    {
        let end = if bytes.len() - s >= 4 {
            s + 4
        } else {
            bytes.len()
        };
        let w = vstd::slice::slice_subrange(bytes, s, end);
        assert(w@ == window(bytes@, s as int));
        if utf8_ok(w) {
            return true;
        }
        s = s + 1;
    }
    false
}

/// The number of bytes counted as invalid UTF-8, or `None` when the whole
/// input is valid UTF-8 (and nothing is counted).
pub fn count_invalid_utf8(raw: &[u8]) -> (r: Option<usize>)
    ensures
        r is None <==> valid_utf8(raw@),
        r matches Some(n) ==> n == invalid_bytes_before(raw@, raw@.len() as int),
{
    if utf8_ok(raw) {
        return None;
    }
    let mut count: usize = 0;
    let mut i: usize = 0;
    while i < raw.len()
        invariant
            i <= raw@.len(),
            count == invalid_bytes_before(raw@, i as int),
            count <= i,
        decreases raw@.len() - i,
    {
        if raw[i] > 127 && !is_valid_utf8_at(raw, i) {
            count = count + 1;
        }
        i = i + 1;
    }
    Some(count)
}

/// `s` without a leading byte-order mark.
pub open spec fn strip_bom(s: Seq<char>) -> Seq<char> {
    if s.len() > 0 && s[0] == '\u{feff}' {
        s.drop_first()
    } else {
        s
    }
}

/// The number of `'\n'` at the end of `s`.
pub open spec fn trailing_newlines(s: Seq<char>) -> nat
    decreases s.len(),
{
    if s.len() > 0 && s.last() == '\n' {
        trailing_newlines(s.drop_last()) + 1
    } else {
        0
    }
}

/// The text of a PGN file's bytes, with invalid UTF-8 replaced by U+FFFD
/// and a leading byte-order mark removed, and the number of newlines it
/// ends with.
pub fn decode_pgn(raw: &[u8]) -> (r: (String, usize))
    ensures
        r.0@ == strip_bom(lossy_text(raw@)),
        r.1 == trailing_newlines(r.0@),
{
    let text = from_utf8_lossy(raw);
    let chars = crate::text::chars_of(text.as_str());
    let skip: usize = if chars.len() > 0 && chars[0] == '\u{feff}' {
        1
    } else {
        0
    };
    assert(skip == 1 ==> chars@.subrange(1, chars@.len() as int) =~= chars@.drop_first());
    assert(skip == 0 ==> chars@.subrange(0, chars@.len() as int) =~= chars@);
    let content = crate::text::string_of(&chars, skip, chars.len());
    let mut n: usize = 0;
    let total = chars.len();
    assert(content@.take(content@.len() as int) =~= content@);
    while n < total - skip && chars[total - 1 - n] == '\n'
        invariant
            skip <= total == chars.len(),
            n <= total - skip,
            content@ == chars@.subrange(skip as int, total as int),
            trailing_newlines(content@) == n + trailing_newlines(content@.take(content@.len() - n)),
        decreases total - skip - n,
    {
        let ghost t = content@.take(content@.len() - n);
        assert(t.drop_last() =~= content@.take(content@.len() - n - 1));
        assert(t.last() == chars@[total - 1 - n]);
        n = n + 1;
    }
    proof {
        let t = content@.take(content@.len() - n);
        assert(trailing_newlines(t) == 0);
    }
    (content, n)
}

// ---------------------------------------------------------------------------
// Output
// ---------------------------------------------------------------------------

/// Texts joined with a blank line (`"\n\n"`) between them.
pub open spec fn join_games(texts: Seq<Seq<char>>) -> Seq<char>
    decreases texts.len(),
{
    if texts.len() == 0 {
        Seq::empty()
    } else if texts.len() == 1 {
        texts[0]
    } else {
        join_games(texts.drop_last()) + seq!['\n', '\n'] + texts.last()
    }
}

/// `n` newlines.
pub open spec fn newlines(n: nat) -> Seq<char> {
    Seq::new(n, |i: int| '\n')
}

proof fn lemma_trailing_newlines_append(s: Seq<char>, k: nat)
    ensures
        trailing_newlines(s + newlines(k)) == trailing_newlines(s) + k,
    decreases k,
{
    if k == 0 {
        assert(s + newlines(0) =~= s);
    } else {
        lemma_trailing_newlines_append(s, (k - 1) as nat);
        let t = s + newlines(k);
        assert(t.drop_last() =~= s + newlines((k - 1) as nat));
        assert(t.last() == '\n');
    }
}

proof fn lemma_join_games_last(texts: Seq<Seq<char>>)
    requires
        texts.len() > 0,
        texts.last().len() > 0,
    ensures
        join_games(texts).len() > 0,
        join_games(texts).last() == texts.last().last(),
{
}

/// Output ends with as many newlines as the input did (at least one): the
/// games of any text, joined as `format_games` joins them and followed by
/// `max(n, 1)` newlines, end with exactly `max(n, 1)` newlines.
pub proof fn law_output_keeps_trailing_newlines(content: Seq<char>, n: nat)
    ensures
        ({
            let k = if n >= 1 {
                n
            } else {
                1nat
            };
            let texts = games_in(content).map_values(|g: GameView| g.0);
            trailing_newlines(join_games(texts) + newlines(k)) == k
        }),
{
    let k = if n >= 1 {
        n
    } else {
        1nat
    };
    let gs = games_in(content);
    let texts = gs.map_values(|g: GameView| g.0);
    lemma_trailing_newlines_append(join_games(texts), k);
    if texts.len() > 0 {
        law_game_texts_trimmed(content);
        assert(texts.last() == gs[gs.len() - 1].0);
        lemma_join_games_last(texts);
        assert(!crate::text::is_white(texts.last().last()));
    }
}

/// Format a list of games into a single string, separated by double
/// newlines, ending with the given number of newlines (minimum 1).
pub fn format_games(games: &[&PgnGame], trailing_newlines: usize) -> (out: String)
    ensures
        out@ == join_games(games@.map_values(|g: &PgnGame| g.raw@)) + newlines(
            if trailing_newlines >= 1 {
                trailing_newlines as nat
            } else {
                1nat
            },
        ),
{
    let ghost texts = games@.map_values(|g: &PgnGame| g.raw@);
    let mut output = String::new();
    let mut i: usize = 0;
    while i < games.len()
        invariant
            i <= games@.len(),
            texts == games@.map_values(|g: &PgnGame| g.raw@),
            i < games@.len() && i > 0 ==> output@ == join_games(texts.take(i as int)) + seq!['\n', '\n'],
            i == 0 ==> output@ == Seq::<char>::empty(),
            i == games@.len() ==> output@ == join_games(texts),
        decreases games@.len() - i,
    {
        let ghost before = output@;
        let game = games[i];
        assert(texts[i as int] == game.raw@);
        output.append(game.raw.as_str());
        let ghost part = texts.take(i + 1);
        assert(part.drop_last() =~= texts.take(i as int));
        assert(part.last() == game.raw@);
        assert(output@ =~= join_games(part));
        if i < games.len() - 1 {
            push_char(&mut output, '\n');
            push_char(&mut output, '\n');
            assert(output@ =~= join_games(part) + seq!['\n', '\n']);
        } else {
            assert(part =~= texts);
        }
        i = i + 1;
    }
    let n = if trailing_newlines >= 1 {
        trailing_newlines
    } else {
        1
    };
    let ghost body = output@;
    let mut k: usize = 0;
    while k < n
        invariant
            k <= n,
            output@ == body + newlines(k as nat),
        decreases n - k,
    {
        push_char(&mut output, '\n');
        assert(output@ =~= body + newlines((k + 1) as nat));
        k = k + 1;
    }
    output
}

} // verus!
