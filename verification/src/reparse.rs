//! Reading the output back: the games written by `format_games` parse as
//! the games they were made of.
use vstd::prelude::*;

use crate::text::{lemma_split_concat, lemma_split_on_len, lemma_split_on_without_sep, split_on, strip_cr, lines};
use crate::text::{is_blank, is_white, trim, trim_end, trim_start};
use crate::util::{join_games, newlines};
use crate::{
    block_game, block_text, blocks, game_date, games_in, join_lines, law_game_texts_trimmed,
    lemma_filter_map_push, opens_game, all_blocks_ok, games_ok, GameView,
};
use crate::date::{pgn_date_ok, pgn_timestamp};

verus! {

/// `s` holds no `c`.
pub open spec fn free_of(s: Seq<char>, c: char) -> bool {
    forall|i: int| 0 <= i < s.len() ==> s[i] != c
}

/// The newline-separated pieces of `s`.
pub open spec fn pieces(s: Seq<char>) -> Seq<Seq<char>> {
    split_on(s, '\n')
}

/// Splitting a text that starts with a given character.
proof fn lemma_split_cons(c: char, y: Seq<char>, sep: char)
    ensures
        split_on(seq![c] + y, sep).len() == split_on(y, sep).len() + (if c == sep {
            1int
        } else {
            0int
        }),
        c == sep ==> split_on(seq![c] + y, sep) == seq![Seq::<char>::empty()] + split_on(y, sep),
        c != sep ==> split_on(seq![c] + y, sep) == split_on(y, sep).update(
            0,
            seq![c] + split_on(y, sep)[0],
        ),
    decreases y.len(),
{
    lemma_split_on_len(y, sep);
    if c == sep {
        lemma_split_concat(Seq::<char>::empty(), y, sep);
        assert(Seq::<char>::empty() + seq![sep] + y =~= seq![c] + y);
        assert(split_on(Seq::<char>::empty(), sep) == seq![Seq::<char>::empty()]);
    } else if y.len() == 0 {
        let x = seq![c] + y;
        assert(x.drop_last() =~= Seq::<char>::empty());
        assert(seq![c] + Seq::<char>::empty() =~= seq![c]);
        assert(split_on(x.drop_last(), sep) == seq![Seq::<char>::empty()]);
        assert(Seq::<char>::empty().push(c) =~= seq![c]);
        assert(split_on(x, sep) =~= seq![seq![c]]);
        assert(split_on(y, sep).update(0, seq![c] + split_on(y, sep)[0]) =~= seq![seq![c]]);
    } else {
        let x = seq![c] + y;
        let y0 = y.drop_last();
        lemma_split_cons(c, y0, sep);
        lemma_split_on_len(y0, sep);
        assert(x.drop_last() =~= seq![c] + y0);
        assert(x.last() == y.last());
        let q = split_on(y0, sep);
        if y.last() == sep {
            assert(q.update(0, seq![c] + q[0]).push(Seq::<char>::empty()) =~= q.push(
                Seq::<char>::empty(),
            ).update(0, seq![c] + q.push(Seq::<char>::empty())[0]));
        } else {
            let r = q.update(0, seq![c] + q[0]);
            if q.len() == 1 {
                assert(r.update(r.len() - 1, r.last().push(y.last())) =~= q.update(
                    q.len() - 1,
                    q.last().push(y.last()),
                ).update(0, seq![c] + q.update(q.len() - 1, q.last().push(y.last()))[0]));
            } else {
                assert(r.update(r.len() - 1, r.last().push(y.last())) =~= q.update(
                    q.len() - 1,
                    q.last().push(y.last()),
                ).update(0, seq![c] + q.update(q.len() - 1, q.last().push(y.last()))[0]));
            }
        }
    }
}

/// No piece holds the separator, nor a character the text does not hold.
proof fn lemma_pieces_free(s: Seq<char>, sep: char, c: char)
    ensures
        forall|k: int|
            0 <= k < split_on(s, sep).len() ==> free_of(#[trigger] split_on(s, sep)[k], sep),
        free_of(s, c) ==> forall|k: int|
            0 <= k < split_on(s, sep).len() ==> free_of(#[trigger] split_on(s, sep)[k], c),
    decreases s.len(),
{
    lemma_split_on_len(s, sep);
    if s.len() > 0 {
        lemma_pieces_free(s.drop_last(), sep, c);
        lemma_split_on_len(s.drop_last(), sep);
        let q = split_on(s.drop_last(), sep);
        assert(free_of(s, c) ==> free_of(s.drop_last(), c));
        if s.last() != sep {
            let l = q.last().push(s.last());
            assert(free_of(q[q.len() - 1], sep));
            assert(free_of(l, sep));
            if free_of(s, c) {
                assert(free_of(q[q.len() - 1], c));
                assert(free_of(l, c));
            }
        }
    }
}

/// Joining the pieces of a text gives the text back.
proof fn lemma_join_pieces(s: Seq<char>)
    ensures
        join_lines(pieces(s)) == s,
    decreases s.len(),
{
    lemma_split_on_len(s, '\n');
    if s.len() > 0 {
        let s0 = s.drop_last();
        lemma_join_pieces(s0);
        lemma_split_on_len(s0, '\n');
        let q = pieces(s0);
        if s.last() == '\n' {
            let p = q.push(Seq::<char>::empty());
            assert(p.drop_last() =~= q);
            assert(join_lines(p) =~= s);
        } else {
            let p = q.update(q.len() - 1, q.last().push(s.last()));
            if q.len() == 1 {
                assert(join_lines(p) =~= s);
            } else {
                assert(p.drop_last() =~= q.drop_last());
                assert(join_lines(q) == join_lines(q.drop_last()) + seq!['\n'] + q.last());
                assert(join_lines(p) == join_lines(q.drop_last()) + seq!['\n'] + q.last().push(
                    s.last(),
                ));
                assert(join_lines(p) =~= s0.push(s.last()));
                assert(s0.push(s.last()) =~= s);
            }
        }
    }
}

/// Splitting a join of separator-free lines gives the lines back.
proof fn lemma_pieces_of_join(ls: Seq<Seq<char>>)
    requires
        ls.len() >= 1,
        forall|k: int| 0 <= k < ls.len() ==> free_of(#[trigger] ls[k], '\n'),
    ensures
        pieces(join_lines(ls)) == ls,
    decreases ls.len(),
{
    if ls.len() == 1 {
        lemma_split_on_without_sep(ls[0], '\n');
        assert(seq![ls[0]] =~= ls);
    } else {
        let l0 = ls.drop_last();
        assert forall|k: int| 0 <= k < l0.len() implies free_of(#[trigger] l0[k], '\n') by {
            assert(l0[k] == ls[k]);
        }
        lemma_pieces_of_join(l0);
        lemma_split_concat(join_lines(l0), ls.last(), '\n');
        lemma_split_on_without_sep(ls.last(), '\n');
        assert(l0 + seq![ls.last()] =~= ls);
    }
}

/// The lines of a text without carriage returns are its pieces, less a
/// final empty piece after a closing newline.
proof fn lemma_lines_plain(s: Seq<char>)
    requires
        free_of(s, '\r'),
    ensures
        lines(s) == (if s.len() == 0 {
            Seq::<Seq<char>>::empty()
        } else if s.last() == '\n' {
            pieces(s).drop_last()
        } else {
            pieces(s)
        }),
{
    lemma_pieces_free(s, '\n', '\r');
    lemma_split_on_len(s, '\n');
    let p = pieces(s);
    assert(p.drop_last().map_values(|l: Seq<char>| strip_cr(l)) =~= p.drop_last()) by {
        assert forall|k: int| 0 <= k < p.drop_last().len() implies strip_cr(p.drop_last()[k])
            == p.drop_last()[k] by {
            assert(p.drop_last()[k] == p[k]);
            assert(free_of(p[k], '\r'));
        }
    }
    if s.len() > 0 && s.last() != '\n' {
        assert(p.drop_last().push(p.last()) =~= p);
    }
}

/// A line that would open a game: it starts with `[`.
pub open spec fn bracket_line(l: Seq<char>) -> bool {
    l.len() > 0 && l[0] == '['
}

/// No line after the first opens a game: none starts with `[` right after
/// a blank line.
pub open spec fn no_inner_open(ls: Seq<Seq<char>>) -> bool {
    forall|j: int| 1 <= j < ls.len() ==> !(bracket_line(#[trigger] ls[j]) && is_blank(ls[j - 1]))
}

proof fn lemma_blocks_single(x: Seq<Seq<char>>)
    requires
        no_inner_open(x),
    ensures
        blocks(x) == seq![x],
    decreases x.len(),
{
    if x.len() > 0 {
        let x0 = x.drop_last();
        assert forall|j: int| 1 <= j < x0.len() implies !(bracket_line(#[trigger] x0[j])
            && is_blank(x0[j - 1])) by {
            assert(x0[j] == x[j] && x0[j - 1] == x[j - 1]);
        }
        lemma_blocks_single(x0);
        if x.len() >= 2 {
            assert(!(bracket_line(x[x.len() - 1]) && is_blank(x[x.len() - 2])));
        }
        assert(!opens_game(x));
        assert(x0.push(x.last()) =~= x);
    } else {
        assert(x =~= Seq::<Seq<char>>::empty());
    }
}

/// Blocks of two runs of lines, the second opening a game after the
/// first, are the blocks of each.
proof fn lemma_blocks_concat(a: Seq<Seq<char>>, b: Seq<Seq<char>>)
    requires
        a.len() >= 1,
        is_blank(a.last()),
        b.len() >= 1,
        bracket_line(b[0]),
    ensures
        blocks(a + b) == blocks(a) + blocks(b),
    decreases b.len(),
{
    let x = a + b;
    crate::lemma_blocks_len(a);
    if b.len() == 1 {
        assert(x.drop_last() =~= a);
        assert(x[x.len() - 2] == a.last());
        assert(opens_game(x));
        assert(b.drop_last() =~= Seq::<Seq<char>>::empty());
        assert(!opens_game(b));
        assert(blocks(b.drop_last()) == seq![Seq::<Seq<char>>::empty()]);
        assert(Seq::<Seq<char>>::empty().push(b.last()) =~= seq![b[0]]);
        assert(blocks(b) =~= seq![seq![b[0]]]);
        assert(blocks(a).push(seq![x.last()]) =~= blocks(a) + blocks(b));
    } else {
        let b0 = b.drop_last();
        lemma_blocks_concat(a, b0);
        crate::lemma_blocks_len(b0);
        assert(x.drop_last() =~= a + b0);
        assert(x.last() == b.last());
        assert(x[x.len() - 2] == b[b.len() - 2]);
        assert(opens_game(x) == opens_game(b));
        let p = blocks(a);
        let q = blocks(b0);
        if opens_game(b) {
            assert((p + q).push(seq![b.last()]) =~= p + q.push(seq![b.last()]));
        } else {
            assert((p + q).update((p + q).len() - 1, (p + q).last().push(b.last())) =~= p
                + q.update(q.len() - 1, q.last().push(b.last())));
        }
    }
}

/// Lines free of newlines and carriage returns.
pub open spec fn plain_lines(ls: Seq<Seq<char>>) -> bool {
    forall|k: int| 0 <= k < ls.len() ==> free_of(#[trigger] ls[k], '\n') && free_of(ls[k], '\r')
}

/// The shape of game blocks: no line after the first opens a game, every
/// block after the first starts with a `[` line, the last block ends with
/// the last line, and plain lines stay plain.
proof fn lemma_blocks_shape(ls: Seq<Seq<char>>)
    ensures
        forall|t: int| 0 <= t < blocks(ls).len() ==> no_inner_open(#[trigger] blocks(ls)[t]),
        forall|t: int|
            1 <= t < blocks(ls).len() ==> (#[trigger] blocks(ls)[t]).len() >= 1 && bracket_line(
                blocks(ls)[t][0],
            ),
        ls.len() >= 1 ==> blocks(ls).last().len() >= 1 && blocks(ls).last().last() == ls.last(),
        plain_lines(ls) ==> forall|t: int|
            0 <= t < blocks(ls).len() ==> plain_lines(#[trigger] blocks(ls)[t]),
    decreases ls.len(),
{
    crate::lemma_blocks_len(ls);
    if ls.len() > 0 {
        let l0 = ls.drop_last();
        lemma_blocks_shape(l0);
        crate::lemma_blocks_len(l0);
        let p = blocks(l0);
        let x = ls.last();
        assert(plain_lines(ls) ==> plain_lines(l0)) by {
            if plain_lines(ls) {
                assert forall|k: int| 0 <= k < l0.len() implies free_of(#[trigger] l0[k], '\n')
                    && free_of(l0[k], '\r') by {
                    assert(l0[k] == ls[k]);
                }
            }
        }
        assert(plain_lines(ls) ==> free_of(x, '\n') && free_of(x, '\r')) by {
            if plain_lines(ls) {
                assert(ls[ls.len() - 1] == x);
            }
        }
        if opens_game(ls) {
            let n = p.push(seq![x]);
            assert forall|t: int| 0 <= t < n.len() implies no_inner_open(#[trigger] n[t]) by {
                if t < p.len() {
                    assert(n[t] == p[t]);
                }
            }
            assert forall|t: int| 1 <= t < n.len() implies (#[trigger] n[t]).len() >= 1
                && bracket_line(n[t][0]) by {
                if t < p.len() {
                    assert(n[t] == p[t]);
                }
            }
            assert(plain_lines(ls) ==> forall|t: int|
                0 <= t < n.len() ==> plain_lines(#[trigger] n[t])) by {
                if plain_lines(ls) {
                    assert forall|t: int| 0 <= t < n.len() implies plain_lines(#[trigger] n[t]) by {
                        if t < p.len() {
                            assert(n[t] == p[t]);
                        }
                    }
                }
            }
        } else {
            let last = p.last().push(x);
            let n = p.update(p.len() - 1, last);
            assert(no_inner_open(last)) by {
                assert forall|j: int| 1 <= j < last.len() implies !(bracket_line(#[trigger] last[j])
                    && is_blank(last[j - 1])) by {
                    if j == last.len() - 1 {
                        assert(l0.len() >= 1);
                        assert(last[j - 1] == l0.last());
                        assert(ls[ls.len() - 2] == l0.last());
                    } else {
                        assert(last[j] == p.last()[j] && last[j - 1] == p.last()[j - 1]);
                        assert(p.last() == p[p.len() - 1]);
                    }
                }
            }
            assert forall|t: int| 0 <= t < n.len() implies no_inner_open(#[trigger] n[t]) by {
                if t < p.len() - 1 {
                    assert(n[t] == p[t]);
                }
            }
            assert forall|t: int| 1 <= t < n.len() implies (#[trigger] n[t]).len() >= 1
                && bracket_line(n[t][0]) by {
                if t < p.len() - 1 {
                    assert(n[t] == p[t]);
                } else {
                    assert(p[t] == p.last());
                    assert(n[t][0] == p[t][0]);
                }
            }
            assert(plain_lines(ls) ==> forall|t: int|
                0 <= t < n.len() ==> plain_lines(#[trigger] n[t])) by {
                if plain_lines(ls) {
                    assert(plain_lines(p[p.len() - 1]));
                    assert forall|t: int| 0 <= t < n.len() implies plain_lines(#[trigger] n[t]) by {
                        if t < p.len() - 1 {
                            assert(n[t] == p[t]);
                        } else {
                            assert forall|k: int| 0 <= k < last.len() implies free_of(
                                #[trigger] last[k],
                                '\n',
                            ) && free_of(last[k], '\r') by {
                                if k < last.len() - 1 {
                                    assert(last[k] == p[p.len() - 1][k]);
                                }
                            }
                        }
                    }
                }
            }
        }
    }
}

proof fn lemma_blank_after_white(c: char, l: Seq<char>)
    requires
        is_white(c),
    ensures
        is_blank(seq![c] + l) == is_blank(l),
{
    assert((seq![c] + l).drop_first() =~= l);
    assert(trim_start(seq![c] + l) == trim_start(l));
}

/// Trimming at the start keeps a text free of carriage returns and of
/// inner game openings.
proof fn lemma_trim_start_keeps(x: Seq<char>)
    ensures
        no_inner_open(pieces(x)) ==> no_inner_open(pieces(trim_start(x))),
        free_of(x, '\r') ==> free_of(trim_start(x), '\r'),
    decreases x.len(),
{
    if x.len() > 0 && is_white(x[0]) {
        let y = x.drop_first();
        assert(x =~= seq![x[0]] + y);
        lemma_split_cons(x[0], y, '\n');
        lemma_split_on_len(y, '\n');
        let px = pieces(x);
        let py = pieces(y);
        if no_inner_open(px) {
            assert forall|j: int| 1 <= j < py.len() implies !(bracket_line(#[trigger] py[j])
                && is_blank(py[j - 1])) by {
                if x[0] == '\n' {
                    assert(py[j] == px[j + 1] && py[j - 1] == px[j]);
                } else {
                    assert(py[j] == px[j]);
                    if j == 1 {
                        lemma_blank_after_white(x[0], py[0]);
                    } else {
                        assert(py[j - 1] == px[j - 1]);
                    }
                }
            }
        }
        assert(free_of(x, '\r') ==> free_of(y, '\r')) by {
            if free_of(x, '\r') {
                assert forall|i: int| 0 <= i < y.len() implies y[i] != '\r' by {
                    assert(y[i] == x[i + 1]);
                }
            }
        }
        lemma_trim_start_keeps(y);
    }
}

/// Trimming at the end keeps a text free of carriage returns and of inner
/// game openings.
proof fn lemma_trim_end_keeps(x: Seq<char>)
    ensures
        no_inner_open(pieces(x)) ==> no_inner_open(pieces(trim_end(x))),
        free_of(x, '\r') ==> free_of(trim_end(x), '\r'),
    decreases x.len(),
{
    if x.len() > 0 && is_white(x.last()) {
        let y = x.drop_last();
        lemma_split_on_len(y, '\n');
        let px = pieces(x);
        let py = pieces(y);
        if no_inner_open(px) {
            assert forall|j: int| 1 <= j < py.len() implies !(bracket_line(#[trigger] py[j])
                && is_blank(py[j - 1])) by {
                assert(py[j - 1] == px[j - 1]);
                if x.last() == '\n' || j < py.len() - 1 {
                    assert(py[j] == px[j]);
                } else {
                    assert(px[j] == py[j].push(x.last()));
                    if bracket_line(py[j]) {
                        assert(px[j][0] == py[j][0]);
                    }
                }
            }
        }
        lemma_trim_end_keeps(y);
    }
}

/// Trimming keeps a text free of carriage returns and of inner openings.
proof fn lemma_trim_keeps(x: Seq<char>)
    ensures
        no_inner_open(pieces(x)) ==> no_inner_open(pieces(trim(x))),
        free_of(x, '\r') ==> free_of(trim(x), '\r'),
{
    lemma_trim_start_keeps(x);
    lemma_trim_end_keeps(trim_start(x));
}

/// A text starting with a non-whitespace character keeps it when trimmed.
proof fn lemma_trim_keeps_first(x: Seq<char>)
    requires
        x.len() > 0,
        !is_white(x[0]),
    ensures
        trim(x).len() > 0,
        trim(x)[0] == x[0],
{
    assert(trim_start(x) == x);
    lemma_trim_end_first(x);
}

proof fn lemma_trim_end_first(x: Seq<char>)
    requires
        x.len() > 0,
        !is_white(x[0]),
    ensures
        trim_end(x).len() > 0,
        trim_end(x)[0] == x[0],
    decreases x.len(),
{
    if is_white(x.last()) {
        assert(x.len() >= 2);
        assert(x.drop_last()[0] == x[0]);
        lemma_trim_end_first(x.drop_last());
    }
}

/// A join of lines starts with the first line.
proof fn lemma_join_first(b: Seq<Seq<char>>)
    requires
        b.len() >= 1,
        b[0].len() >= 1,
    ensures
        join_lines(b).len() >= 1,
        join_lines(b)[0] == b[0][0],
    decreases b.len(),
{
    if b.len() > 1 {
        assert(b.drop_last()[0] == b[0]);
        lemma_join_first(b.drop_last());
    }
}

/// A join of lines without carriage returns has none.
proof fn lemma_join_free(b: Seq<Seq<char>>)
    requires
        plain_lines(b),
    ensures
        free_of(join_lines(b), '\r'),
    decreases b.len(),
{
    if b.len() > 1 {
        let b0 = b.drop_last();
        assert forall|k: int| 0 <= k < b0.len() implies free_of(#[trigger] b0[k], '\n') && free_of(
            b0[k],
            '\r',
        ) by {
            assert(b0[k] == b[k]);
        }
        lemma_join_free(b0);
        assert(free_of(b[b.len() - 1], '\r'));
    } else if b.len() == 1 {
        assert(free_of(b[0], '\r'));
    }
}

/// The texts of the games of a PGN text.
pub open spec fn game_texts(content: Seq<char>) -> Seq<Seq<char>> {
    games_in(content).map_values(|g: GameView| g.0)
}

/// `j` empty lines.
pub open spec fn empties(j: nat) -> Seq<Seq<char>> {
    Seq::new(j, |i: int| Seq::<char>::empty())
}

/// The game a text stands for: the text, its Date value and timestamp.
pub open spec fn game_of_text(r: Seq<char>) -> GameView {
    (r, game_date(r), pgn_timestamp(game_date(r)))
}

/// The pieces of the games joined with blank lines.
pub open spec fn out_lines(texts: Seq<Seq<char>>) -> Seq<Seq<char>>
    decreases texts.len(),
{
    if texts.len() <= 1 {
        pieces(texts[0])
    } else {
        out_lines(texts.drop_last()) + seq![Seq::<char>::empty()] + pieces(texts.last())
    }
}

/// The blocks the output of these texts falls into, the last one followed
/// by `j` empty lines.
pub open spec fn out_blocks(texts: Seq<Seq<char>>, j: nat) -> Seq<Seq<Seq<char>>>
    decreases texts.len(),
{
    if texts.len() <= 1 {
        seq![pieces(texts[0]) + empties(j)]
    } else {
        out_blocks(texts.drop_last(), 1) + seq![pieces(texts.last()) + empties(j)]
    }
}

/// What makes a game text read back as itself: it is non-empty, starts and
/// ends with non-whitespace, holds no carriage return, no line after its
/// first opens a game, and, after the first game, its first line does.
pub open spec fn rereadable(texts: Seq<Seq<char>>) -> bool {
    forall|i: int|
        0 <= i < texts.len() ==> {
            let r = #[trigger] texts[i];
            &&& r.len() > 0
            &&& !is_white(r[0])
            &&& !is_white(r.last())
            &&& free_of(r, '\r')
            &&& no_inner_open(pieces(r))
            &&& (i >= 1 ==> bracket_line(pieces(r)[0]))
        }
}

proof fn lemma_pieces_newlines(m: nat)
    ensures
        pieces(newlines(m)) == empties(m + 1),
    decreases m,
{
    if m == 0 {
        assert(newlines(0) =~= Seq::<char>::empty());
        assert(pieces(Seq::<char>::empty()) =~= empties(1));
    } else {
        lemma_pieces_newlines((m - 1) as nat);
        assert(newlines(m).drop_last() =~= newlines((m - 1) as nat));
        assert(empties(m as nat).push(Seq::<char>::empty()) =~= empties(m + 1));
    }
}

proof fn lemma_join_games_free(texts: Seq<Seq<char>>)
    requires
        forall|i: int| 0 <= i < texts.len() ==> free_of(#[trigger] texts[i], '\r'),
    ensures
        free_of(join_games(texts), '\r'),
    decreases texts.len(),
{
    if texts.len() > 1 {
        let t0 = texts.drop_last();
        assert forall|i: int| 0 <= i < t0.len() implies free_of(#[trigger] t0[i], '\r') by {
            assert(t0[i] == texts[i]);
        }
        lemma_join_games_free(t0);
        assert(free_of(texts[texts.len() - 1], '\r'));
    } else if texts.len() == 1 {
        assert(free_of(texts[0], '\r'));
    }
}

proof fn lemma_pieces_join_games(texts: Seq<Seq<char>>)
    requires
        texts.len() >= 1,
    ensures
        pieces(join_games(texts)) == out_lines(texts),
    decreases texts.len(),
{
    if texts.len() > 1 {
        let t0 = texts.drop_last();
        lemma_pieces_join_games(t0);
        let a = join_games(t0);
        let r = texts.last();
        assert(join_games(texts) =~= a + seq!['\n'] + (seq!['\n'] + r));
        lemma_split_concat(a, seq!['\n'] + r, '\n');
        lemma_split_cons('\n', r, '\n');
        assert(out_lines(t0) + (seq![Seq::<char>::empty()] + pieces(r)) =~= out_lines(t0) + seq![
            Seq::<char>::empty(),
        ] + pieces(r));
    }
}

/// The lines of the output: the games' pieces with an empty line between
/// them, then `m - 1` empty lines.
proof fn lemma_out_lines(texts: Seq<Seq<char>>, m: nat)
    requires
        m >= 1,
        texts.len() >= 1,
        forall|i: int| 0 <= i < texts.len() ==> free_of(#[trigger] texts[i], '\r'),
    ensures
        lines(join_games(texts) + newlines(m)) == out_lines(texts) + empties((m - 1) as nat),
{
    let a = join_games(texts);
    let t = a + newlines(m);
    lemma_join_games_free(texts);
    assert(free_of(t, '\r')) by {
        assert forall|i: int| 0 <= i < t.len() implies t[i] != '\r' by {
            if i >= a.len() {
                assert(t[i] == '\n');
            }
        }
    }
    lemma_lines_plain(t);
    assert(t =~= a + seq!['\n'] + newlines((m - 1) as nat));
    lemma_split_concat(a, newlines((m - 1) as nat), '\n');
    lemma_pieces_newlines((m - 1) as nat);
    lemma_pieces_join_games(texts);
    assert(t.last() == '\n');
    assert((out_lines(texts) + empties(m)).drop_last() =~= out_lines(texts) + empties(
        (m - 1) as nat,
    ));
}

proof fn lemma_no_inner_open_empties(l: Seq<Seq<char>>, j: nat)
    requires
        no_inner_open(l),
    ensures
        no_inner_open(l + empties(j)),
{
    let x = l + empties(j);
    assert forall|k: int| 1 <= k < x.len() implies !(bracket_line(#[trigger] x[k]) && is_blank(
        x[k - 1],
    )) by {
        if k < l.len() {
            assert(x[k] == l[k] && x[k - 1] == l[k - 1]);
        } else {
            assert(x[k] == Seq::<char>::empty());
        }
    }
}

proof fn lemma_out_lines_len(texts: Seq<Seq<char>>)
    requires
        texts.len() >= 1,
    ensures
        out_lines(texts).len() >= 1,
    decreases texts.len(),
{
    lemma_split_on_len(texts.last(), '\n');
    lemma_split_on_len(texts[0], '\n');
    if texts.len() > 1 {
        lemma_out_lines_len(texts.drop_last());
    }
}

/// The output's lines fall into one block per game.
proof fn lemma_out_blocks(texts: Seq<Seq<char>>, j: nat)
    requires
        texts.len() >= 1,
        rereadable(texts),
    ensures
        blocks(out_lines(texts) + empties(j)) == out_blocks(texts, j),
    decreases texts.len(),
{
    let r = texts.last();
    assert(rereadable(texts) ==> no_inner_open(pieces(texts[texts.len() - 1])));
    lemma_split_on_len(r, '\n');
    if texts.len() == 1 {
        assert(r == texts[0]);
        lemma_no_inner_open_empties(pieces(r), j);
        lemma_blocks_single(pieces(r) + empties(j));
    } else {
        let t0 = texts.drop_last();
        assert(rereadable(t0)) by {
            assert forall|i: int| 0 <= i < t0.len() implies {
                let r = #[trigger] t0[i];
                &&& r.len() > 0
                &&& !is_white(r[0])
                &&& !is_white(r.last())
                &&& free_of(r, '\r')
                &&& no_inner_open(pieces(r))
                &&& (i >= 1 ==> bracket_line(pieces(r)[0]))
            } by {
                assert(t0[i] == texts[i]);
            }
        }
        lemma_out_blocks(t0, 1);
        lemma_out_lines_len(t0);
        let a = out_lines(t0) + empties(1);
        let b = pieces(r) + empties(j);
        assert(out_lines(texts) + empties(j) =~= a + b);
        assert(a.last() == Seq::<char>::empty());
        assert(trim(Seq::<char>::empty()).len() == 0);
        assert(out_lines(t0) + seq![Seq::<char>::empty()] =~= a);
        assert(bracket_line(pieces(texts[texts.len() - 1])[0]));
        assert(b[0] == pieces(r)[0]);
        lemma_blocks_concat(a, b);
        lemma_no_inner_open_empties(pieces(r), j);
        lemma_blocks_single(b);
    }
}

proof fn lemma_join_empties(l: Seq<Seq<char>>, j: nat)
    requires
        l.len() >= 1,
    ensures
        join_lines(l + empties(j)) == join_lines(l) + newlines(j),
    decreases j,
{
    if j == 0 {
        assert(l + empties(0) =~= l);
        assert(join_lines(l) + newlines(0) =~= join_lines(l));
    } else {
        lemma_join_empties(l, (j - 1) as nat);
        let x = l + empties(j);
        assert(x.drop_last() =~= l + empties((j - 1) as nat));
        assert(x.last() == Seq::<char>::empty());
        assert(join_lines(x) =~= join_lines(l) + newlines(j));
    }
}

proof fn lemma_trim_end_newlines(r: Seq<char>, j: nat)
    requires
        r.len() > 0,
        !is_white(r.last()),
    ensures
        trim_end(r + newlines(j)) == r,
    decreases j,
{
    if j == 0 {
        assert(r + newlines(0) =~= r);
    } else {
        lemma_trim_end_newlines(r, (j - 1) as nat);
        let x = r + newlines(j);
        assert(x.drop_last() =~= r + newlines((j - 1) as nat));
        assert(x.last() == '\n');
    }
}

proof fn lemma_trim_start_newlines(j: nat)
    ensures
        trim_start(newlines(j)).len() == 0,
    decreases j,
{
    if j > 0 {
        lemma_trim_start_newlines((j - 1) as nat);
        assert(newlines(j).drop_first() =~= newlines((j - 1) as nat));
    }
}

/// A game text followed by empty lines is a block holding that game.
proof fn lemma_block_of_text(r: Seq<char>, j: nat)
    requires
        r.len() > 0,
        !is_white(r[0]),
        !is_white(r.last()),
    ensures
        block_game(pieces(r) + empties(j)) == Some(game_of_text(r)),
{
    lemma_split_on_len(r, '\n');
    lemma_join_empties(pieces(r), j);
    lemma_join_pieces(r);
    let x = r + newlines(j);
    assert(x[0] == r[0]);
    assert(trim_start(x) == x);
    lemma_trim_end_newlines(r, j);
    assert(block_text(pieces(r) + empties(j)) == r);
}

/// The games of the output blocks are the games the texts stand for.
proof fn lemma_out_games(texts: Seq<Seq<char>>, j: nat)
    requires
        texts.len() >= 1,
        rereadable(texts),
    ensures
        out_blocks(texts, j).filter_map(|b: Seq<Seq<char>>| block_game(b)) == texts.map_values(
            |r: Seq<char>| game_of_text(r),
        ),
        (forall|i: int| 0 <= i < texts.len() ==> pgn_date_ok(game_date(#[trigger] texts[i])))
            ==> all_blocks_ok(out_blocks(texts, j)),
    decreases texts.len(),
{
    let r = texts.last();
    assert(r == texts[texts.len() - 1]);
    lemma_block_of_text(r, j);
    if texts.len() == 1 {
        lemma_filter_map_push(Seq::<Seq<Seq<char>>>::empty(), pieces(r) + empties(j));
        assert(Seq::<Seq<Seq<char>>>::empty().push(pieces(r) + empties(j)) =~= out_blocks(
            texts,
            j,
        ));
        assert(Seq::<Seq<Seq<char>>>::empty().filter_map(|b: Seq<Seq<char>>| block_game(b))
            =~= Seq::<GameView>::empty());
        assert(texts.map_values(|r: Seq<char>| game_of_text(r)) =~= seq![game_of_text(r)]);
        assert(block_text(pieces(r) + empties(j)) == r);
    } else {
        let t0 = texts.drop_last();
        assert(rereadable(t0)) by {
            assert forall|i: int| 0 <= i < t0.len() implies {
                let r = #[trigger] t0[i];
                &&& r.len() > 0
                &&& !is_white(r[0])
                &&& !is_white(r.last())
                &&& free_of(r, '\r')
                &&& no_inner_open(pieces(r))
                &&& (i >= 1 ==> bracket_line(pieces(r)[0]))
            } by {
                assert(t0[i] == texts[i]);
            }
        }
        lemma_out_games(t0, 1);
        let ob = out_blocks(t0, 1);
        assert(out_blocks(texts, j) =~= ob.push(pieces(r) + empties(j)));
        lemma_filter_map_push(ob, pieces(r) + empties(j));
        assert(texts.map_values(|r: Seq<char>| game_of_text(r)) =~= t0.map_values(
            |r: Seq<char>| game_of_text(r),
        ).push(game_of_text(r)));
        if forall|i: int| 0 <= i < texts.len() ==> pgn_date_ok(game_date(#[trigger] texts[i])) {
            assert forall|i: int| 0 <= i < t0.len() implies pgn_date_ok(
                game_date(#[trigger] t0[i]),
            ) by {
                assert(t0[i] == texts[i]);
            }
            let n = out_blocks(texts, j);
            assert forall|k: int| 0 <= k < n.len() implies crate::block_ok(#[trigger] n[k]) by {
                if k < ob.len() {
                    assert(n[k] == ob[k]);
                } else {
                    assert(block_text(n[k]) == r);
                }
            }
        }
    }
}

/// Where a game comes from: the `i`-th game stems from a block at index
/// `i` or later.
proof fn lemma_game_origin(s: Seq<Seq<Seq<char>>>, i: int) -> (t: int)
    requires
        0 <= i < s.filter_map(|b: Seq<Seq<char>>| block_game(b)).len(),
    ensures
        i <= t < s.len(),
        block_game(s[t]) == Some(s.filter_map(|b: Seq<Seq<char>>| block_game(b))[i]),
    decreases s.len(),
{
    let f = s.filter_map(|b: Seq<Seq<char>>| block_game(b));
    let s0 = s.drop_last();
    let f0 = s0.filter_map(|b: Seq<Seq<char>>| block_game(b));
    assert(s.len() > 0);
    assert(s0.push(s.last()) =~= s);
    lemma_filter_map_push(s0, s.last());
    lemma_filter_map_len(s0);
    if i < f0.len() {
        let t = lemma_game_origin(s0, i);
        assert(s[t] == s0[t]);
        assert(f[i] == f0[i]);
        t
    } else {
        s.len() - 1
    }
}

proof fn lemma_filter_map_len(s: Seq<Seq<Seq<char>>>)
    ensures
        s.filter_map(|b: Seq<Seq<char>>| block_game(b)).len() <= s.len(),
    decreases s.len(),
{
    if s.len() > 0 {
        let s0 = s.drop_last();
        assert(s0.push(s.last()) =~= s);
        lemma_filter_map_push(s0, s.last());
        lemma_filter_map_len(s0);
    }
}

/// Every game text of a text without carriage returns reads back as itself.
proof fn lemma_texts_rereadable(content: Seq<char>)
    requires
        free_of(content, '\r'),
    ensures
        rereadable(games_in(content).map_values(|g: GameView| g.0)),
        games_ok(content) ==> forall|i: int|
            0 <= i < game_texts(content).len() ==> pgn_date_ok(
                game_date(#[trigger] game_texts(content)[i]),
            ),
        games_in(content) == games_in(content).map_values(|g: GameView| g.0).map_values(
            |r: Seq<char>| game_of_text(r),
        ),
{
    let gs = games_in(content);
    let texts = gs.map_values(|g: GameView| g.0);
    let ls = lines(content);
    let bs = blocks(ls);
    law_game_texts_trimmed(content);
    lemma_lines_plain(content);
    lemma_pieces_free(content, '\n', '\r');
    lemma_split_on_len(content, '\n');
    assert(plain_lines(ls)) by {
        let p = pieces(content);
        assert forall|k: int| 0 <= k < ls.len() implies free_of(#[trigger] ls[k], '\n') && free_of(
            ls[k],
            '\r',
        ) by {
            assert(ls[k] == p[k]);
        }
    }
    lemma_blocks_shape(ls);
    assert forall|i: int| 0 <= i < texts.len() implies {
        let r = #[trigger] texts[i];
        &&& r.len() > 0
        &&& !is_white(r[0])
        &&& !is_white(r.last())
        &&& free_of(r, '\r')
        &&& no_inner_open(pieces(r))
        &&& (i >= 1 ==> bracket_line(pieces(r)[0]))
    } by {
        let t = lemma_game_origin(bs, i);
        let b = bs[t];
        let r = texts[i];
        assert(r == gs[i].0);
        assert(r == trim(join_lines(b)));
        if b.len() == 0 {
            assert(join_lines(b).len() == 0);
            assert(trim(join_lines(b)) =~= join_lines(b));
        }
        assert(plain_lines(b));
        lemma_pieces_of_join(b);
        lemma_join_free(b);
        lemma_trim_keeps(join_lines(b));
        if i >= 1 {
            lemma_join_first(b);
            lemma_trim_keeps_first(join_lines(b));
            assert(r[0] == '[');
            assert(r =~= seq![r[0]] + r.drop_first());
            lemma_split_cons(r[0], r.drop_first(), '\n');
            lemma_split_on_len(r.drop_first(), '\n');
        }
    }
    assert forall|i: int| 0 <= i < gs.len() implies gs[i] == game_of_text(
        #[trigger] texts[i],
    ) by {
        let t = lemma_game_origin(bs, i);
    }
    if games_ok(content) {
        assert forall|i: int| 0 <= i < gs.len() implies pgn_date_ok(
            game_date(#[trigger] texts[i]),
        ) by {
            let t = lemma_game_origin(bs, i);
            assert(crate::block_ok(bs[t]));
        }
    }
    assert(gs =~= texts.map_values(|r: Seq<char>| game_of_text(r)));
}

/// Output reads back: for a text without carriage returns, the games that
/// `format_games` writes of its games (joined with blank lines and followed
/// by at least one newline) parse as those same games, with the same text,
/// Date value and timestamp.
pub proof fn law_output_reads_back(content: Seq<char>, m: nat)
    requires
        free_of(content, '\r'),
        m >= 1,
    ensures
        games_in(join_games(game_texts(content)) + newlines(m)) == games_in(content),
        games_ok(content) ==> games_ok(join_games(game_texts(content)) + newlines(m)),
{
    let gs = games_in(content);
    let texts = gs.map_values(|g: GameView| g.0);
    lemma_texts_rereadable(content);
    let out = join_games(texts) + newlines(m);
    if texts.len() == 0 {
        assert(join_games(texts) =~= Seq::<char>::empty());
        assert(out =~= newlines(m));
        assert(free_of(out, '\r'));
        lemma_lines_plain(out);
        lemma_pieces_newlines(m);
        assert(out.last() == '\n');
        assert(empties(m + 1).drop_last() =~= empties(m));
        let e = empties(m);
        assert(no_inner_open(e)) by {
            assert forall|j: int| 1 <= j < e.len() implies !(bracket_line(#[trigger] e[j])
                && is_blank(e[j - 1])) by {
                assert(e[j] == Seq::<char>::empty());
            }
        }
        lemma_blocks_single(e);
        assert(seq![Seq::<char>::empty()] + empties((m - 1) as nat) =~= e);
        lemma_join_empties(seq![Seq::<char>::empty()], (m - 1) as nat);
        assert(join_lines(seq![Seq::<char>::empty()]) == Seq::<char>::empty());
        assert(Seq::<char>::empty() + newlines((m - 1) as nat) =~= newlines((m - 1) as nat));
        lemma_trim_start_newlines((m - 1) as nat);
        assert(block_game(e) is None);
        lemma_filter_map_push(Seq::<Seq<Seq<char>>>::empty(), e);
        assert(Seq::<Seq<Seq<char>>>::empty().push(e) =~= seq![e]);
        assert(Seq::<Seq<Seq<char>>>::empty().filter_map(|b: Seq<Seq<char>>| block_game(b))
            =~= Seq::<GameView>::empty());
        assert(gs =~= Seq::<GameView>::empty());
        assert(crate::block_ok(e));
        assert(all_blocks_ok(seq![e]));
    } else {
        assert forall|i: int| 0 <= i < texts.len() implies free_of(#[trigger] texts[i], '\r') by {
        }
        lemma_out_lines(texts, m);
        lemma_out_blocks(texts, (m - 1) as nat);
        lemma_out_games(texts, (m - 1) as nat);
    }
}

} // verus!
