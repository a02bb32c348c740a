//! Sorting and filtering of PGN chess game files by their `[Date]` tag.
pub mod cli;
pub mod date;
pub mod filter;
pub mod reparse;
pub mod sort;
pub mod text;
pub mod util;

use vstd::prelude::*;

use crate::date::{
    component_value, date_line, law_date_tag_read, law_pgn_date_value, pgn_component, timestamp_of,
    date_of_headers, extract_date_chars, pgn_date_ok, pgn_date_timestamp_checked, pgn_timestamp,
};
use crate::text::{is_digit, chars_of, is_blank, trim_end, trim_start, is_white, lemma_trim_ends, lines, lines_of, string_of, sub_chars, trim, trim_bounds};

verus! {

/// A PGN game represented as its raw text block and a sortable timestamp.
pub struct PgnGame {
    /// The text of the game (headers + moves) as it stands in the file,
    /// trimmed at both ends.
    pub raw: String,
    /// The Date tag value as-is, e.g. "1988.??.??" or "2013.07.27".
    pub date_raw: String,
    /// Unix timestamp (seconds since 1970-01-01) for sorting/comparison.
    /// Can be negative for pre-1970 dates.
    pub timestamp: i64,
}

/// A game as plain values: its text, its Date value and its timestamp.
pub type GameView = (Seq<char>, Seq<char>, int);

impl View for PgnGame {
    type V = GameView;

    open spec fn view(&self) -> GameView {
        (self.raw@, self.date_raw@, self.timestamp as int)
    }
}

/// The models of a sequence of games.
pub open spec fn models(gs: Seq<PgnGame>) -> Seq<GameView> {
    gs.map_values(|g: PgnGame| g@)
}

/// Lines joined with `'\n'` between them.
pub open spec fn join_lines(ls: Seq<Seq<char>>) -> Seq<char>
    decreases ls.len(),
{
    if ls.len() == 0 {
        Seq::empty()
    } else if ls.len() == 1 {
        ls[0]
    } else {
        join_lines(ls.drop_last()) + seq!['\n'] + ls.last()
    }
}

/// The last of these lines begins a new game: it starts with `[` and
/// follows a blank line.
pub open spec fn opens_game(ls: Seq<Seq<char>>) -> bool {
    &&& ls.len() >= 2
    &&& ls.last().len() > 0
    &&& ls.last()[0] == '['
    &&& is_blank(ls[ls.len() - 2])
}

/// The lines grouped into game blocks: a block ends before each line that
/// opens a game. There is always at least one (possibly empty) block.
pub open spec fn blocks(ls: Seq<Seq<char>>) -> Seq<Seq<Seq<char>>>
    decreases ls.len(),
{
    if ls.len() == 0 {
        seq![Seq::<Seq<char>>::empty()]
    } else {
        let b = blocks(ls.drop_last());
        if opens_game(ls) {
            b.push(seq![ls.last()])
        } else {
            b.update(b.len() - 1, b.last().push(ls.last()))
        }
    }
}

/// The Date value used for a game without a Date tag.
pub open spec fn unknown_date() -> Seq<char> {
    seq!['?', '?', '?', '?', '.', '?', '?', '.', '?', '?']
}

/// The text of the game a block holds: its lines joined and trimmed.
pub open spec fn block_text(block: Seq<Seq<char>>) -> Seq<char> {
    trim(join_lines(block))
}

/// The Date value of a game text.
pub open spec fn game_date(raw: Seq<char>) -> Seq<char> {
    match date_of_headers(raw) {
        Some(d) => d,
        None => unknown_date(),
    }
}

/// The game a block holds; none for a block with only whitespace.
pub open spec fn block_game(block: Seq<Seq<char>>) -> Option<GameView> {
    let raw = block_text(block);
    if raw.len() == 0 {
        None
    } else {
        Some((raw, game_date(raw), pgn_timestamp(game_date(raw))))
    }
}

/// A block whose game, if any, has a Date that yields a timestamp.
pub open spec fn block_ok(block: Seq<Seq<char>>) -> bool {
    block_text(block).len() > 0 ==> pgn_date_ok(game_date(block_text(block)))
}

/// The games in a PGN text, in file order.
pub open spec fn games_in(content: Seq<char>) -> Seq<GameView> {
    blocks(lines(content)).filter_map(|b: Seq<Seq<char>>| block_game(b))
}

/// Every block of the sequence is `block_ok`.
pub open spec fn all_blocks_ok(bs: Seq<Seq<Seq<char>>>) -> bool {
    forall|k: int| 0 <= k < bs.len() ==> block_ok(#[trigger] bs[k])
}

/// Every game in the text has a Date that yields a timestamp.
pub open spec fn games_ok(content: Seq<char>) -> bool {
    all_blocks_ok(blocks(lines(content)))
}

pub proof fn lemma_filter_map_push(s: Seq<Seq<Seq<char>>>, x: Seq<Seq<char>>)
    ensures
        s.push(x).filter_map(|b: Seq<Seq<char>>| block_game(b)) == match block_game(x) {
            Some(g) => s.filter_map(|b: Seq<Seq<char>>| block_game(b)).push(g),
            None => s.filter_map(|b: Seq<Seq<char>>| block_game(b)),
        },
{
    assert(s.push(x).drop_last() =~= s);
    assert(s.push(x).last() == x);
    match block_game(x) {
        Some(g) => {
            assert(s.filter_map(|b: Seq<Seq<char>>| block_game(b)) + seq![g] =~= s.filter_map(
                |b: Seq<Seq<char>>| block_game(b),
            ).push(g));
        },
        None => {},
    }
}

/// How the blocks of a prefix grow by one line.
proof fn lemma_blocks_step(lv: Seq<Seq<char>>, i: int, start: int)
    requires
        0 <= start <= i < lv.len(),
        i == 0 ==> start == 0,
        blocks(lv.take(i)).last() == lv.subrange(start, i),
    ensures
        blocks(lv.take(i)).len() >= 1,
        opens_game(lv.take(i + 1)) ==> blocks(lv.take(i + 1)).drop_last() == blocks(lv.take(i)),
        opens_game(lv.take(i + 1)) ==> blocks(lv.take(i + 1)).last() == lv.subrange(i, i + 1),
        !opens_game(lv.take(i + 1)) ==> blocks(lv.take(i + 1)).drop_last() == blocks(
            lv.take(i),
        ).drop_last(),
        !opens_game(lv.take(i + 1)) ==> blocks(lv.take(i + 1)).last() == lv.subrange(start, i + 1),
{
    let t = lv.take(i + 1);
    assert(t.drop_last() =~= lv.take(i));
    lemma_blocks_len(lv.take(i));
    let prev = blocks(lv.take(i));
    let next = blocks(t);
    if opens_game(t) {
        assert(next.drop_last() =~= prev);
        assert(next.last() =~= lv.subrange(i, i + 1));
    } else {
        assert(next.drop_last() =~= prev.drop_last());
        assert(next.last() =~= lv.subrange(start, i + 1));
    }
}

/// Every game text is non-empty, neither starts nor ends with whitespace,
/// and so is its own trimming.
pub proof fn law_game_texts_trimmed(content: Seq<char>)
    ensures
        forall|i: int|
            0 <= i < games_in(content).len() ==> {
                let raw = (#[trigger] games_in(content)[i]).0;
                &&& raw.len() > 0
                &&& !is_white(raw[0])
                &&& !is_white(raw.last())
                &&& trim(raw) == raw
            },
{
    let bs = blocks(lines(content));
    let gs = games_in(content);
    assert forall|i: int| 0 <= i < gs.len() implies {
        let raw = (#[trigger] gs[i]).0;
        &&& raw.len() > 0
        &&& !is_white(raw[0])
        &&& !is_white(raw.last())
        &&& trim(raw) == raw
    } by {
        let g = gs[i];
        assert(gs.contains(g));
        bs.lemma_filter_map_contains(|b: Seq<Seq<char>>| block_game(b), g);
        let b = choose|b: Seq<Seq<char>>| #[trigger] bs.contains(b) && block_game(b) == Some(g);
        lemma_trim_ends(join_lines(b));
        let raw = g.0;
        assert(trim_start(raw) == raw);
        assert(trim_end(raw) == raw);
    }
}

/// Every game read from a text carries its own Date value (the `[Date]`
/// tag of its text, or `????.??.??` without one) and the timestamp of that
/// Date value.
pub proof fn law_game_timestamps(content: Seq<char>)
    ensures
        forall|i: int|
            0 <= i < games_in(content).len() ==> {
                let g = #[trigger] games_in(content)[i];
                &&& g.1 == game_date(g.0)
                &&& g.2 == pgn_timestamp(g.1)
            },
{
    let bs = blocks(lines(content));
    let gs = games_in(content);
    assert forall|i: int| 0 <= i < gs.len() implies {
        let g = #[trigger] gs[i];
        &&& g.1 == game_date(g.0)
        &&& g.2 == pgn_timestamp(g.1)
    } by {
        let g = gs[i];
        assert(gs.contains(g));
        bs.lemma_filter_map_contains(|b: Seq<Seq<char>>| block_game(b), g);
        let b = choose|b: Seq<Seq<char>>| #[trigger] bs.contains(b) && block_game(b) == Some(g);
        assert(block_game(b) == Some(g));
    }
}

/// A game text that begins with the header line `[Date "Y.M.D"]`, each of
/// `Y`, `M`, `D` a decimal number (leading zeros allowed) or `??`, has
/// that Date value, and the timestamp it carries among the games of a text
/// is that of the date those numbers name, `??` standing for 1.
pub proof fn law_dated_game_timestamp(y: Seq<char>, m: Seq<char>, d: Seq<char>, rest: Seq<char>)
    requires
        pgn_component(y),
        pgn_component(m),
        pgn_component(d),
        component_value(m) <= 12,
    ensures
        ({
            let v = y + seq!['.'] + m + seq!['.'] + d;
            let raw = date_line(v) + seq!['\n'] + rest;
            &&& game_date(raw) == v
            &&& pgn_timestamp(game_date(raw)) == timestamp_of(
                component_value(y),
                component_value(m),
                component_value(d),
            )
        }),
{
    let v = y + seq!['.'] + m + seq!['.'] + d;
    assert forall|i: int| 0 <= i < v.len() implies v[i] != '"' && v[i] != '\n' by {
        if i < y.len() {
            assert(v[i] == y[i]);
            if y != seq!['?', '?'] {
                crate::text::lemma_digit_text(y);
                assert(is_digit(y[i]));
            }
        } else if i == y.len() || i == y.len() + 1 + m.len() {
        } else if i < y.len() + 1 + m.len() {
            assert(v[i] == m[i - y.len() - 1]);
            if m != seq!['?', '?'] {
                assert(is_digit(m[i - y.len() - 1]));
            }
        } else {
            assert(v[i] == d[i - y.len() - 2 - m.len()]);
            if d != seq!['?', '?'] {
                assert(is_digit(d[i - y.len() - 2 - m.len()]));
            }
        }
    }
    law_date_tag_read(v, rest);
    law_pgn_date_value(y, m, d);
}

/// Games modelled by the games of a text carry the timestamps of their
/// Date values.
proof fn lemma_models_timestamps(gs: Seq<PgnGame>, content: Seq<char>)
    requires
        models(gs) == games_in(content),
    ensures
        forall|i: int|
            0 <= i < gs.len() ==> #[trigger] gs[i].timestamp == pgn_timestamp(gs[i].date_raw@),
{
    law_game_timestamps(content);
    assert forall|i: int| 0 <= i < gs.len() implies #[trigger] gs[i].timestamp == pgn_timestamp(
        gs[i].date_raw@,
    ) by {
        assert(models(gs)[i] == gs[i]@);
    }
}

pub proof fn lemma_blocks_len(ls: Seq<Seq<char>>)
    ensures
        blocks(ls).len() >= 1,
    decreases ls.len(),
{
    if ls.len() > 0 {
        lemma_blocks_len(ls.drop_last());
    }
}

/// The finished blocks of a prefix are finished blocks of any longer prefix.
proof fn lemma_blocks_prefix(ls: Seq<Seq<char>>, i: int, j: int)
    requires
        0 <= i <= j <= ls.len(),
    ensures
        blocks(ls.take(i)).drop_last().is_prefix_of(blocks(ls.take(j)).drop_last()),
    decreases j - i,
{
    if i < j {
        lemma_blocks_prefix(ls, i, j - 1);
        let t = ls.take(j);
        assert(t.drop_last() =~= ls.take(j - 1));
        lemma_blocks_len(ls.take(j - 1));
        let prev = blocks(ls.take(j - 1));
        let next = blocks(t);
        if opens_game(t) {
            assert(next.drop_last() =~= prev);
        } else {
            assert(next.drop_last() =~= prev.drop_last());
        }
    }
}

/// The lines `ls[start..end]` joined with `'\n'`.
fn join_range(ls: &Vec<Vec<char>>, start: usize, end: usize) -> (r: Vec<char>)
    requires
        start <= end <= ls.len(),
    ensures
        r@ == join_lines(ls@.map_values(|p: Vec<char>| p@).subrange(start as int, end as int)),
{
    let ghost lv = ls@.map_values(|p: Vec<char>| p@);
    let mut r: Vec<char> = Vec::new();
    let mut k = start;
    while k < end
        invariant
            start <= k <= end <= ls.len(),
            lv == ls@.map_values(|p: Vec<char>| p@),
            r@ == join_lines(lv.subrange(start as int, k as int)),
        decreases end - k,
    {
        let line = &ls[k];
        assert(lv[k as int] == line@);
        let ghost before = r@;
        if k > start {
            r.push('\n');
        }
        let mut j: usize = 0;
        let ghost mid = r@;
        while j < line.len()
            invariant
                j <= line.len(),
                r@ == mid + line@.take(j as int),
            decreases line.len() - j,
        {
            r.push(line[j]);
            assert(r@ =~= mid + line@.take(j + 1));
            j = j + 1;
        }
        assert(line@.take(line.len() as int) =~= line@);
        let ghost part = lv.subrange(start as int, k + 1);
        assert(part.drop_last() =~= lv.subrange(start as int, k as int));
        assert(part.last() == line@);
        assert(r@ =~= join_lines(part));
        k = k + 1;
    }
    r
}

/// Build the game held by the lines `ls[start..end]`.
/// Returns `Some(None)` if the text is empty after trimming, and `None`
/// if its Date cannot be turned into a timestamp.
fn flush_game(ls: &Vec<Vec<char>>, start: usize, end: usize) -> (r: Option<Option<PgnGame>>)
    requires
        start <= end <= ls.len(),
    ensures
        ({
            let block = ls@.map_values(|p: Vec<char>| p@).subrange(start as int, end as int);
            &&& r is Some <==> block_ok(block)
            &&& r matches Some(g) ==> match g {
                Some(game) => block_game(block) == Some(game@),
                None => block_game(block) is None,
            }
            &&& r matches Some(Some(game)) ==> game.timestamp == pgn_timestamp(game.date_raw@)
        }),
{
    let ghost block = ls@.map_values(|p: Vec<char>| p@).subrange(start as int, end as int);
    let joined = join_range(ls, start, end);
    let (lo, hi) = trim_bounds(&joined, 0, joined.len());
    assert(joined@.subrange(0, joined@.len() as int) =~= joined@);
    assert(joined@.subrange(lo as int, hi as int) == block_text(block));
    if lo == hi {
        return Some(None);
    }
    let text = sub_chars(&joined, lo, hi);
    let raw = string_of(&joined, lo, hi);
    let date_raw = match extract_date_chars(&text) {
        Some(d) => {
            assert(d@ == game_date(text@));
            d
        },
        None => {
            let unknown: Vec<char> = vec!['?', '?', '?', '?', '.', '?', '?', '.', '?', '?'];
            assert(unknown@ =~= unknown_date());
            assert(unknown@.subrange(0, 10) =~= unknown@);
            string_of(&unknown, 0, 10)
        },
    };
    assert(date_raw@ == game_date(block_text(block)));
    let date_chars = chars_of(date_raw.as_str());
    match pgn_date_timestamp_checked(&date_chars) {
        Some(timestamp) => Some(Some(PgnGame { raw, date_raw, timestamp })),
        None => None,
    }
}

/// Split PGN file content into games, or `None` if the Date of one of them
/// cannot be turned into a timestamp.
pub fn parse_games_checked(content: &str) -> (r: Option<Vec<PgnGame>>)
    ensures
        r is Some <==> games_ok(content@),
        r matches Some(gs) ==> models(gs@) == games_in(content@),
        r matches Some(gs) ==> forall|i: int|
            0 <= i < gs.len() ==> #[trigger] gs[i].timestamp == pgn_timestamp(gs[i].date_raw@),
{
    let text = chars_of(content);
    let ls = lines_of(&text);
    let ghost lv = ls@.map_values(|p: Vec<char>| p@);
    let mut games: Vec<PgnGame> = Vec::new();
    let mut start: usize = 0;
    let mut i: usize = 0;
    assert(lv.take(0) =~= Seq::<Seq<char>>::empty());
    assert(lv.subrange(0, 0) =~= Seq::<Seq<char>>::empty());
    while i < ls.len()
        invariant
            i <= ls.len(),
            lv == ls@.map_values(|p: Vec<char>| p@),
            lv == lines(content@),
            start <= i,
            i == 0 ==> start == 0,
            i > 0 ==> start < i,
            blocks(lv.take(i as int)).last() == lv.subrange(start as int, i as int),
            models(games@) == blocks(lv.take(i as int)).drop_last().filter_map(
                |b: Seq<Seq<char>>| block_game(b),
            ),
            all_blocks_ok(blocks(lv.take(i as int)).drop_last()),
        decreases ls.len() - i,
    {
        let ghost prev = blocks(lv.take(i as int));
        let ghost t = lv.take(i + 1);
        assert(t.last() == ls[i as int]@);
        proof {
            lemma_blocks_step(lv, i as int, start as int);
        }
        let mut opens = false;
        if i > 0 && ls[i].len() > 0 && ls[i][0] == '[' {
            let prev_line = &ls[i - 1];
            let (lo, hi) = trim_bounds(prev_line, 0, prev_line.len());
            assert(prev_line@.subrange(0, prev_line@.len() as int) =~= prev_line@);
            assert(t[i - 1] == prev_line@);
            opens = lo == hi;
        }
        assert(opens == opens_game(t));
        if opens {
            let ghost block = lv.subrange(start as int, i as int);
            match flush_game(&ls, start, i) {
                None => {
                    proof {
                        lemma_blocks_prefix(lv, i + 1, lv.len() as int);
                        assert(lv.take(lv.len() as int) =~= lv);
                        let all = blocks(lv);
                        let next = blocks(t);
                        lemma_blocks_len(lv);
                        let nd = next.drop_last();
                        let ad = all.drop_last();
                        assert(nd[prev.len() - 1] == block);
                        assert(nd == ad.subrange(0, nd.len() as int));
                        assert(ad.subrange(0, nd.len() as int)[prev.len() - 1] == ad[prev.len() - 1]);
                        assert(all[prev.len() - 1] == ad[prev.len() - 1]);
                        assert(!block_ok(all[prev.len() - 1]));
                    }
                    return None;
                },
                Some(g) => {
                    let ghost before = models(games@);
                    match g {
                        Some(game) => {
                            games.push(game);
                            assert(models(games@) =~= before.push(game@));
                        },
                        None => {},
                    }
                    proof {
                        assert(prev =~= prev.drop_last().push(block));
                        lemma_filter_map_push(prev.drop_last(), block);
                        assert(all_blocks_ok(prev)) by {
                            assert forall|k: int| 0 <= k < prev.len() implies block_ok(
                                #[trigger] prev[k],
                            ) by {
                                if k < prev.len() - 1 {
                                    assert(prev[k] == prev.drop_last()[k]);
                                }
                            }
                        }
                    }
                },
            }
            start = i;
        }
        i = i + 1;
    }
    assert(lv.take(ls.len() as int) =~= lv);
    proof {
        lemma_blocks_len(lv);
    }
    let ghost all = blocks(lv);
    let ghost block = lv.subrange(start as int, ls.len() as int);
    assert(all =~= all.drop_last().push(block));
    match flush_game(&ls, start, ls.len()) {
        None => {
            assert(all[all.len() - 1] == block);
            None
        },
        Some(g) => {
            let ghost before = models(games@);
            match g {
                Some(game) => {
                    games.push(game);
                    assert(models(games@) =~= before.push(game@));
                },
                None => {},
            }
            proof {
                lemma_filter_map_push(all.drop_last(), block);
                assert forall|k: int| 0 <= k < all.len() implies block_ok(#[trigger] all[k]) by {
                    if k < all.len() - 1 {
                        assert(all[k] == all.drop_last()[k]);
                    }
                }
            }
            proof {
                lemma_models_timestamps(games@, content@);
            }
            Some(games)
        },
    }
}

/// Split PGN file content into individual game blocks.
///
/// A new game boundary is detected when a line starting with `[` follows
/// a blank line (or the start of the file). This correctly handles
/// multi-line move text and multiple header tags.
pub fn parse_games(content: &str) -> (games: Vec<PgnGame>)
    requires
        games_ok(content@),
    ensures
        models(games@) == games_in(content@),
        forall|i: int|
            0 <= i < games.len() ==> #[trigger] games[i].timestamp == pgn_timestamp(
                games[i].date_raw@,
            ),
{
    match parse_games_checked(content) {
        Some(games) => games,
        None => Vec::new(),
    }
}

} // verus!
