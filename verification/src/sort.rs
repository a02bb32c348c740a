//! Stable sorting of games by timestamp.
use vstd::prelude::*;

use crate::PgnGame;

verus! {

/// `x` may come before `y`: oldest first, or newest first when `desc`.
pub open spec fn in_order(x: PgnGame, y: PgnGame, desc: bool) -> bool {
    if desc {
        x.timestamp >= y.timestamp
    } else {
        x.timestamp <= y.timestamp
    }
}

/// `x` must come before `y`.
pub open spec fn strictly_before(x: PgnGame, y: PgnGame, desc: bool) -> bool {
    in_order(x, y, desc) && x.timestamp != y.timestamp
}

/// Games ordered by timestamp: ascending, or descending when `desc`.
pub open spec fn sorted_by_time(s: Seq<PgnGame>, desc: bool) -> bool {
    forall|i: int, j: int| 0 <= i < j < s.len() ==> in_order(#[trigger] s[i], #[trigger] s[j], desc)
}

/// The test for timestamp `t`.
pub open spec fn has_time(t: i64) -> spec_fn(PgnGame) -> bool {
    |g: PgnGame| g.timestamp == t
}

/// The games of `s` with timestamp `t`, in their order in `s`.
pub open spec fn with_time(s: Seq<PgnGame>, t: i64) -> Seq<PgnGame> {
    s.filter(has_time(t))
}

/// Games with equal timestamps appear in the same order in both sequences.
pub open spec fn same_ties(a: Seq<PgnGame>, b: Seq<PgnGame>) -> bool {
    forall|t: i64| #[trigger] with_time(a, t) == with_time(b, t)
}

/// `new` is `old` sorted stably by timestamp: a permutation of `old` in
/// timestamp order in which games with equal timestamps keep their order.
pub open spec fn stable_sort_of(new: Seq<PgnGame>, old: Seq<PgnGame>, desc: bool) -> bool {
    &&& sorted_by_time(new, desc)
    &&& same_ties(new, old)
    &&& new.to_multiset() == old.to_multiset()
}

pub proof fn lemma_with_time_push(s: Seq<PgnGame>, x: PgnGame, t: i64)
    ensures
        with_time(s.push(x), t) == (if x.timestamp == t {
            with_time(s, t).push(x)
        } else {
            with_time(s, t)
        }),
{
    reveal(Seq::filter);
    assert(s.push(x).drop_last() =~= s);
}

pub proof fn lemma_with_time_none(s: Seq<PgnGame>, t: i64)
    requires
        forall|i: int| 0 <= i < s.len() ==> (#[trigger] s[i]).timestamp != t,
    ensures
        with_time(s, t) == Seq::<PgnGame>::empty(),
    decreases s.len(),
{
    reveal(Seq::filter);
    if s.len() > 0 {
        lemma_with_time_none(s.drop_last(), t);
    }
}

proof fn lemma_filter_single(x: PgnGame, p: spec_fn(PgnGame) -> bool)
    ensures
        seq![x].filter(p) == (if p(x) {
            seq![x]
        } else {
            Seq::<PgnGame>::empty()
        }),
{
    reveal(Seq::filter);
    assert(seq![x].drop_last() =~= Seq::<PgnGame>::empty());
    assert(Seq::<PgnGame>::empty().filter(p) =~= Seq::<PgnGame>::empty());
    if p(x) {
        assert(Seq::<PgnGame>::empty().push(x) =~= seq![x]);
    }
}

/// Filtering looks at the first element, then at the rest.
proof fn lemma_filter_first(s: Seq<PgnGame>, p: spec_fn(PgnGame) -> bool)
    requires
        s.len() > 0,
    ensures
        s.filter(p) == (if p(s[0]) {
            seq![s[0]] + s.drop_first().filter(p)
        } else {
            s.drop_first().filter(p)
        }),
{
    assert(s =~= seq![s[0]] + s.drop_first());
    Seq::filter_distributes_over_add(seq![s[0]], s.drop_first(), p);
    lemma_filter_single(s[0], p);
    if !p(s[0]) {
        assert(Seq::<PgnGame>::empty() + s.drop_first().filter(p) =~= s.drop_first().filter(p));
    }
}

/// Two filters commute.
proof fn lemma_filter_commute(s: Seq<PgnGame>, p: spec_fn(PgnGame) -> bool, q: spec_fn(PgnGame) -> bool)
    ensures
        s.filter(p).filter(q) == s.filter(q).filter(p),
    decreases s.len(),
{
    reveal(Seq::filter);
    if s.len() > 0 {
        lemma_filter_commute(s.drop_last(), p, q);
        let x = s.last();
        let a = s.drop_last().filter(p);
        let b = s.drop_last().filter(q);
        if p(x) {
            assert(a.push(x).drop_last() =~= a);
        }
        if q(x) {
            assert(b.push(x).drop_last() =~= b);
        }
    }
}

/// A filtered sorted sequence is sorted.
proof fn lemma_sorted_filter(s: Seq<PgnGame>, p: spec_fn(PgnGame) -> bool, desc: bool)
    requires
        sorted_by_time(s, desc),
    ensures
        sorted_by_time(s.filter(p), desc),
    decreases s.len(),
{
    reveal(Seq::filter);
    if s.len() > 0 {
        let rest = s.drop_last();
        assert(sorted_by_time(rest, desc));
        lemma_sorted_filter(rest, p, desc);
        let f = rest.filter(p);
        if p(s.last()) {
            assert forall|i: int, j: int| 0 <= i < j < f.push(s.last()).len() implies in_order(
                #[trigger] f.push(s.last())[i],
                #[trigger] f.push(s.last())[j],
                desc,
            ) by {
                if j == f.len() {
                    assert(f.contains(f[i]));
                    rest.lemma_filter_contains_rev(p, f[i]);
                    let k = choose|k: int| 0 <= k < rest.len() && rest[k] == f[i];
                    assert(in_order(s[k], s[s.len() - 1], desc));
                } else {
                    assert(f.push(s.last())[i] == f[i]);
                    assert(f.push(s.last())[j] == f[j]);
                }
            }
        }
    }
}

/// A sequence in timestamp order with the same ties as another one in
/// timestamp order is that sequence.
proof fn lemma_sorted_same_ties_equal(x: Seq<PgnGame>, y: Seq<PgnGame>, desc: bool)
    requires
        sorted_by_time(x, desc),
        sorted_by_time(y, desc),
        same_ties(x, y),
    ensures
        x == y,
    decreases x.len() + y.len(),
{
    reveal(Seq::filter);
    if x.len() == 0 || y.len() == 0 {
        if x.len() > 0 {
            let t = x[0].timestamp;
            x.lemma_filter_contains(has_time(t), 0);
            assert(with_time(y, t) == with_time(x, t));
            assert(y.filter(has_time(t)) =~= Seq::<PgnGame>::empty());
        }
        if y.len() > 0 {
            let t = y[0].timestamp;
            y.lemma_filter_contains(has_time(t), 0);
            assert(with_time(y, t) == with_time(x, t));
            assert(x.filter(has_time(t)) =~= Seq::<PgnGame>::empty());
        }
        assert(x =~= y);
    } else {
        let a = x[0];
        let b = y[0];
        // `a` occurs in `y` and `b` in `x`, so their timestamps agree
        x.lemma_filter_contains(has_time(a.timestamp), 0);
        assert(with_time(y, a.timestamp) == with_time(x, a.timestamp));
        y.lemma_filter_contains_rev(has_time(a.timestamp), a);
        let ka = choose|k: int| 0 <= k < y.len() && y[k] == a;
        assert(ka == 0 || in_order(y[0], y[ka], desc));
        y.lemma_filter_contains(has_time(b.timestamp), 0);
        assert(with_time(y, b.timestamp) == with_time(x, b.timestamp));
        x.lemma_filter_contains_rev(has_time(b.timestamp), b);
        let kb = choose|k: int| 0 <= k < x.len() && x[k] == b;
        assert(kb == 0 || in_order(x[0], x[kb], desc));
        assert(a.timestamp == b.timestamp);
        let t0 = a.timestamp;
        let xs = x.drop_first();
        let ys = y.drop_first();
        lemma_filter_first(x, has_time(t0));
        lemma_filter_first(y, has_time(t0));
        assert(with_time(x, t0) == with_time(y, t0));
        assert((seq![a] + with_time(xs, t0))[0] == a);
        assert((seq![b] + with_time(ys, t0))[0] == b);
        assert(a == b);
        assert(with_time(xs, t0) =~= (seq![a] + with_time(xs, t0)).drop_first());
        assert(with_time(ys, t0) =~= (seq![b] + with_time(ys, t0)).drop_first());
        assert forall|t: i64| #[trigger] with_time(xs, t) == with_time(ys, t) by {
            lemma_filter_first(x, has_time(t));
            lemma_filter_first(y, has_time(t));
            assert(with_time(x, t) == with_time(y, t));
        }
        assert(sorted_by_time(xs, desc)) by {
            assert forall|i: int, j: int| 0 <= i < j < xs.len() implies in_order(
                #[trigger] xs[i],
                #[trigger] xs[j],
                desc,
            ) by {
                assert(xs[i] == x[i + 1] && xs[j] == x[j + 1]);
            }
        }
        assert(sorted_by_time(ys, desc)) by {
            assert forall|i: int, j: int| 0 <= i < j < ys.len() implies in_order(
                #[trigger] ys[i],
                #[trigger] ys[j],
                desc,
            ) by {
                assert(ys[i] == y[i + 1] && ys[j] == y[j + 1]);
            }
        }
        lemma_sorted_same_ties_equal(xs, ys, desc);
        assert(x =~= seq![a] + xs);
        assert(y =~= seq![b] + ys);
    }
}

/// A stable sort has one outcome: any two stable sorts of the same games
/// in the same direction are equal.
pub proof fn law_stable_sort_unique(s1: Seq<PgnGame>, s2: Seq<PgnGame>, old: Seq<PgnGame>, desc: bool)
    requires
        stable_sort_of(s1, old, desc),
        stable_sort_of(s2, old, desc),
    ensures
        s1 == s2,
{
    assert forall|t: i64| #[trigger] with_time(s1, t) == with_time(s2, t) by {
        assert(with_time(s1, t) == with_time(old, t));
        assert(with_time(s2, t) == with_time(old, t));
    }
    lemma_sorted_same_ties_equal(s1, s2, desc);
}

/// Filtering commutes with stable sorting: keeping the games that pass a
/// test and then sorting them gives the same sequence as sorting all games
/// and then keeping those that pass.
pub proof fn law_filter_commutes_with_sort(
    games: Seq<PgnGame>,
    keep: spec_fn(PgnGame) -> bool,
    desc: bool,
    sorted_all: Seq<PgnGame>,
    sorted_kept: Seq<PgnGame>,
)
    requires
        stable_sort_of(sorted_all, games, desc),
        stable_sort_of(sorted_kept, games.filter(keep), desc),
    ensures
        sorted_all.filter(keep) == sorted_kept,
{
    let f = sorted_all.filter(keep);
    lemma_sorted_filter(sorted_all, keep, desc);
    assert forall|t: i64| #[trigger] with_time(f, t) == with_time(sorted_kept, t) by {
        lemma_filter_commute(sorted_all, keep, has_time(t));
        lemma_filter_commute(games, keep, has_time(t));
        assert(with_time(sorted_all, t) == with_time(games, t));
        assert(with_time(sorted_kept, t) == with_time(games.filter(keep), t));
    }
    lemma_sorted_same_ties_equal(f, sorted_kept, desc);
}

/// The elements of `v` in reverse order.
fn reversed(v: Vec<PgnGame>) -> (r: Vec<PgnGame>)
    ensures
        r.len() == v.len(),
        forall|k: int| 0 <= k < r.len() ==> #[trigger] r@[k] == v@[v.len() - 1 - k],
{
    let ghost orig = v@;
    let mut v = v;
    let mut r: Vec<PgnGame> = Vec::new();
    while v.len() > 0
        invariant
            v@ == orig.take(v.len() as int),
            r.len() + v.len() == orig.len(),
            forall|k: int| 0 <= k < r.len() ==> #[trigger] r@[k] == orig[orig.len() - 1 - k],
        decreases v.len(),
    {
        let x = v.pop().unwrap();
        r.push(x);
        assert(v@ =~= orig.take(v.len() as int));
    }
    r
}

/// The stable merge of two sorted runs, `a` before `b`.
fn merge(a: Vec<PgnGame>, b: Vec<PgnGame>, desc: bool) -> (r: Vec<PgnGame>)
    requires
        sorted_by_time(a@, desc),
        sorted_by_time(b@, desc),
    ensures
        sorted_by_time(r@, desc),
        forall|t: i64| #[trigger] with_time(r@, t) == with_time(a@, t) + with_time(b@, t),
        r@.to_multiset() == a@.to_multiset().add(b@.to_multiset()),
{
    broadcast use vstd::seq_lib::group_to_multiset_ensures, vstd::multiset::group_multiset_axioms;

    let ghost sa = a@;
    let ghost sb = b@;
    let na = a.len();
    let nb = b.len();
    let mut ra = reversed(a);
    let mut rb = reversed(b);
    let mut out: Vec<PgnGame> = Vec::new();
    assert(sa.take(0) =~= Seq::<PgnGame>::empty());
    assert(sb.take(0) =~= Seq::<PgnGame>::empty());
    assert forall|t: i64| #[trigger] with_time(out@, t) == with_time(sa.take(0), t) + with_time(
        sb.take(0),
        t,
    ) by {
        reveal(Seq::filter);
        assert(with_time(out@, t) + with_time(out@, t) =~= with_time(out@, t));
    }
    while ra.len() > 0 || rb.len() > 0
        invariant
            sorted_by_time(sa, desc),
            sorted_by_time(sb, desc),
            na == sa.len(),
            nb == sb.len(),
            ra.len() <= na,
            rb.len() <= nb,
            forall|k: int| 0 <= k < ra.len() ==> #[trigger] ra@[k] == sa[na - 1 - k],
            forall|k: int| 0 <= k < rb.len() ==> #[trigger] rb@[k] == sb[nb - 1 - k],
            sorted_by_time(out@, desc),
            // everything placed may come before everything still to place
            forall|i: int, j: int|
                0 <= i < out.len() && na - ra.len() <= j < na ==> in_order(
                    #[trigger] out@[i],
                    #[trigger] sa[j],
                    desc,
                ),
            forall|i: int, j: int|
                0 <= i < out.len() && nb - rb.len() <= j < nb ==> in_order(
                    #[trigger] out@[i],
                    #[trigger] sb[j],
                    desc,
                ),
            // what was taken from `b` must come before what is left of `a`
            forall|i: int, j: int|
                0 <= i < nb - rb.len() && na - ra.len() <= j < na ==> strictly_before(
                    #[trigger] sb[i],
                    #[trigger] sa[j],
                    desc,
                ),
            forall|t: i64| #[trigger]
                with_time(out@, t) == with_time(sa.take(na - ra.len()), t) + with_time(
                    sb.take(nb - rb.len()),
                    t,
                ),
            out@.to_multiset() == sa.take(na - ra.len()).to_multiset().add(
                sb.take(nb - rb.len()).to_multiset(),
            ),
        decreases ra.len() + rb.len(),
    {
        let ia: usize = na - ra.len();
        let ib: usize = nb - rb.len();
        let take_a = if rb.len() == 0 {
            true
        } else if ra.len() == 0 {
            false
        } else {
            let x = &ra[ra.len() - 1];
            let y = &rb[rb.len() - 1];
            if desc {
                x.timestamp >= y.timestamp
            } else {
                x.timestamp <= y.timestamp
            }
        };
        let ghost old_out = out@;
        assert(old_out.to_multiset() == sa.take(ia as int).to_multiset().add(
            sb.take(ib as int).to_multiset(),
        ));
        if take_a {
            let x = ra.pop().unwrap();
            assert(x == sa[ia as int]);
            out.push(x);
            assert(sa.take(ia + 1) =~= sa.take(ia as int).push(x));
            assert(out@ == old_out.push(x));
            proof {
                vstd::seq_lib::to_multiset_build(old_out, x);
                vstd::seq_lib::to_multiset_build(sa.take(ia as int), x);
            }
            assert(out@.to_multiset() =~= sa.take(ia + 1).to_multiset().add(
                sb.take(ib as int).to_multiset(),
            ));
            proof {
                assert forall|t: i64| #[trigger]
                    with_time(out@, t) == with_time(sa.take(ia + 1), t) + with_time(
                        sb.take(ib as int),
                        t,
                    ) by {
                    lemma_with_time_push(old_out, x, t);
                    lemma_with_time_push(sa.take(ia as int), x, t);
                    if x.timestamp == t {
                        assert forall|i: int| 0 <= i < sb.take(ib as int).len() implies (
                        #[trigger] sb.take(ib as int)[i]).timestamp != t by {
                            assert(strictly_before(sb[i], sa[ia as int], desc));
                        }
                        lemma_with_time_none(sb.take(ib as int), t);
                        assert(with_time(sa.take(ia as int), t).push(x) + Seq::<PgnGame>::empty()
                            =~= (with_time(sa.take(ia as int), t) + Seq::<PgnGame>::empty()).push(
                            x,
                        ));
                    }
                }
                assert forall|i: int, j: int|
                    0 <= i < out.len() && nb - rb.len() <= j < nb implies in_order(
                    #[trigger] out@[i],
                    #[trigger] sb[j],
                    desc,
                ) by {
                    if i == out.len() - 1 && rb.len() > 0 {
                        assert(in_order(x, sb[ib as int], desc));
                        assert(in_order(sb[ib as int], sb[j], desc) || ib as int == j);
                    }
                }
                assert forall|i: int, j: int|
                    0 <= i < out.len() && na - ra.len() <= j < na implies in_order(
                    #[trigger] out@[i],
                    #[trigger] sa[j],
                    desc,
                ) by {
                    if i == out.len() - 1 {
                        assert(in_order(sa[ia as int], sa[j], desc));
                    } else {
                        assert(out@[i] == old_out[i]);
                    }
                }
            }
        } else {
            let y = rb.pop().unwrap();
            assert(y == sb[ib as int]);
            out.push(y);
            assert(sb.take(ib + 1) =~= sb.take(ib as int).push(y));
            assert(out@ == old_out.push(y));
            proof {
                vstd::seq_lib::to_multiset_build(old_out, y);
                vstd::seq_lib::to_multiset_build(sb.take(ib as int), y);
            }
            assert(out@.to_multiset() =~= sa.take(ia as int).to_multiset().add(
                sb.take(ib + 1).to_multiset(),
            ));
            proof {
                assert forall|t: i64| #[trigger]
                    with_time(out@, t) == with_time(sa.take(ia as int), t) + with_time(
                        sb.take(ib + 1),
                        t,
                    ) by {
                    lemma_with_time_push(old_out, y, t);
                    lemma_with_time_push(sb.take(ib as int), y, t);
                    if y.timestamp == t {
                        assert(with_time(sa.take(ia as int), t) + with_time(sb.take(ib as int), t).push(
                            y,
                        ) =~= (with_time(sa.take(ia as int), t) + with_time(sb.take(ib as int), t)).push(
                            y,
                        ));
                    }
                }
                assert forall|i: int, j: int|
                    0 <= i < out.len() && na - ra.len() <= j < na implies in_order(
                    #[trigger] out@[i],
                    #[trigger] sa[j],
                    desc,
                ) by {
                    if i == out.len() - 1 {
                        assert(in_order(y, sa[ia as int], desc));
                        assert(in_order(sa[ia as int], sa[j], desc) || ia as int == j);
                    } else {
                        assert(out@[i] == old_out[i]);
                    }
                }
                assert forall|i: int, j: int|
                    0 <= i < out.len() && nb - rb.len() <= j < nb implies in_order(
                    #[trigger] out@[i],
                    #[trigger] sb[j],
                    desc,
                ) by {
                    if i == out.len() - 1 {
                        assert(in_order(sb[ib as int], sb[j], desc));
                    } else {
                        assert(out@[i] == old_out[i]);
                    }
                }
                assert forall|i: int, j: int|
                    0 <= i < nb - rb.len() && na - ra.len() <= j < na implies strictly_before(
                    #[trigger] sb[i],
                    #[trigger] sa[j],
                    desc,
                ) by {
                    if i == ib {
                        assert(in_order(sa[ia as int], sa[j], desc) || ia as int == j);
                    }
                }
            }
        }
    }
    assert(sa.take(na as int) =~= sa);
    assert(sb.take(nb as int) =~= sb);
    out
}

/// `v` sorted stably by timestamp, ascending or (when `desc`) descending.
fn merge_sort(v: Vec<PgnGame>, desc: bool) -> (r: Vec<PgnGame>)
    ensures
        stable_sort_of(r@, v@, desc),
    decreases v.len(),
{
    if v.len() <= 1 {
        return v;
    }
    let ghost whole = v@;
    let mut left = v;
    let right = left.split_off(left.len() / 2);
    assert(whole =~= left@ + right@);
    let ghost (l0, r0) = (left@, right@);
    let sl = merge_sort(left, desc);
    let sr = merge_sort(right, desc);
    let r = merge(sl, sr, desc);
    proof {
        broadcast use vstd::seq_lib::group_to_multiset_ensures;

        vstd::seq_lib::lemma_multiset_commutative(l0, r0);
        assert forall|t: i64| #[trigger] with_time(r@, t) == with_time(whole, t) by {
            assert(with_time(sl@, t) == with_time(l0, t));
            assert(with_time(sr@, t) == with_time(r0, t));
            Seq::filter_distributes_over_add(l0, r0, has_time(t));
        }
    }
    r
}

/// Puts `g` in place `i` of the slice and gives back the game that stood
/// there (`std::mem::replace` on the slice element); the contract claims
/// exactly that exchange.
#[verifier::external_body]
fn replace_at(games: &mut [PgnGame], i: usize, g: PgnGame) -> (old_game: PgnGame)
    requires
        i < old(games)@.len(),
    ensures
        old_game == old(games)@[i as int],
        final(games)@ == old(games)@.update(i as int, g),
{
    std::mem::replace(&mut games[i], g)
}

/// A game with no text, used to hold a place while games are moved.
fn blank_game() -> PgnGame {
    PgnGame { raw: String::new(), date_raw: String::new(), timestamp: 0 }
}

/// Sort the games of a slice stably by timestamp: move them out, merge
/// sort them, and move them back in order.
fn sort_slice(games: &mut [PgnGame], desc: bool)
    ensures
        stable_sort_of(final(games)@, old(games)@, desc),
{
    let ghost orig = games@;
    let n = games.len();
    let mut taken: Vec<PgnGame> = Vec::new();
    let mut i: usize = 0;
    while i < n
        invariant
            n == orig.len(),
            games@.len() == n,
            i <= n,
            taken@ == orig.take(i as int),
            forall|k: int| i <= k < n ==> games@[k] == orig[k],
        decreases n - i,
    {
        let g = replace_at(games, i, blank_game());
        taken.push(g);
        assert(taken@ =~= orig.take(i + 1));
        i = i + 1;
    }
    assert(taken@ =~= orig);
    let sorted = merge_sort(taken, desc);
    let ghost target = sorted@;
    proof {
        vstd::seq_lib::to_multiset_len(target);
        vstd::seq_lib::to_multiset_len(orig);
    }
    let mut rest = reversed(sorted);
    let mut k: usize = 0;
    while k < n
        invariant
            target.len() == n,
            games@.len() == n,
            k <= n,
            rest.len() == n - k,
            forall|j: int| 0 <= j < rest.len() ==> #[trigger] rest@[j] == target[n - 1 - j],
            forall|j: int| 0 <= j < k ==> games@[j] == target[j],
        decreases n - k,
    {
        let g = rest.pop().unwrap();
        assert(g == target[k as int]);
        let _ = replace_at(games, k, g);
        k = k + 1;
    }
    assert(games@ =~= target);
}

/// Sort games by date, oldest first.
pub fn sort_asc(games: &mut [PgnGame])
    ensures
        stable_sort_of(final(games)@, old(games)@, false),
{
    sort_slice(games, false);
}

/// Sort games by date, newest first.
pub fn sort_desc(games: &mut [PgnGame])
    ensures
        stable_sort_of(final(games)@, old(games)@, true),
{
    sort_slice(games, true);
}

} // verus!
