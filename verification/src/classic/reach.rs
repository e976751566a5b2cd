//! What the depth-first searches of the classic game leave behind: a level
//! explored without success has every move lead to a level already seen, or
//! only swap two of its bottles. Since the rules do not depend on the order
//! of the bottles, no sequence of moves from such a level reaches the goal
//! without passing through a level seen before the search.
use vstd::prelude::*;

use vstd::arithmetic::div_mod::lemma_fundamental_div_mod_converse;

use crate::classic::bottle::{lemma_top_amount_bounds, solved, top_amount, BottleColor};
use crate::classic::solver::{
    all_candidates, all_done, candidate, candidates_upto, move_ok, mystery_on_top, one_color, poured,
    replay, valid_path, Level,
};

verus! {

/// `p` and `q` are inverse permutations of `0..n`.
pub open spec fn is_perm(p: Seq<int>, q: Seq<int>, n: int) -> bool {
    &&& p.len() == n
    &&& q.len() == n
    &&& forall|i: int| 0 <= i < n ==> 0 <= #[trigger] p[i] < n && q[p[i]] == i
    &&& forall|j: int| 0 <= j < n ==> 0 <= #[trigger] q[j] < n && p[q[j]] == j
}

/// The level whose bottle `i` is bottle `p[i]` of `s`.
pub open spec fn permuted(s: Level, p: Seq<int>) -> Level {
    Seq::new(p.len(), |i: int| s[p[i]])
}

/// `y` holds the bottles of `x`, in some order.
pub open spec fn arranges(y: Level, x: Level) -> bool {
    exists|p: Seq<int>, q: Seq<int>| is_perm(p, q, x.len() as int) && y == permuted(x, p)
}

pub proof fn lemma_arranges_refl(x: Level)
    ensures
        arranges(x, x),
{
    let id = Seq::new(x.len(), |i: int| i);
    assert(is_perm(id, id, x.len() as int));
    assert(permuted(x, id) =~= x);
}

pub proof fn lemma_arranges_trans(z: Level, y: Level, x: Level)
    requires
        arranges(z, y),
        arranges(y, x),
    ensures
        arranges(z, x),
{
    let (p1, q1) = choose|p: Seq<int>, q: Seq<int>| is_perm(p, q, y.len() as int) && z == permuted(y, p);
    let (p2, q2) = choose|p: Seq<int>, q: Seq<int>| is_perm(p, q, x.len() as int) && y == permuted(x, p);
    let n = x.len() as int;
    let p = Seq::new(n as nat, |i: int| p2[p1[i]]);
    let q = Seq::new(n as nat, |j: int| q1[q2[j]]);
    assert(is_perm(p, q, n));
    assert(z =~= permuted(x, p));
}

/// Swapping two bottles arranges the level.
pub proof fn lemma_swap_arranges(x: Level, a: int, b: int)
    requires
        0 <= a < x.len(),
        0 <= b < x.len(),
    ensures
        arranges(x.update(a, x[b]).update(b, x[a]), x),
{
    let n = x.len() as int;
    let t = Seq::new(n as nat, |i: int| if i == a { b } else if i == b { a } else { i });
    assert(is_perm(t, t, n));
    assert(x.update(a, x[b]).update(b, x[a]) =~= permuted(x, t));
}

/// Moves of an arranged level are the moves of the level, with the bottles
/// renamed, and lead to the arranged results.
pub proof fn lemma_move_arranged(y: Level, x: Level, p: Seq<int>, q: Seq<int>, a: int, b: int)
    requires
        is_perm(p, q, x.len() as int),
        y == permuted(x, p),
        move_ok(y, a, b),
    ensures
        move_ok(x, p[a], p[b]),
        poured(y, a, b) == permuted(poured(x, p[a], p[b]), p),
{
    assert(p[a] != p[b]) by {
        if p[a] == p[b] {
            assert(q[p[a]] == a && q[p[b]] == b);
        }
    }
    assert(y[a] == x[p[a]] && y[b] == x[p[b]]);
    assert forall|i: int| 0 <= i < y.len() && i != a && i != b implies #[trigger] p[i] != p[a] && p[i] != p[b] by {
        assert(q[p[i]] == i);
        assert(q[p[a]] == a);
        assert(q[p[b]] == b);
    }
    assert(poured(y, a, b) =~= permuted(poured(x, p[a], p[b]), p));
}

pub proof fn lemma_all_done_arranged(y: Level, x: Level)
    requires
        arranges(y, x),
    ensures
        all_done(y) == all_done(x),
{
    let (p, q) = choose|p: Seq<int>, q: Seq<int>| is_perm(p, q, x.len() as int) && y == permuted(x, p);
    if all_done(y) {
        assert forall|j: int| 0 <= j < x.len() implies solved(#[trigger] x[j]) || x[j].len() == 0 by {
            assert(y[q[j]] == x[j]);
        }
    }
    if all_done(x) {
        assert forall|i: int| 0 <= i < y.len() implies solved(#[trigger] y[i]) || y[i].len() == 0 by {
            assert(y[i] == x[p[i]]);
        }
    }
}

pub proof fn lemma_mystery_arranged(y: Level, x: Level)
    requires
        arranges(y, x),
    ensures
        mystery_on_top(y) == mystery_on_top(x),
{
    let (p, q) = choose|p: Seq<int>, q: Seq<int>| is_perm(p, q, x.len() as int) && y == permuted(x, p);
    if mystery_on_top(y) {
        let i = choose|i: int| 0 <= i < y.len() && (#[trigger] y[i]).len() > 0 && y[i].last() == BottleColor::Mystery;
        assert(y[i] == x[p[i]]);
    }
    if mystery_on_top(x) {
        let j = choose|j: int| 0 <= j < x.len() && (#[trigger] x[j]).len() > 0 && x[j].last() == BottleColor::Mystery;
        assert(y[q[j]] == x[j]);
    }
}

proof fn lemma_one_color_amount(f: Seq<BottleColor>)
    requires
        one_color(f),
    ensures
        top_amount(f) == f.len(),
    decreases f.len(),
{
    if f.len() >= 2 {
        assert(one_color(f.drop_last())) by {
            assert forall|i: int| 0 <= i < f.drop_last().len() implies #[trigger] f.drop_last()[i] == f.drop_last()[0] by {
                assert(f[i] == f[0]);
            }
        }
        lemma_one_color_amount(f.drop_last());
        assert(f[f.len() - 2] == f[0] && f.last() == f[0]);
    }
}

/// Pouring a bottle of one colour, or a solved one, into an empty bottle only
/// swaps the two.
pub proof fn lemma_pour_into_empty_arranges(x: Level, a: int, b: int)
    requires
        move_ok(x, a, b),
        x[b].len() == 0,
        one_color(x[a]) || solved(x[a]),
    ensures
        arranges(poured(x, a, b), x),
{
    if solved(x[a]) {
        assert(one_color(x[a]));
    }
    lemma_one_color_amount(x[a]);
    let f = x[a];
    assert(x[b] + Seq::new(top_amount(f), |i: int| f.last()) =~= f) by {
        assert forall|i: int| 0 <= i < f.len() implies #[trigger] f[i] == f.last() by {
            assert(f[i] == f[0] && f[f.len() - 1] == f[0]);
        }
    }
    assert(f.subrange(0, f.len() - top_amount(f)) =~= x[b]);
    assert(poured(x, a, b) =~= x.update(a, x[b]).update(b, x[a]));
    lemma_swap_arranges(x, a, b);
}

/// The goal of a search: every bottle solved or empty, or, for discovery, a
/// mystery layer on top of a bottle.
pub open spec fn search_goal(mystery: bool, s: Level) -> bool {
    if mystery {
        mystery_on_top(s)
    } else {
        all_done(s)
    }
}

/// Every move from level `x` leads to a level of `seen`, or only arranges
/// the bottles of `x`.
pub open spec fn moves_stay(x: Level, seen: Seq<Level>) -> bool {
    forall|a: int, b: int|
        move_ok(x, a, b) ==> seen.contains(#[trigger] poured(x, a, b)) || arranges(poured(x, a, b), x)
}

/// The levels of `seen` from position `n0` on were explored: every move from
/// them stays among the levels seen; and from position `n1` on the goal does
/// not hold.
pub open spec fn explored_from(seen: Seq<Level>, n0: int, n1: int, mystery: bool) -> bool {
    &&& forall|k: int| n0 <= k < seen.len() ==> moves_stay(#[trigger] seen[k], seen)
    &&& forall|k: int| n1 <= k < seen.len() ==> !search_goal(mystery, #[trigger] seen[k])
}

/// Some level along the moves from `x`, the start included, holds the bottles
/// of one of the first `n0` levels seen.
pub open spec fn passes_seen(x: Level, moves: Seq<(usize, usize)>, seen: Seq<Level>, n0: int) -> bool {
    exists|i: int, j: int|
        0 <= i <= moves.len() && 0 <= j < n0 && #[trigger] arranges(replay(x, moves.take(i)), seen[j])
}

/// From a level holding the bottles of an explored level, a sequence of moves
/// that ends where the goal holds passes through a level holding the bottles
/// of a level seen before the search, or ends holding the bottles of the
/// first explored level.
pub proof fn lemma_no_escape(
    seen: Seq<Level>,
    n0: int,
    n1: int,
    mystery: bool,
    x: Level,
    k: int,
    moves: Seq<(usize, usize)>,
)
    requires
        0 <= n0 <= n1 <= n0 + 1,
        explored_from(seen, n0, n1, mystery),
        0 <= k < seen.len(),
        arranges(x, seen[k]),
        valid_path(x, moves),
        search_goal(mystery, replay(x, moves)),
    ensures
        passes_seen(x, moves, seen, n0) || (n0 < seen.len() && arranges(replay(x, moves), seen[n0])),
    decreases moves.len(),
{
    if k < n0 {
        assert(moves.take(0) =~= Seq::<(usize, usize)>::empty());
        assert(arranges(replay(x, moves.take(0)), seen[k]));
        return;
    }
    if moves.len() == 0 {
        assert(replay(x, moves) == x);
        lemma_all_done_arranged(x, seen[k]);
        lemma_mystery_arranged(x, seen[k]);
        if k >= n1 {
            assert(!search_goal(mystery, seen[k]));
        }
        return;
    }
    let (p, q) = choose|p: Seq<int>, q: Seq<int>| is_perm(p, q, seen[k].len() as int) && x == permuted(seen[k], p);
    let a = moves[0].0 as int;
    let b = moves[0].1 as int;
    lemma_move_arranged(x, seen[k], p, q, a, b);
    let y = poured(seen[k], p[a], p[b]);
    let x1 = poured(x, a, b);
    let rest = moves.drop_first();
    assert(x1 == permuted(y, p));
    assert(arranges(x1, y)) by {
        assert(seen[k].len() == y.len());
    }
    assert(moves_stay(seen[k], seen));
    assert(replay(x, moves) == replay(x1, rest));
    let k1 = if seen.contains(y) {
        let j = choose|j: int| 0 <= j < seen.len() && seen[j] == y;
        j
    } else {
        lemma_arranges_trans(x1, y, seen[k]);
        k
    };
    assert(arranges(x1, seen[k1]));
    lemma_no_escape(seen, n0, n1, mystery, x1, k1, rest);
    if passes_seen(x1, rest, seen, n0) {
        let (i, j) = choose|i: int, j: int|
            0 <= i <= rest.len() && 0 <= j < n0 && #[trigger] arranges(replay(x1, rest.take(i)), seen[j]);
        assert(moves.take(i + 1).drop_first() =~= rest.take(i));
        assert(moves.take(i + 1)[0] == moves[0]);
        assert(replay(x, moves.take(i + 1)) == replay(x1, rest.take(i)));
        assert(arranges(replay(x, moves.take(i + 1)), seen[j]));
    }
}

proof fn lemma_candidates_upto_contain(s: Level, seen: Seq<Level>, k: int, a: int, b: int)
    requires
        s.len() > 0,
        0 <= a < s.len(),
        0 <= b < s.len(),
        a * s.len() + b < k,
        candidate(s, seen, a, b),
    ensures
        candidates_upto(s, seen, k).contains((a, b)),
    decreases k,
{
    let n = s.len() as int;
    if k - 1 == a * n + b {
        lemma_fundamental_div_mod_converse(k - 1, n, a, b);
        let c = candidates_upto(s, seen, k);
        assert(c[c.len() - 1] == (a, b));
    } else {
        lemma_candidates_upto_contain(s, seen, k - 1, a, b);
        let c0 = candidates_upto(s, seen, k - 1);
        let j = choose|j: int| 0 <= j < c0.len() && c0[j] == (a, b);
        assert(candidates_upto(s, seen, k)[j] == (a, b));
    }
}

/// Each move the generator left out of level `s` leads to a level of
/// `seen`, or only swaps two bottles.
pub proof fn lemma_stays_from_candidates(s: Level, seen: Seq<Level>, later: Seq<Level>)
    requires
        later.len() >= seen.len(),
        later.subrange(0, seen.len() as int) == seen,
        forall|i: int|
            0 <= i < all_candidates(s, seen).len() ==> later.contains(
                poured(s, (#[trigger] all_candidates(s, seen)[i]).0, all_candidates(s, seen)[i].1),
            ),
    ensures
        moves_stay(s, later),
{
    assert forall|a: int, b: int| move_ok(s, a, b) implies later.contains(#[trigger] poured(s, a, b))
        || arranges(poured(s, a, b), s) by {
        let n = s.len() as int;
        if candidate(s, seen, a, b) {
            assert(a * n + b < n * n) by (nonlinear_arith)
                requires
                    0 <= a < n,
                    0 <= b < n,
            ;
            lemma_candidates_upto_contain(s, seen, n * n, a, b);
            let c = all_candidates(s, seen);
            let i = choose|i: int| 0 <= i < c.len() && c[i] == (a, b);
            assert(later.contains(poured(s, c[i].0, c[i].1)));
        } else if seen.contains(poured(s, a, b)) {
            let j = choose|j: int| 0 <= j < seen.len() && seen[j] == poured(s, a, b);
            assert(later[j] == seen[j]);
        } else if solved(s[b]) || s[a].len() == 0 {
            assert(false);
        } else {
            if solved(s[a]) && s[b].len() > 0 {
                lemma_top_amount_bounds(s[a]);
                assert(one_color(s[a])) by {
                    assert forall|i: int| 0 <= i < s[a].len() implies #[trigger] s[a][i] == s[a][0] by {}
                }
                lemma_one_color_amount(s[a]);
                assert(false);
            }
            lemma_pour_into_empty_arranges(s, a, b);
        }
    }
}

/// What stays among the levels seen stays there as more are seen.
pub proof fn lemma_stays_grow(x: Level, seen: Seq<Level>, later: Seq<Level>)
    requires
        moves_stay(x, seen),
        later.len() >= seen.len(),
        later.subrange(0, seen.len() as int) == seen,
    ensures
        moves_stay(x, later),
{
    assert forall|a: int, b: int| move_ok(x, a, b) implies later.contains(#[trigger] poured(x, a, b))
        || arranges(poured(x, a, b), x) by {
        if seen.contains(poured(x, a, b)) {
            let j = choose|j: int| 0 <= j < seen.len() && seen[j] == poured(x, a, b);
            assert(later[j] == seen[j]);
        }
    }
}

/// Exploring more levels after those explored keeps them explored.
pub proof fn lemma_explored_extend(
    v1: Seq<Level>,
    v2: Seq<Level>,
    n0: int,
    n1: int,
    m0: int,
    mystery: bool,
)
    requires
        0 <= n0 <= n1 <= v1.len(),
        m0 == v1.len(),
        explored_from(v1, n0, n1, mystery),
        explored_from(v2, m0, m0, mystery),
        v2.len() >= v1.len(),
        v2.subrange(0, v1.len() as int) == v1,
    ensures
        explored_from(v2, n0, n1, mystery),
{
    assert forall|k: int| n0 <= k < v2.len() implies moves_stay(#[trigger] v2[k], v2) by {
        if k < v1.len() {
            assert(v2[k] == v1[k]);
            lemma_stays_grow(v1[k], v1, v2);
        }
    }
    assert forall|k: int| n1 <= k < v2.len() implies !search_goal(mystery, #[trigger] v2[k]) by {
        if k < v1.len() {
            assert(v2[k] == v1[k]);
        }
    }
}

} // verus!
