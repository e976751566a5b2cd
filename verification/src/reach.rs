//! Levels whose state keys agree hold the same bottles in some order, and
//! play alike: the rules read only the colours of a bottle and whether it
//! is locked, not its place, its click position or its mystery marks, as
//! long as no layer carries a mystery mark.
use vstd::prelude::*;

use crate::bottle::{
    colors_of, lemma_top_run_bounds, same_below, top_run, v_can_fill, v_count, v_locked, v_poured_into, v_poured_out,
    v_solved, v_solved_color, v_top_fill, v_unlocked, BottleView, HiddenRequirement, Layer,
    FULL_BOTTLE_COUNT,
};
use crate::classic::reach::is_perm;
use crate::color::BottleColor;
use crate::rules::{
    all_done, apply_move, capacity_ok, hidden_empty_count, lemma_move_keeps_capacity,
    lemma_unlock_keeps_layers, move_ok, solved_colors, step, unlock_solved, unlockable,
};
use crate::solver::{
    candidate, enc_bottle, enc_color, enc_colors, enc_requirement, filter_ok, goal_met,
    lemma_state_key_same_bottles, replay, search_exhausted, single_color, state_key, valid_path,
    MoveView, SearchGoal, StateFilter,
};

verus! {

/// The hidden requirement as far as the rules read it: locked behind a
/// colour, or not locked.
pub open spec fn rule_requirement(h: HiddenRequirement) -> HiddenRequirement {
    match h {
        HiddenRequirement::Locked(c) => HiddenRequirement::Locked(c),
        _ => HiddenRequirement::NoRequirement,
    }
}

/// What the rules read of a bottle: its colours and its lock.
pub open spec fn rule_view(v: BottleView) -> (Seq<BottleColor>, HiddenRequirement) {
    (colors_of(v.0), rule_requirement(v.1))
}

/// Bottle `i` of `x` reads as bottle `p[i]` of `y`.
pub open spec fn alike_by(x: Seq<BottleView>, y: Seq<BottleView>, p: Seq<int>) -> bool {
    &&& x.len() == y.len()
    &&& forall|i: int| 0 <= i < x.len() ==> rule_view(#[trigger] x[i]) == rule_view(y[p[i]])
}

/// `x` holds the bottles of `y` in some order, as far as the rules read them.
pub open spec fn alike(x: Seq<BottleView>, y: Seq<BottleView>) -> bool {
    exists|p: Seq<int>, q: Seq<int>| is_perm(p, q, x.len() as int) && alike_by(x, y, p)
}

/// A sequence that is another one in the order of a permutation holds the
/// same elements.
pub proof fn lemma_perm_multiset<A>(a: Seq<A>, b: Seq<A>, p: Seq<int>, q: Seq<int>)
    requires
        a.len() == b.len(),
        is_perm(p, q, a.len() as int),
        forall|i: int| 0 <= i < a.len() ==> a[i] == b[#[trigger] p[i]],
    ensures
        a.to_multiset() == b.to_multiset(),
    decreases a.len(),
{
    broadcast use vstd::multiset::group_multiset_axioms;

    let n = a.len() as int;
    if n == 0 {
        assert(a =~= Seq::<A>::empty());
        assert(b =~= Seq::<A>::empty());
    } else {
        let k = p[n - 1];
        let a1 = a.drop_last();
        let b1 = b.remove(k);
        let p1 = Seq::new((n - 1) as nat, |i: int| if p[i] < k { p[i] } else { p[i] - 1 });
        let q1 = Seq::new((n - 1) as nat, |j: int| if j < k { q[j] } else { q[j + 1] });
        assert forall|i: int| 0 <= i < n - 1 implies 0 <= #[trigger] p1[i] < n - 1 && q1[p1[i]] == i by {
            assert(p[i] != k) by {
                assert(q[p[i]] == i && q[k] == n - 1);
            }
        }
        assert forall|j: int| 0 <= j < n - 1 implies 0 <= #[trigger] q1[j] < n - 1 && p1[q1[j]] == j by {
            let jj = if j < k { j } else { j + 1 };
            assert(q[jj] != n - 1) by {
                assert(p[q[jj]] == jj);
            }
        }
        assert(is_perm(p1, q1, n - 1));
        assert forall|i: int| 0 <= i < a1.len() implies a1[i] == b1[#[trigger] p1[i]] by {
            assert(a[i] == b[p[i]]);
            assert(p[i] != k) by {
                assert(q[p[i]] == i && q[k] == n - 1);
            }
        }
        lemma_perm_multiset(a1, b1, p1, q1);
        assert(a =~= a1.push(a[n - 1]));
        vstd::seq_lib::to_multiset_build(a1, a[n - 1]);
        vstd::seq_lib::to_multiset_remove(b, k);
        vstd::seq_lib::to_multiset_contains(b, b[k]);
        assert(a.to_multiset() =~= b.to_multiset());
    }
}

/// Two sequences that hold the same elements are one another in the order
/// of some permutation.
pub proof fn lemma_multiset_perm<A>(a: Seq<A>, b: Seq<A>)
    requires
        a.to_multiset() == b.to_multiset(),
    ensures
        a.len() == b.len(),
        exists|p: Seq<int>, q: Seq<int>|
            is_perm(p, q, a.len() as int) && forall|i: int| 0 <= i < a.len() ==> a[i] == b[#[trigger] p[i]],
    decreases a.len(),
{
    broadcast use vstd::multiset::group_multiset_axioms;
    broadcast use vstd::seq_lib::group_to_multiset_ensures;

    vstd::seq_lib::to_multiset_len(a);
    vstd::seq_lib::to_multiset_len(b);
    let n = a.len() as int;
    if n == 0 {
        assert(b.len() == 0);
        let e = Seq::<int>::empty();
        assert(is_perm(e, e, 0));
    } else {
        let x = a[n - 1];
        assert(a.contains(x));
        assert(b.to_multiset().count(x) > 0);
        assert(b.contains(x));
        let k = choose|k: int| 0 <= k < b.len() && b[k] == x;
        let a1 = a.drop_last();
        let b1 = b.remove(k);
        assert(a =~= a1.push(x));
        vstd::seq_lib::to_multiset_build(a1, x);
        vstd::seq_lib::to_multiset_remove(b, k);
        assert(a1.to_multiset() =~= b1.to_multiset());
        lemma_multiset_perm(a1, b1);
        let (p1, q1) = choose|p: Seq<int>, q: Seq<int>|
            is_perm(p, q, a1.len() as int) && forall|i: int| 0 <= i < a1.len() ==> a1[i] == b1[#[trigger] p[i]];
        let p = Seq::new(n as nat, |i: int| if i == n - 1 { k } else if p1[i] < k { p1[i] } else { p1[i] + 1 });
        let q = Seq::new(
            n as nat,
            |j: int| if j == k { n - 1 } else if j < k { q1[j] } else { q1[j - 1] },
        );
        assert forall|i: int| 0 <= i < n implies 0 <= #[trigger] p[i] < n && q[p[i]] == i by {
            if i < n - 1 {
                assert(q1[p1[i]] == i);
            }
        }
        assert forall|j: int| 0 <= j < n implies 0 <= #[trigger] q[j] < n && p[q[j]] == j by {
            if j < k {
                assert(p1[q1[j]] == j);
            } else if j > k {
                assert(p1[q1[j - 1]] == j - 1);
            }
        }
        assert(is_perm(p, q, n));
        assert forall|i: int| 0 <= i < a.len() implies a[i] == b[#[trigger] p[i]] by {
            if i < n - 1 {
                assert(a[i] == a1[i]);
                assert(a1[i] == b1[p1[i]]);
            }
        }
    }
}

proof fn lemma_enc_color_injective(c: BottleColor, d: BottleColor)
    requires
        enc_color(c) == enc_color(d),
    ensures
        c == d,
{
    assert(enc_color(c)[0] == enc_color(d)[0]);
    match c {
        BottleColor::Fill(b, g, r) => {
            assert(enc_color(c)[1] == enc_color(d)[1]);
            assert(enc_color(c)[2] == enc_color(d)[2]);
            assert(enc_color(c)[3] == enc_color(d)[3]);
        },
        _ => {},
    }
}

proof fn lemma_enc_colors_len(cs: Seq<BottleColor>)
    ensures
        enc_colors(cs).len() == 4 * cs.len(),
    decreases cs.len(),
{
    if cs.len() > 0 {
        lemma_enc_colors_len(cs.drop_last());
    }
}

proof fn lemma_enc_colors_injective(cs: Seq<BottleColor>, ds: Seq<BottleColor>)
    requires
        enc_colors(cs) == enc_colors(ds),
    ensures
        cs == ds,
    decreases cs.len(),
{
    lemma_enc_colors_len(cs);
    lemma_enc_colors_len(ds);
    if cs.len() > 0 {
        let e = enc_colors(cs);
        let m = e.len() - 4;
        lemma_enc_colors_len(cs.drop_last());
        lemma_enc_colors_len(ds.drop_last());
        assert(enc_colors(cs.drop_last()) =~= e.subrange(0, m));
        assert(enc_colors(ds.drop_last()) =~= e.subrange(0, m));
        assert(enc_color(cs.last()) =~= e.subrange(m, e.len() as int));
        assert(enc_color(ds.last()) =~= e.subrange(m, e.len() as int));
        lemma_enc_color_injective(cs.last(), ds.last());
        lemma_enc_colors_injective(cs.drop_last(), ds.drop_last());
        assert(cs =~= cs.drop_last().push(cs.last()));
        assert(ds =~= ds.drop_last().push(ds.last()));
    } else {
        assert(ds.len() == 0);
        assert(cs =~= ds);
    }
}

/// Bottles with the same code have the same hidden requirement and colours.
proof fn lemma_enc_bottle_injective(v: BottleView, w: BottleView)
    requires
        enc_bottle(v) == enc_bottle(w),
    ensures
        v.1 == w.1,
        colors_of(v.0) == colors_of(w.0),
{
    let e = enc_bottle(v);
    assert(enc_requirement(v.1).len() == 5 && enc_requirement(w.1).len() == 5);
    assert(enc_requirement(v.1) =~= e.subrange(0, 5));
    assert(enc_requirement(w.1) =~= e.subrange(0, 5));
    assert(enc_colors(colors_of(v.0)) =~= e.subrange(5, e.len() as int));
    assert(enc_colors(colors_of(w.0)) =~= e.subrange(5, e.len() as int));
    lemma_enc_colors_injective(colors_of(v.0), colors_of(w.0));
    let rv = enc_requirement(v.1);
    let rw = enc_requirement(w.1);
    assert(rv[0] == rw[0]);
    match v.1 {
        HiddenRequirement::Locked(c) => {
            let d = w.1->Locked_0;
            assert(enc_color(c) =~= rv.subrange(1, 5));
            assert(enc_color(d) =~= rw.subrange(1, 5));
            lemma_enc_color_injective(c, d);
        },
        HiddenRequirement::Unlocked(c) => {
            let d = w.1->Unlocked_0;
            assert(enc_color(c) =~= rv.subrange(1, 5));
            assert(enc_color(d) =~= rw.subrange(1, 5));
            lemma_enc_color_injective(c, d);
        },
        _ => {},
    }
}

/// What a state key reads of each bottle: its hidden requirement and its
/// colours.
pub open spec fn bottle_contents(s: Seq<BottleView>) -> Seq<(HiddenRequirement, Seq<BottleColor>)> {
    s.map_values(|v: BottleView| (v.1, colors_of(v.0)))
}

/// Two levels have the same state key exactly when they hold the same
/// bottles by hidden requirement and colours, counted with multiplicity and
/// in any order.
pub proof fn lemma_state_key_contents(a: Seq<BottleView>, b: Seq<BottleView>)
    ensures
        (state_key(a) == state_key(b)) == (bottle_contents(a).to_multiset() == bottle_contents(b).to_multiset()),
{
    let ca = a.map_values(|v: BottleView| enc_bottle(v));
    let cb = b.map_values(|v: BottleView| enc_bottle(v));
    let ta = bottle_contents(a);
    let tb = bottle_contents(b);
    lemma_state_key_same_bottles(a, b);
    if ta.to_multiset() == tb.to_multiset() {
        lemma_multiset_perm(ta, tb);
        let (p, q) = choose|p: Seq<int>, q: Seq<int>|
            is_perm(p, q, ta.len() as int) && forall|i: int| 0 <= i < ta.len() ==> ta[i] == tb[#[trigger] p[i]];
        assert forall|i: int| 0 <= i < ca.len() implies ca[i] == cb[#[trigger] p[i]] by {
            assert(ta[i] == tb[p[i]]);
        }
        lemma_perm_multiset(ca, cb, p, q);
    }
    if state_key(a) == state_key(b) {
        lemma_multiset_perm(ca, cb);
        let (p, q) = choose|p: Seq<int>, q: Seq<int>|
            is_perm(p, q, ca.len() as int) && forall|i: int| 0 <= i < ca.len() ==> ca[i] == cb[#[trigger] p[i]];
        assert forall|i: int| 0 <= i < ta.len() implies ta[i] == tb[#[trigger] p[i]] by {
            assert(ca[i] == cb[p[i]]);
            lemma_enc_bottle_injective(a[i], b[p[i]]);
        }
        lemma_perm_multiset(ta, tb, p, q);
    }
}

/// Reordering the bottles of a level keeps its state key.
pub proof fn lemma_state_key_reorder(a: Seq<BottleView>, b: Seq<BottleView>, p: Seq<int>, q: Seq<int>)
    requires
        a.len() == b.len(),
        is_perm(p, q, a.len() as int),
        forall|i: int| 0 <= i < a.len() ==> a[i] == b[#[trigger] p[i]],
    ensures
        state_key(a) == state_key(b),
{
    let ta = bottle_contents(a);
    let tb = bottle_contents(b);
    assert forall|i: int| 0 <= i < ta.len() implies ta[i] == tb[#[trigger] p[i]] by {
        assert(a[i] == b[p[i]]);
    }
    lemma_perm_multiset(ta, tb, p, q);
    lemma_state_key_contents(a, b);
}

/// Levels with the same state key are alike.
pub proof fn lemma_same_key_alike(x: Seq<BottleView>, y: Seq<BottleView>)
    requires
        state_key(x) == state_key(y),
    ensures
        alike(x, y),
{
    lemma_state_key_same_bottles(x, y);
    let a = x.map_values(|v: BottleView| enc_bottle(v));
    let b = y.map_values(|v: BottleView| enc_bottle(v));
    lemma_multiset_perm(a, b);
    let (p, q) = choose|p: Seq<int>, q: Seq<int>|
        is_perm(p, q, a.len() as int) && forall|i: int| 0 <= i < a.len() ==> a[i] == b[#[trigger] p[i]];
    assert forall|i: int| 0 <= i < x.len() implies rule_view(#[trigger] x[i]) == rule_view(y[p[i]]) by {
        assert(a[i] == b[p[i]]);
        lemma_enc_bottle_injective(x[i], y[p[i]]);
    }
    assert(alike_by(x, y, p));
}

/// No layer of the bottle carries a mystery mark.
pub open spec fn unmarked(f: Seq<Layer>) -> bool {
    forall|j: int| 0 <= j < f.len() ==> !(#[trigger] f[j]).1
}

/// A plain level in which no locked bottle waits for a colour that is
/// solved.
pub open spec fn tidy(s: Seq<BottleView>) -> bool {
    &&& plain_level(s)
    &&& forall|i: int| 0 <= i < s.len() ==> !unlockable(s, #[trigger] s[i])
}

proof fn lemma_colors_drop_last(f: Seq<Layer>)
    requires
        f.len() > 0,
    ensures
        colors_of(f.drop_last()) == colors_of(f).drop_last(),
        colors_of(f).last() == f.last().0,
{
    assert(colors_of(f.drop_last()) =~= colors_of(f).drop_last());
}

proof fn lemma_same_below_alike(f: Seq<Layer>, g: Seq<Layer>, c: BottleColor)
    requires
        colors_of(f) == colors_of(g),
        unmarked(f),
        unmarked(g),
    ensures
        same_below(f, c) == same_below(g, c),
    decreases f.len(),
{
    assert(f.len() == colors_of(f).len() && g.len() == colors_of(g).len());
    if f.len() > 0 {
        lemma_colors_drop_last(f);
        lemma_colors_drop_last(g);
        assert(!f.last().1 && !g.last().1) by {
            assert(f.last() == f[f.len() - 1]);
            assert(g.last() == g[g.len() - 1]);
        }
        lemma_same_below_alike(f.drop_last(), g.drop_last(), c);
    }
}

proof fn lemma_top_run_alike(f: Seq<Layer>, g: Seq<Layer>)
    requires
        colors_of(f) == colors_of(g),
        unmarked(f),
        unmarked(g),
    ensures
        top_run(f) == top_run(g),
{
    assert(f.len() == colors_of(f).len() && g.len() == colors_of(g).len());
    if f.len() > 0 {
        lemma_colors_drop_last(f);
        lemma_colors_drop_last(g);
        assert(!f.last().1 && !g.last().1) by {
            assert(f.last() == f[f.len() - 1]);
            assert(g.last() == g[g.len() - 1]);
        }
        lemma_same_below_alike(f.drop_last(), g.drop_last(), f.last().0);
    }
}

/// Bottles the rules read alike are locked, counted, solved and topped alike.
proof fn lemma_bottle_alike(v: BottleView, w: BottleView)
    requires
        rule_view(v) == rule_view(w),
    ensures
        v_locked(v) == v_locked(w),
        v_count(v) == v_count(w),
        v_solved(v) == v_solved(w),
        v_solved_color(v) == v_solved_color(w),
        single_color(v) == single_color(w),
        v_top_fill(v) is Some == v_top_fill(w) is Some,
        v_top_fill(v) is Some ==> (v_top_fill(v)->0).1 == (v_top_fill(w)->0).1,
        rule_view(v_unlocked(v)) == rule_view(v_unlocked(w)),
        v_locked(v) ==> v.1 == w.1,
{
    assert(v.0.len() == colors_of(v.0).len() && w.0.len() == colors_of(w.0).len());
    assert forall|i: int| 0 <= i < v.0.len() implies (#[trigger] v.0[i]).0 == w.0[i].0 by {
        assert(colors_of(v.0)[i] == colors_of(w.0)[i]);
    }
    if v.0.len() > 0 {
        assert(v.0.last() == v.0[v.0.len() - 1]);
        assert(w.0.last() == w.0[w.0.len() - 1]);
        assert(v.0[0].0 == w.0[0].0);
    }
    assert(v_solved(v) == v_solved(w)) by {
        if v_solved(v) {
            assert forall|i: int| 0 <= i < v_count(w) implies #[trigger] w.0[i].0 == w.0[0].0 && w.0[i].0
                != BottleColor::Mystery by {
                assert(v.0[i].0 == v.0[0].0);
            }
        }
        if v_solved(w) {
            assert forall|i: int| 0 <= i < v_count(v) implies #[trigger] v.0[i].0 == v.0[0].0 && v.0[i].0
                != BottleColor::Mystery by {
                assert(w.0[i].0 == w.0[0].0);
            }
        }
    }
    assert(single_color(v) == single_color(w)) by {
        if single_color(v) {
            let i = choose|i: int| 0 <= i < v.0.len() && (#[trigger] v.0[i]).0 != BottleColor::Empty;
            assert(w.0[i].0 != BottleColor::Empty);
            assert forall|i: int, j: int|
                0 <= i < w.0.len() && 0 <= j < w.0.len() && (#[trigger] w.0[i]).0 != BottleColor::Empty
                    && (#[trigger] w.0[j]).0 != BottleColor::Empty implies w.0[i].0 == w.0[j].0 by {
                assert(v.0[i].0 == w.0[i].0 && v.0[j].0 == w.0[j].0);
            }
            assert forall|i: int|
                0 <= i < w.0.len() && (#[trigger] w.0[i]).0 != BottleColor::Empty implies w.0[i].0
                    != BottleColor::Mystery by {
                assert(v.0[i].0 == w.0[i].0);
            }
        }
        if single_color(w) {
            let i = choose|i: int| 0 <= i < w.0.len() && (#[trigger] w.0[i]).0 != BottleColor::Empty;
            assert(v.0[i].0 != BottleColor::Empty);
            assert forall|i: int, j: int|
                0 <= i < v.0.len() && 0 <= j < v.0.len() && (#[trigger] v.0[i]).0 != BottleColor::Empty
                    && (#[trigger] v.0[j]).0 != BottleColor::Empty implies v.0[i].0 == v.0[j].0 by {
                assert(v.0[i].0 == w.0[i].0 && v.0[j].0 == w.0[j].0);
            }
            assert forall|i: int|
                0 <= i < v.0.len() && (#[trigger] v.0[i]).0 != BottleColor::Empty implies v.0[i].0
                    != BottleColor::Mystery by {
                assert(v.0[i].0 == w.0[i].0);
            }
        }
    }
}

/// A pour between bottles the rules read alike, with no mystery marks, is
/// allowed alike and leaves bottles the rules read alike.
proof fn lemma_pour_alike(v1: BottleView, v2: BottleView, w1: BottleView, w2: BottleView)
    requires
        rule_view(v1) == rule_view(w1),
        rule_view(v2) == rule_view(w2),
        unmarked(v1.0),
        unmarked(w1.0),
    ensures
        v_can_fill(v2, v1) == v_can_fill(w2, w1),
        v_can_fill(v2, v1) ==> rule_view(v_poured_into(v2, v1)) == rule_view(v_poured_into(w2, w1)),
        v_can_fill(v2, v1) ==> rule_view(v_poured_out(v1)) == rule_view(v_poured_out(w1)),
{
    lemma_bottle_alike(v1, w1);
    lemma_bottle_alike(v2, w2);
    lemma_top_run_alike(v1.0, w1.0);
    lemma_top_run_bounds(v1.0);
    lemma_top_run_bounds(w1.0);
    if v1.0.len() > 0 {
        lemma_colors_drop_last(v1.0);
        lemma_colors_drop_last(w1.0);
    }
    if v2.0.len() > 0 {
        lemma_colors_drop_last(v2.0);
        lemma_colors_drop_last(w2.0);
    }
    if v_can_fill(v2, v1) {
        let run = top_run(v1.0);
        let c = v1.0.last().0;
        assert(colors_of(v_poured_into(v2, v1).0) =~= colors_of(v2.0) + Seq::new(run, |i: int| c));
        assert(colors_of(v_poured_into(w2, w1).0) =~= colors_of(w2.0) + Seq::new(run, |i: int| c));
        assert(colors_of(v_poured_out(v1).0) =~= colors_of(v1.0).subrange(0, v1.0.len() - run));
        assert(colors_of(v_poured_out(w1).0) =~= colors_of(w1.0).subrange(0, w1.0.len() - run));
    }
}

/// Moves of alike levels, without mystery marks, are allowed and offered
/// alike, with the bottles renamed, and lead to alike levels.
pub proof fn lemma_move_alike(x: Seq<BottleView>, y: Seq<BottleView>, p: Seq<int>, q: Seq<int>, a: int, b: int)
    requires
        is_perm(p, q, x.len() as int),
        alike_by(x, y, p),
        tidy(x),
        tidy(y),
        0 <= a < x.len(),
        0 <= b < x.len(),
    ensures
        move_ok(x, a, b) ==> move_ok(y, p[a], p[b]),
        candidate(x, a, b) ==> candidate(y, p[a], p[b]),
        move_ok(x, a, b) ==> alike_by(apply_move(x, a, b), apply_move(y, p[a], p[b]), p),
{
    let pa = p[a];
    let pb = p[b];
    assert(rule_view(x[a]) == rule_view(y[pa]));
    assert(rule_view(x[b]) == rule_view(y[pb]));
    assert(unmarked(x[a].0)) by {
        assert forall|j: int| 0 <= j < x[a].0.len() implies !(#[trigger] x[a].0[j]).1 by {
            assert(!x[a].0[j].1);
        }
    }
    assert(unmarked(y[pa].0)) by {
        assert forall|j: int| 0 <= j < y[pa].0.len() implies !(#[trigger] y[pa].0[j]).1 by {
            assert(!y[pa].0[j].1);
        }
    }
    lemma_pour_alike(x[a], x[b], y[pa], y[pb]);
    lemma_bottle_alike(x[a], y[pa]);
    lemma_bottle_alike(x[b], y[pb]);
    if a != b {
        assert(pa != pb) by {
            assert(q[pa] == a && q[pb] == b);
        }
    }
    if move_ok(x, a, b) {
        let tx = apply_move(x, a, b);
        let ty = apply_move(y, pa, pb);
        assert forall|i: int| 0 <= i < tx.len() implies rule_view(#[trigger] tx[i]) == rule_view(ty[p[i]]) by {
            if i != a && i != b {
                assert(p[i] != pa && p[i] != pb) by {
                    assert(q[p[i]] == i);
                }
                assert(rule_view(x[i]) == rule_view(y[p[i]]));
            }
        }
    }
}

/// Alike levels reveal alike.
pub proof fn lemma_unlock_alike(x: Seq<BottleView>, y: Seq<BottleView>, p: Seq<int>, q: Seq<int>)
    requires
        is_perm(p, q, x.len() as int),
        alike_by(x, y, p),
    ensures
        solved_colors(x) == solved_colors(y),
        alike_by(unlock_solved(x), unlock_solved(y), p),
{
    assert forall|c: BottleColor| solved_colors(x).contains(c) == solved_colors(y).contains(c) by {
        if solved_colors(x).contains(c) {
            let i = choose|i: int| 0 <= i < x.len() && v_solved_color(x[i]) == Some(c);
            assert(rule_view(x[i]) == rule_view(y[p[i]]));
            lemma_bottle_alike(x[i], y[p[i]]);
        }
        if solved_colors(y).contains(c) {
            let j = choose|j: int| 0 <= j < y.len() && v_solved_color(y[j]) == Some(c);
            assert(rule_view(x[q[j]]) == rule_view(y[j]));
            lemma_bottle_alike(x[q[j]], y[j]);
        }
    }
    assert(solved_colors(x) =~= solved_colors(y));
    let ux = unlock_solved(x);
    let uy = unlock_solved(y);
    assert forall|i: int| 0 <= i < ux.len() implies rule_view(#[trigger] ux[i]) == rule_view(uy[p[i]]) by {
        assert(rule_view(x[i]) == rule_view(y[p[i]]));
        lemma_bottle_alike(x[i], y[p[i]]);
        assert(unlockable(x, x[i]) == unlockable(y, y[p[i]]));
    }
}

/// A goal met by a level is met by an alike level, after any number of
/// moves when the goal asks for moves.
pub proof fn lemma_goal_alike(
    x: Seq<BottleView>,
    y: Seq<BottleView>,
    p: Seq<int>,
    q: Seq<int>,
    goal: SearchGoal,
    n: nat,
    m: nat,
)
    requires
        is_perm(p, q, x.len() as int),
        alike_by(x, y, p),
        goal_met(goal, x, n),
        goal is AllSolved || m > 0,
    ensures
        goal_met(goal, y, m),
{
    match goal {
        SearchGoal::AllSolved => {
            assert forall|j: int| 0 <= j < y.len() implies v_solved(#[trigger] y[j]) || (v_count(y[j]) == 0
                && !v_locked(y[j])) by {
                assert(rule_view(x[q[j]]) == rule_view(y[j]));
                lemma_bottle_alike(x[q[j]], y[j]);
                assert(v_solved(x[q[j]]) || (v_count(x[q[j]]) == 0 && !v_locked(x[q[j]])));
            }
        },
        SearchGoal::UnlockHidden(reqs) => {
            let i = choose|i: int|
                0 <= i < x.len() && (#[trigger] v_solved_color(x[i])) is Some && reqs@.contains(
                    v_solved_color(x[i])->0,
                );
            assert(rule_view(x[i]) == rule_view(y[p[i]]));
            lemma_bottle_alike(x[i], y[p[i]]);
            assert(v_solved_color(y[p[i]]) is Some);
        },
        SearchGoal::RevealMystery => {
            let i = choose|i: int|
                0 <= i < x.len() && (#[trigger] v_top_fill(x[i])) is Some && (v_top_fill(x[i])->0).1
                    == BottleColor::Mystery;
            assert(rule_view(x[i]) == rule_view(y[p[i]]));
            lemma_bottle_alike(x[i], y[p[i]]);
            assert(v_top_fill(y[p[i]]) is Some);
        },
    }
}

/// Whether each bottle is hidden and shows nothing yet.
spec fn hidden_flags(s: Seq<BottleView>) -> Seq<bool> {
    s.map_values(|v: BottleView| v_locked(v) && v_count(v) == 0)
}

proof fn lemma_hidden_count_flags(s: Seq<BottleView>)
    ensures
        hidden_empty_count(s) == hidden_flags(s).to_multiset().count(true),
    decreases s.len(),
{
    broadcast use vstd::multiset::group_multiset_axioms;
    broadcast use vstd::multiset::group_multiset_properties;

    if s.len() == 0 {
        assert(hidden_flags(s) =~= Seq::<bool>::empty());
        vstd::seq_lib::to_multiset_len(hidden_flags(s));
        assert(hidden_flags(s).to_multiset() =~= vstd::multiset::Multiset::empty());
    } else {
        lemma_hidden_count_flags(s.drop_last());
        assert(hidden_flags(s) =~= hidden_flags(s.drop_last()).push(v_locked(s.last()) && v_count(s.last()) == 0));
        vstd::seq_lib::to_multiset_build(hidden_flags(s.drop_last()), v_locked(s.last()) && v_count(s.last()) == 0);
    }
}

/// Alike levels have as many hidden, empty bottles.
pub proof fn lemma_hidden_count_alike(x: Seq<BottleView>, y: Seq<BottleView>, p: Seq<int>, q: Seq<int>)
    requires
        is_perm(p, q, x.len() as int),
        alike_by(x, y, p),
    ensures
        hidden_empty_count(x) == hidden_empty_count(y),
{
    let fx = hidden_flags(x);
    let fy = hidden_flags(y);
    assert forall|i: int| 0 <= i < fx.len() implies fx[i] == fy[#[trigger] p[i]] by {
        assert(rule_view(x[i]) == rule_view(y[p[i]]));
        lemma_bottle_alike(x[i], y[p[i]]);
    }
    lemma_perm_multiset(fx, fy, p, q);
    lemma_hidden_count_flags(x);
    lemma_hidden_count_flags(y);
}

pub proof fn lemma_alike_trans(x: Seq<BottleView>, y: Seq<BottleView>, z: Seq<BottleView>)
    requires
        alike(x, y),
        alike(y, z),
    ensures
        alike(x, z),
{
    let (p1, q1) = choose|p: Seq<int>, q: Seq<int>| is_perm(p, q, x.len() as int) && alike_by(x, y, p);
    let (p2, q2) = choose|p: Seq<int>, q: Seq<int>| is_perm(p, q, y.len() as int) && alike_by(y, z, p);
    let n = x.len() as int;
    let p = Seq::new(n as nat, |i: int| p2[p1[i]]);
    let q = Seq::new(n as nat, |j: int| q1[q2[j]]);
    assert(is_perm(p, q, n));
    assert forall|i: int| 0 <= i < x.len() implies rule_view(#[trigger] x[i]) == rule_view(z[p[i]]) by {
        assert(rule_view(x[i]) == rule_view(y[p1[i]]));
        assert(rule_view(y[p1[i]]) == rule_view(z[p2[p1[i]]]));
    }
    assert(alike_by(x, z, p));
}

/// A level with no overflowing bottle, no layer that carries a mystery mark
/// or has the colour `Empty`, and no locked bottle that holds anything.
pub open spec fn plain_level(s: Seq<BottleView>) -> bool {
    &&& capacity_ok(s)
    &&& forall|i: int, j: int|
        0 <= i < s.len() && 0 <= j < s[i].0.len() ==> !(#[trigger] s[i].0[j]).1 && s[i].0[j].0
            != BottleColor::Empty
    &&& forall|i: int| 0 <= i < s.len() && v_locked(#[trigger] s[i]) ==> v_count(s[i]) == 0
}

/// Revealing hidden bottles of a plain level leaves a tidy level, with the
/// same bottles solved in the same colours.
pub proof fn lemma_unlock_tidy(t: Seq<BottleView>)
    requires
        plain_level(t),
    ensures
        tidy(unlock_solved(t)),
        forall|i: int|
            0 <= i < t.len() ==> v_solved_color(#[trigger] unlock_solved(t)[i]) == v_solved_color(t[i]),
{
    let u = unlock_solved(t);
    lemma_unlock_keeps_layers(t);
    assert forall|i: int| 0 <= i < t.len() implies v_solved_color(#[trigger] u[i]) == v_solved_color(t[i]) by {
        if unlockable(t, t[i]) {
            assert(v_count(t[i]) == 0);
        }
    }
    assert forall|c: BottleColor| solved_colors(u).contains(c) == solved_colors(t).contains(c) by {
        if solved_colors(u).contains(c) {
            let i = choose|i: int| 0 <= i < u.len() && v_solved_color(u[i]) == Some(c);
            assert(v_solved_color(u[i]) == v_solved_color(t[i]));
        }
        if solved_colors(t).contains(c) {
            let i = choose|i: int| 0 <= i < t.len() && v_solved_color(t[i]) == Some(c);
            assert(v_solved_color(u[i]) == v_solved_color(t[i]));
        }
    }
    assert(solved_colors(u) =~= solved_colors(t));
    assert forall|i: int, j: int|
        0 <= i < u.len() && 0 <= j < u[i].0.len() implies !(#[trigger] u[i].0[j]).1 && u[i].0[j].0
            != BottleColor::Empty by {
        assert(u[i].0 == t[i].0);
        assert(!t[i].0[j].1 && t[i].0[j].0 != BottleColor::Empty);
    }
    assert forall|i: int| 0 <= i < u.len() && v_locked(#[trigger] u[i]) implies v_count(u[i]) == 0 by {
        assert(u[i].0 == t[i].0);
    }
    assert forall|i: int| 0 <= i < u.len() implies !unlockable(u, #[trigger] u[i]) by {
        if v_locked(u[i]) {
            assert(!unlockable(t, t[i]));
            assert(u[i] == t[i]);
        }
    }
}

/// A move keeps a level tidy.
pub proof fn lemma_tidy_step(x: Seq<BottleView>, a: int, b: int)
    requires
        tidy(x),
        move_ok(x, a, b),
    ensures
        tidy(step(x, a, b)),
{
    let t = apply_move(x, a, b);
    lemma_move_keeps_capacity(x, a, b);
    lemma_top_run_bounds(x[a].0);
    assert(x[a].0.last() == x[a].0[x[a].0.len() - 1]);
    assert(x[a].0.last().0 != BottleColor::Empty);
    assert forall|i: int, j: int|
        0 <= i < t.len() && 0 <= j < t[i].0.len() implies !(#[trigger] t[i].0[j]).1 && t[i].0[j].0
            != BottleColor::Empty by {
        if i == a {
            assert(t[i].0[j] == x[a].0[j]);
        } else if i == b {
            if j < x[b].0.len() {
                assert(t[i].0[j] == x[b].0[j]);
            }
        } else {
            assert(t[i] == x[i]);
        }
    }
    assert forall|i: int| 0 <= i < t.len() && v_locked(#[trigger] t[i]) implies v_count(t[i]) == 0 by {
        if i != a && i != b {
            assert(t[i] == x[i]);
        }
    }
    lemma_unlock_tidy(t);
}

proof fn lemma_uniform_run(f: Seq<Layer>, c: BottleColor)
    requires
        unmarked(f),
        forall|j: int| 0 <= j < f.len() ==> (#[trigger] f[j]).0 == c,
    ensures
        same_below(f, c) == f.len(),
        f.len() > 0 ==> top_run(f) == f.len(),
    decreases f.len(),
{
    if f.len() > 0 {
        assert(f.last() == f[f.len() - 1]);
        assert(unmarked(f.drop_last())) by {
            assert forall|j: int| 0 <= j < f.drop_last().len() implies !(#[trigger] f.drop_last()[j]).1 by {
                assert(f.drop_last()[j] == f[j]);
            }
        }
        assert forall|j: int| 0 <= j < f.drop_last().len() implies (#[trigger] f.drop_last()[j]).0 == c by {
            assert(f.drop_last()[j] == f[j]);
        }
        lemma_uniform_run(f.drop_last(), c);
    }
}

/// On a tidy level, an allowed move the generator leaves out only empties
/// a bottle of one colour into an empty one: the level after it is alike.
pub proof fn lemma_left_out_move_alike(x: Seq<BottleView>, a: int, b: int)
    requires
        tidy(x),
        move_ok(x, a, b),
        !candidate(x, a, b),
    ensures
        alike(step(x, a, b), x),
{
    let f = x[a].0;
    let n = f.len() as int;
    let c = f.last().0;
    assert(f.last() == f[n - 1]);
    assert(unmarked(f)) by {
        assert forall|j: int| 0 <= j < n implies !(#[trigger] f[j]).1 by {
            assert(!x[a].0[j].1);
        }
    }
    assert forall|j: int| 0 <= j < n implies (#[trigger] f[j]).0 == c by {
        assert(f[j].0 != BottleColor::Empty);
        assert(f[n - 1].0 != BottleColor::Empty);
        if v_solved(x[a]) {
            assert(f[j].0 == f[0].0 && f[n - 1].0 == f[0].0);
        } else {
            assert(single_color(x[a]));
        }
    }
    lemma_uniform_run(f, c);
    assert(v_count(x[b]) == 0);
    let t = apply_move(x, a, b);
    let sw = Seq::new(x.len(), |i: int| if i == a { b } else if i == b { a } else { i });
    assert(is_perm(sw, sw, x.len() as int));
    assert(colors_of(t[b].0) =~= colors_of(f));
    assert(colors_of(t[a].0) =~= colors_of(x[b].0));
    assert forall|i: int| 0 <= i < t.len() implies rule_view(#[trigger] t[i]) == rule_view(x[sw[i]]) by {
        if i != a && i != b {
            assert(t[i] == x[i]);
        }
    }
    assert(alike_by(t, x, sw));
    lemma_unlock_alike(t, x, sw, sw);
    assert(unlock_solved(x) =~= x);
}

/// Every level along an allowed path from a tidy level is tidy.
pub proof fn lemma_tidy_path(x: Seq<BottleView>, ms: Seq<MoveView>, f: StateFilter)
    requires
        tidy(x),
        valid_path(x, ms, f),
    ensures
        tidy(replay(x, ms)),
    decreases ms.len(),
{
    if ms.len() > 0 {
        lemma_tidy_step(x, ms[0].0 as int, ms[0].2 as int);
        lemma_tidy_path(step(x, ms[0].0 as int, ms[0].2 as int), ms.drop_first(), f);
    }
}

/// From a level alike to an explored one, every allowed path of a search
/// that found nothing ends at a level alike to an explored one.
proof fn lemma_path_stays_explored(
    explored: Seq<(Seq<BottleView>, nat)>,
    s0: Seq<BottleView>,
    goal: SearchGoal,
    f: StateFilter,
    x: Seq<BottleView>,
    ms: Seq<MoveView>,
)
    requires
        search_exhausted(explored, s0, goal, f),
        tidy(s0),
        tidy(x),
        exists|j: int| 0 <= j < explored.len() && alike(x, (#[trigger] explored[j]).0),
        valid_path(x, ms, f),
    ensures
        exists|j: int| 0 <= j < explored.len() && alike(replay(x, ms), (#[trigger] explored[j]).0),
    decreases ms.len(),
{
    if ms.len() > 0 {
        let a = ms[0].0 as int;
        let b = ms[0].2 as int;
        let x1 = step(x, a, b);
        lemma_tidy_step(x, a, b);
        let j = choose|j: int| 0 <= j < explored.len() && alike(x, (#[trigger] explored[j]).0);
        let w = explored[j].0;
        if candidate(x, a, b) {
            let ms_w = choose|ms: Seq<MoveView>|
                valid_path(s0, ms, f) && replay(s0, ms) == (#[trigger] explored[j]).0 && ms.len()
                    == explored[j].1;
            lemma_tidy_path(s0, ms_w, f);
            let (p, q) = choose|p: Seq<int>, q: Seq<int>| is_perm(p, q, x.len() as int) && alike_by(x, w, p);
            lemma_move_alike(x, w, p, q, a, b);
            lemma_unlock_alike(apply_move(x, a, b), apply_move(w, p[a], p[b]), p, q);
            let w1 = step(w, p[a], p[b]);
            lemma_hidden_count_alike(x, w, p, q);
            lemma_hidden_count_alike(x1, w1, p, q);
            assert(filter_ok(f, explored[j].0, step(explored[j].0, p[a], p[b])));
            assert(candidate(explored[j].0, p[a], p[b]));
            let j2 = choose|j2: int|
                0 <= j2 < explored.len() && state_key((#[trigger] explored[j2]).0) == state_key(
                    step(explored[j].0, p[a], p[b]),
                );
            lemma_same_key_alike(w1, explored[j2].0);
            assert(alike(x1, w1));
            lemma_alike_trans(x1, w1, explored[j2].0);
            lemma_path_stays_explored(explored, s0, goal, f, x1, ms.drop_first());
        } else {
            lemma_left_out_move_alike(x, a, b);
            lemma_alike_trans(x1, x, w);
            lemma_path_stays_explored(explored, s0, goal, f, x1, ms.drop_first());
        }
    }
}

/// A search that found nothing from a tidy level leaves no way to its goal:
/// no allowed path, through levels the filter accepts, ends where the goal
/// is met, except, for the goals that ask for at least one move, a path back
/// to a level alike to the start.
pub proof fn lemma_exhausted_search_complete(
    explored: Seq<(Seq<BottleView>, nat)>,
    s0: Seq<BottleView>,
    goal: SearchGoal,
    f: StateFilter,
    ms: Seq<MoveView>,
)
    requires
        search_exhausted(explored, s0, goal, f),
        tidy(s0),
        valid_path(s0, ms, f),
        goal_met(goal, replay(s0, ms), ms.len()),
    ensures
        !(goal is AllSolved),
        alike(replay(s0, ms), s0),
{
    let j0 = choose|j: int| 0 <= j < explored.len() && state_key((#[trigger] explored[j]).0) == state_key(s0);
    lemma_same_key_alike(s0, explored[j0].0);
    lemma_path_stays_explored(explored, s0, goal, f, s0, ms);
    let e = replay(s0, ms);
    let j = choose|j: int| 0 <= j < explored.len() && alike(e, (#[trigger] explored[j]).0);
    let w = explored[j].0;
    let (p, q) = choose|p: Seq<int>, q: Seq<int>| is_perm(p, q, e.len() as int) && alike_by(e, w, p);
    assert(!goal_met(goal, explored[j].0, explored[j].1));
    if goal is AllSolved || explored[j].1 > 0 {
        lemma_goal_alike(e, w, p, q, goal, ms.len(), explored[j].1);
    }
    assert(explored[j].1 == 0);
    assert(w == s0);
}

} // verus!
