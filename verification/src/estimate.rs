//! The solver's estimate of the moves left, the number of colour runs above
//! one per bottle a solved level fills, never exceeds the moves that a
//! solution from a tidy level still needs: a move removes at most one run,
//! and a solved level has one run per four layers.
use vstd::prelude::*;

use crate::bottle::{
    colors_of, lemma_top_run_bounds, same_below, top_run, v_count, v_poured_into, v_poured_out, v_solved,
    BottleView, Layer,
};
use crate::color::BottleColor;
use crate::classic::reach::is_perm;
use crate::reach::{alike_by, lemma_tidy_step, rule_view, tidy, unmarked};
use crate::rules::{
    all_done, apply_move, level_layers, lemma_move_conserves_colors, lemma_unlock_keeps_layers, move_ok,
    step, unlock_solved,
};
use crate::solver::{
    bottle_runs, changes, non_empty_colors, replay, runs, total_layers, total_runs, valid_path, MoveView,
    StateFilter,
};

verus! {

proof fn lemma_changes_append(x: Seq<BottleColor>, y: Seq<BottleColor>, c: BottleColor)
    requires
        forall|j: int| 0 <= j < y.len() ==> #[trigger] y[j] == c,
    ensures
        changes(x + y) >= changes(x),
        x.len() > 0 && x.last() == c ==> changes(x + y) == changes(x),
        changes(x + y) <= changes(x) + 1,
    decreases y.len(),
{
    if y.len() > 0 {
        let y1 = y.drop_last();
        assert((x + y).drop_last() =~= x + y1);
        lemma_changes_append(x, y1, c);
        if y1.len() > 0 {
            assert((x + y)[(x + y).len() - 2] == y1.last());
        } else {
            assert(x + y1 =~= x);
            if x.len() > 0 {
                assert((x + y)[(x + y).len() - 2] == x.last());
            }
        }
    } else {
        assert(x + y =~= x);
    }
}

proof fn lemma_runs_append(x: Seq<BottleColor>, y: Seq<BottleColor>, c: BottleColor)
    requires
        forall|j: int| 0 <= j < y.len() ==> #[trigger] y[j] == c,
    ensures
        runs(x + y) >= runs(x),
        y.len() > 0 ==> runs(x + y) <= runs(x) + 1,
{
    lemma_changes_append(x, y, c);
    if x.len() == 0 && y.len() > 0 {
        assert(x + y =~= y);
        assert forall|j: int| 0 <= j < y.drop_first().len() implies #[trigger] y.drop_first()[j] == c by {
            assert(y.drop_first()[j] == y[j + 1]);
        }
        lemma_changes_append(seq![c], y.drop_first(), c);
        assert(seq![c] + y.drop_first() =~= y);
    }
}

proof fn lemma_non_empty_same(cs: Seq<BottleColor>)
    requires
        forall|j: int| 0 <= j < cs.len() ==> #[trigger] cs[j] != BottleColor::Empty,
    ensures
        non_empty_colors(cs) == cs,
    decreases cs.len(),
{
    if cs.len() > 0 {
        lemma_non_empty_same(cs.drop_last());
        assert(cs.drop_last().push(cs.last()) =~= cs);
    }
}

/// The colours of a bottle of a plain level hold no empty colour.
proof fn lemma_plain_runs(v: BottleView)
    requires
        forall|j: int| 0 <= j < v.0.len() ==> (#[trigger] v.0[j]).0 != BottleColor::Empty,
    ensures
        bottle_runs(v) == runs(colors_of(v.0)),
{
    lemma_non_empty_same(colors_of(v.0));
}

/// The top run of a bottle has the colour of its top layer throughout.
proof fn lemma_top_run_color(f: Seq<Layer>, c: BottleColor)
    ensures
        same_below(f, c) <= f.len(),
        forall|j: int| f.len() - same_below(f, c) <= j < f.len() ==> (#[trigger] f[j]).0 == c,
    decreases f.len(),
{
    if f.len() > 0 {
        lemma_top_run_color(f.drop_last(), c);
        assert forall|j: int| f.len() - same_below(f, c) <= j < f.len() implies (#[trigger] f[j]).0 == c by {
            if same_below(f, c) > 0 && j < f.len() - 1 {
                assert(f[j] == f.drop_last()[j]);
            }
        }
    }
}

proof fn lemma_total_runs_update(s: Seq<BottleView>, i: int, v: BottleView)
    requires
        0 <= i < s.len(),
    ensures
        total_runs(s.update(i, v)) + bottle_runs(s[i]) == total_runs(s) + bottle_runs(v),
    decreases s.len(),
{
    let t = s.update(i, v);
    if i == s.len() - 1 {
        assert(t.drop_last() =~= s.drop_last());
    } else {
        assert(t.drop_last() =~= s.drop_last().update(i, v));
        lemma_total_runs_update(s.drop_last(), i, v);
    }
}

proof fn lemma_total_runs_layers(s: Seq<BottleView>, t: Seq<BottleView>)
    requires
        s.len() == t.len(),
        forall|i: int| 0 <= i < s.len() ==> (#[trigger] s[i]).0 == t[i].0,
    ensures
        total_runs(s) == total_runs(t),
        total_layers(s) == total_layers(t),
    decreases s.len(),
{
    if s.len() > 0 {
        assert(s.last() == s[s.len() - 1] && t.last() == t[t.len() - 1]);
        lemma_total_runs_layers(s.drop_last(), t.drop_last());
    }
}

/// A move on a tidy level removes at most one run.
proof fn lemma_runs_after_move(s: Seq<BottleView>, a: int, b: int)
    requires
        tidy(s),
        move_ok(s, a, b),
    ensures
        total_runs(step(s, a, b)) + 1 >= total_runs(s),
{
    let src = s[a];
    let dst = s[b];
    let f = src.0;
    let n = f.len() as int;
    let k = top_run(f);
    let c = f.last().0;
    lemma_top_run_bounds(f);
    assert(f.last() == f[n - 1]);
    assert(!f.last().1) by {
        assert(!s[a].0[n - 1].1);
    }
    lemma_top_run_color(f.drop_last(), c);
    let cs = colors_of(f);
    let pre = cs.subrange(0, n - k);
    let suf = cs.subrange(n - k, n);
    assert forall|j: int| 0 <= j < suf.len() implies #[trigger] suf[j] == c by {
        if n - k + j < n - 1 {
            assert(f[n - k + j] == f.drop_last()[n - k + j]);
        }
    }
    assert(pre + suf =~= cs);
    lemma_runs_append(pre, suf, c);
    let out = v_poured_out(src);
    let into = v_poured_into(dst, src);
    assert(colors_of(out.0) =~= pre);
    let copies = Seq::new(k, |i: int| c);
    assert(colors_of(into.0) =~= colors_of(dst.0) + copies);
    lemma_runs_append(colors_of(dst.0), copies, c);
    assert forall|j: int| 0 <= j < out.0.len() implies (#[trigger] out.0[j]).0 != BottleColor::Empty by {
        assert(out.0[j] == s[a].0[j]);
    }
    assert forall|j: int| 0 <= j < into.0.len() implies (#[trigger] into.0[j]).0 != BottleColor::Empty by {
        if j < dst.0.len() {
            assert(into.0[j] == s[b].0[j]);
        }
    }
    assert forall|j: int| 0 <= j < src.0.len() implies (#[trigger] src.0[j]).0 != BottleColor::Empty by {
        assert(src.0[j] == s[a].0[j]);
    }
    assert forall|j: int| 0 <= j < dst.0.len() implies (#[trigger] dst.0[j]).0 != BottleColor::Empty by {
        assert(dst.0[j] == s[b].0[j]);
    }
    lemma_plain_runs(out);
    lemma_plain_runs(into);
    lemma_plain_runs(src);
    lemma_plain_runs(dst);
    let t1 = s.update(b, into);
    lemma_total_runs_update(s, b, into);
    lemma_total_runs_update(t1, a, out);
    assert(t1[a] == src);
    let t = apply_move(s, a, b);
    lemma_unlock_keeps_layers(t);
    lemma_total_runs_layers(unlock_solved(t), t);
}

pub proof fn lemma_total_layers_same(s: Seq<BottleView>)
    ensures
        total_layers(s) == level_layers(s),
    decreases s.len(),
{
    if s.len() > 0 {
        lemma_total_layers_same(s.drop_last());
    }
}

/// On a solved tidy level every four layers make one run.
pub proof fn lemma_done_runs(s: Seq<BottleView>)
    requires
        tidy(s),
        all_done(s),
    ensures
        4 * total_runs(s) == total_layers(s),
    decreases s.len(),
{
    if s.len() > 0 {
        let v = s.last();
        assert(v == s[s.len() - 1]);
        assert(tidy(s.drop_last())) by {
            let d = s.drop_last();
            assert forall|i: int, j: int| 0 <= i < d.len() && 0 <= j < d[i].0.len() implies !(#[trigger] d[i].0[j]).1
                && d[i].0[j].0 != BottleColor::Empty by {
                assert(d[i] == s[i]);
            }
            assert forall|i: int| 0 <= i < d.len() && crate::bottle::v_locked(#[trigger] d[i]) implies v_count(d[i]) == 0 by {
                assert(d[i] == s[i]);
            }
            assert forall|i: int| 0 <= i < d.len() implies !crate::rules::unlockable(d, #[trigger] d[i]) by {
                assert(d[i] == s[i]);
                assert(!crate::rules::unlockable(s, s[i]));
                assert forall|c: BottleColor| crate::rules::solved_colors(d).contains(c) implies crate::rules::solved_colors(s).contains(c) by {
                    let m = choose|m: int| 0 <= m < d.len() && crate::bottle::v_solved_color(d[m]) == Some(c);
                    assert(d[m] == s[m]);
                }
            }
            assert forall|i: int| 0 <= i < d.len() implies v_count(#[trigger] d[i]) <= crate::bottle::FULL_BOTTLE_COUNT by {
                assert(d[i] == s[i]);
            }
        }
        assert(all_done(s.drop_last())) by {
            assert forall|i: int| 0 <= i < s.drop_last().len() implies v_solved(#[trigger] s.drop_last()[i]) || (v_count(s.drop_last()[i]) == 0
                && !crate::bottle::v_locked(s.drop_last()[i])) by {
                assert(s.drop_last()[i] == s[i]);
            }
        }
        lemma_done_runs(s.drop_last());
        assert forall|j: int| 0 <= j < v.0.len() implies (#[trigger] v.0[j]).0 != BottleColor::Empty by {
            assert(!s[s.len() - 1].0[j].1 && s[s.len() - 1].0[j].0 != BottleColor::Empty);
        }
        lemma_plain_runs(v);
        if v_solved(v) {
            let cs = colors_of(v.0);
            let c = cs[0];
            assert forall|j: int| 0 <= j < cs.len() implies #[trigger] cs[j] == c by {
                assert(v.0[j].0 == v.0[0].0);
            }
            lemma_runs_append(seq![c], cs.drop_first(), c);
            assert(seq![c] + cs.drop_first() =~= cs);
            lemma_changes_append(seq![c], cs.drop_first(), c);
        } else {
            assert(colors_of(v.0).len() == 0);
        }
    }
}

/// From a tidy level, a solution needs at least as many moves as there are
/// runs beyond one per four layers.
pub proof fn lemma_runs_bound_moves(x: Seq<BottleView>, ms: Seq<MoveView>, f: StateFilter)
    requires
        tidy(x),
        valid_path(x, ms, f),
        all_done(replay(x, ms)),
    ensures
        4 * total_runs(x) <= total_layers(x) + 4 * ms.len(),
    decreases ms.len(),
{
    if ms.len() == 0 {
        lemma_done_runs(x);
    } else {
        let a = ms[0].0 as int;
        let b = ms[0].2 as int;
        let x1 = step(x, a, b);
        lemma_tidy_step(x, a, b);
        lemma_runs_after_move(x, a, b);
        lemma_runs_bound_moves(x1, ms.drop_first(), f);
        lemma_move_conserves_colors(x, a, b);
        lemma_unlock_keeps_layers(apply_move(x, a, b));
        lemma_total_runs_layers(x1, apply_move(x, a, b));
        lemma_total_layers_same(x);
        lemma_total_layers_same(apply_move(x, a, b));
    }
}

proof fn lemma_total_runs_remove(s: Seq<BottleView>, k: int)
    requires
        0 <= k < s.len(),
    ensures
        total_runs(s) == total_runs(s.remove(k)) + bottle_runs(s[k]),
    decreases s.len(),
{
    if k == s.len() - 1 {
        assert(s.remove(k) =~= s.drop_last());
    } else {
        assert(s.remove(k).drop_last() =~= s.drop_last().remove(k));
        assert(s.remove(k).last() == s.last());
        lemma_total_runs_remove(s.drop_last(), k);
    }
}

/// Alike levels have as many runs.
pub proof fn lemma_runs_alike(x: Seq<BottleView>, y: Seq<BottleView>, p: Seq<int>, q: Seq<int>)
    requires
        is_perm(p, q, x.len() as int),
        alike_by(x, y, p),
    ensures
        total_runs(x) == total_runs(y),
    decreases x.len(),
{
    let n = x.len() as int;
    if n > 0 {
        let k = p[n - 1];
        let x1 = x.drop_last();
        let y1 = y.remove(k);
        let p1 = Seq::new((n - 1) as nat, |i: int| if p[i] < k { p[i] } else { p[i] - 1 });
        let q1 = Seq::new((n - 1) as nat, |j: int| if j < k { q[j] } else { q[j + 1] });
        assert forall|i: int| 0 <= i < n - 1 implies 0 <= #[trigger] p1[i] < n - 1 && q1[p1[i]] == i by {
            assert(p[i] != k) by {
                assert(q[p[i]] == i && q[k] == n - 1);
            }
        }
        assert forall|j: int| 0 <= j < n - 1 implies 0 <= #[trigger] q1[j] < n - 1 && p1[q1[j]] == j by {
            let jj = if j < k { j } else { j + 1 };
            assert(q[jj] != n - 1) by {
                assert(p[q[jj]] == jj);
            }
        }
        assert(is_perm(p1, q1, n - 1));
        assert forall|i: int| 0 <= i < x1.len() implies rule_view(#[trigger] x1[i]) == rule_view(y1[p1[i]]) by {
            assert(rule_view(x[i]) == rule_view(y[p[i]]));
            assert(p[i] != k) by {
                assert(q[p[i]] == i && q[k] == n - 1);
            }
        }
        lemma_runs_alike(x1, y1, p1, q1);
        lemma_total_runs_remove(y, k);
        assert(rule_view(x[n - 1]) == rule_view(y[k]));
        assert(x.last() == x[n - 1]);
    }
}

/// A move keeps the number of layers.
pub proof fn lemma_step_keeps_layers(x: Seq<BottleView>, a: int, b: int)
    requires
        move_ok(x, a, b),
    ensures
        total_layers(step(x, a, b)) == total_layers(x),
{
    lemma_move_conserves_colors(x, a, b);
    lemma_unlock_keeps_layers(apply_move(x, a, b));
    lemma_total_runs_layers(step(x, a, b), apply_move(x, a, b));
    lemma_total_layers_same(x);
    lemma_total_layers_same(apply_move(x, a, b));
}

/// An allowed path keeps the number of layers.
pub proof fn lemma_path_keeps_layers(x: Seq<BottleView>, ms: Seq<MoveView>, f: StateFilter)
    requires
        valid_path(x, ms, f),
    ensures
        total_layers(replay(x, ms)) == total_layers(x),
    decreases ms.len(),
{
    if ms.len() > 0 {
        lemma_step_keeps_layers(x, ms[0].0 as int, ms[0].2 as int);
        lemma_path_keeps_layers(step(x, ms[0].0 as int, ms[0].2 as int), ms.drop_first(), f);
    }
}

} // verus!
