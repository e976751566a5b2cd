//! The rules of the game over whole levels: which moves are allowed, what a
//! move does, and when hidden bottles are revealed.
use vstd::prelude::*;

use crate::bottle::{
    colors_of, lemma_same_below_bound, lemma_top_run_bounds, same_below, top_run, v_can_fill,
    v_count, v_locked, v_poured_into, v_poured_out, v_solved, v_solved_color, v_unlocked, Bottle,
    BottleView, Layer, FULL_BOTTLE_COUNT,
};
use crate::color::BottleColor;

verus! {

/// The bottles of a level, by what they hold.
pub open spec fn state_v(s: Seq<Bottle>) -> Seq<BottleView> {
    s.map_values(|b: Bottle| b@)
}

/// No bottle holds more layers than fit.
pub open spec fn capacity_ok(s: Seq<BottleView>) -> bool {
    forall|i: int| 0 <= i < s.len() ==> v_count(#[trigger] s[i]) <= FULL_BOTTLE_COUNT
}

/// Pouring from bottle `src` into bottle `dst` is allowed.
pub open spec fn move_ok(s: Seq<BottleView>, src: int, dst: int) -> bool {
    &&& src != dst
    &&& 0 <= src < s.len()
    &&& 0 <= dst < s.len()
    &&& v_can_fill(s[dst], s[src])
}

/// The level after pouring from `src` into `dst`.
pub open spec fn apply_move(s: Seq<BottleView>, src: int, dst: int) -> Seq<BottleView> {
    s.update(dst, v_poured_into(s[dst], s[src])).update(src, v_poured_out(s[src]))
}

/// The colours of the solved bottles of a level.
pub open spec fn solved_colors(s: Seq<BottleView>) -> Set<BottleColor> {
    Set::new(|c: BottleColor| exists|i: int| 0 <= i < s.len() && v_solved_color(s[i]) == Some(c))
}

/// Whether a bottle is hidden behind a colour that some bottle of the level
/// has solved.
pub open spec fn unlockable(s: Seq<BottleView>, v: BottleView) -> bool {
    v.1 is Locked && solved_colors(s).contains(v.1->Locked_0)
}

/// The level after revealing every hidden bottle whose colour is solved.
pub open spec fn unlock_solved(s: Seq<BottleView>) -> Seq<BottleView> {
    Seq::new(
        s.len(),
        |i: int|
            if unlockable(s, s[i]) {
                v_unlocked(s[i])
            } else {
                s[i]
            },
    )
}

/// One step of play: a move followed by the reveal of hidden bottles.
pub open spec fn step(s: Seq<BottleView>, src: int, dst: int) -> Seq<BottleView> {
    unlock_solved(apply_move(s, src, dst))
}

/// How many bottles are hidden and show nothing yet.
pub open spec fn hidden_empty_count(s: Seq<BottleView>) -> nat
    decreases s.len(),
{
    if s.len() == 0 {
        0
    } else {
        hidden_empty_count(s.drop_last()) + if v_locked(s.last()) && v_count(s.last()) == 0 {
            1nat
        } else {
            0nat
        }
    }
}

/// Every bottle is solved, or empty and not hidden.
pub open spec fn all_done(s: Seq<BottleView>) -> bool {
    forall|i: int|
        0 <= i < s.len() ==> v_solved(#[trigger] s[i]) || (v_count(s[i]) == 0 && !v_locked(s[i]))
}

/// A move keeps every bottle within its capacity.
pub proof fn lemma_move_keeps_capacity(s: Seq<BottleView>, src: int, dst: int)
    requires
        capacity_ok(s),
        move_ok(s, src, dst),
    ensures
        capacity_ok(apply_move(s, src, dst)),
        apply_move(s, src, dst).len() == s.len(),
{
    lemma_top_run_bounds(s[src].0);
    let t = apply_move(s, src, dst);
    assert forall|i: int| 0 <= i < t.len() implies v_count(#[trigger] t[i]) <= FULL_BOTTLE_COUNT by {
        if i == src {
        } else if i == dst {
        } else {
            assert(t[i] == s[i]);
        }
    }
}

/// Revealing hidden bottles keeps every layer as it is.
pub proof fn lemma_unlock_keeps_layers(s: Seq<BottleView>)
    ensures
        unlock_solved(s).len() == s.len(),
        forall|i: int| 0 <= i < s.len() ==> (#[trigger] unlock_solved(s)[i]).0 == s[i].0,
        forall|i: int| 0 <= i < s.len() ==> (#[trigger] unlock_solved(s)[i]).2 == s[i].2,
        capacity_ok(s) ==> capacity_ok(unlock_solved(s)),
{
}

/// How many layers all bottles hold together.
pub open spec fn level_layers(s: Seq<BottleView>) -> nat
    decreases s.len(),
{
    if s.len() == 0 {
        0
    } else {
        level_layers(s.drop_last()) + v_count(s.last())
    }
}

/// The colours of all layers of a level, counted with their number.
pub open spec fn level_colors(s: Seq<BottleView>) -> vstd::multiset::Multiset<BottleColor>
    decreases s.len(),
{
    if s.len() == 0 {
        vstd::multiset::Multiset::empty()
    } else {
        level_colors(s.drop_last()).add(colors_of(s.last().0).to_multiset())
    }
}

proof fn lemma_same_below_colors(fills: Seq<Layer>, c: BottleColor)
    ensures
        forall|k: int|
            fills.len() - same_below(fills, c) <= k < fills.len() ==> (#[trigger] fills[k]).0 == c,
    decreases fills.len(),
{
    lemma_same_below_bound(fills, c);
    if fills.len() > 0 && fills.last().0 == c && !fills.last().1 {
        lemma_same_below_colors(fills.drop_last(), c);
        assert forall|k: int| fills.len() - same_below(fills, c) <= k < fills.len() implies (
        #[trigger] fills[k]).0 == c by {
            if k < fills.len() - 1 {
                assert(fills[k] == fills.drop_last()[k]);
            }
        }
    }
}

/// The layers that pour out of a bottle all have the colour of its top layer.
proof fn lemma_top_run_colors(fills: Seq<Layer>)
    requires
        fills.len() > 0,
    ensures
        colors_of(fills.subrange(fills.len() - top_run(fills), fills.len() as int)) =~= Seq::new(
            top_run(fills),
            |i: int| fills.last().0,
        ),
{
    lemma_top_run_bounds(fills);
    if !fills.last().1 {
        lemma_same_below_colors(fills.drop_last(), fills.last().0);
        lemma_same_below_bound(fills.drop_last(), fills.last().0);
        let n = fills.len() - top_run(fills);
        assert forall|k: int| n <= k < fills.len() implies (#[trigger] fills[k]).0
            == fills.last().0 by {
            if k < fills.len() - 1 {
                assert(fills[k] == fills.drop_last()[k]);
            }
        }
    }
}

/// Pouring moves layers and changes no colour: the two bottles hold together
/// the same colours, and as many layers, before and after.
pub proof fn lemma_pour_conserves_colors(dst: BottleView, src: BottleView)
    requires
        v_can_fill(dst, src),
    ensures
        colors_of(v_poured_into(dst, src).0).to_multiset().add(
            colors_of(v_poured_out(src).0).to_multiset(),
        ) =~= colors_of(dst.0).to_multiset().add(colors_of(src.0).to_multiset()),
        v_count(v_poured_into(dst, src)) + v_count(v_poured_out(src)) == v_count(dst) + v_count(src),
{
    broadcast use vstd::seq_lib::lemma_multiset_commutative;
    broadcast use vstd::multiset::group_multiset_axioms;

    let run = top_run(src.0);
    let n = src.0.len() - run;
    lemma_top_run_bounds(src.0);
    lemma_top_run_colors(src.0);
    let moved = Seq::new(run, |i: int| (src.0.last().0, false));
    assert(colors_of(dst.0 + moved) =~= colors_of(dst.0) + colors_of(moved));
    assert(colors_of(moved) =~= Seq::new(run, |i: int| src.0.last().0));
    assert(src.0 =~= src.0.subrange(0, n) + src.0.subrange(n, src.0.len() as int));
    assert(colors_of(src.0) =~= colors_of(src.0.subrange(0, n)) + colors_of(
        src.0.subrange(n, src.0.len() as int),
    ));
    assert(colors_of(v_poured_out(src).0) == colors_of(src.0.subrange(0, n)));
    assert(colors_of(v_poured_into(dst, src).0) == colors_of(dst.0 + moved));
}

proof fn lemma_level_update(s: Seq<BottleView>, i: int, v: BottleView)
    requires
        0 <= i < s.len(),
    ensures
        level_layers(s.update(i, v)) + v_count(s[i]) == level_layers(s) + v_count(v),
        level_colors(s.update(i, v)).add(colors_of(s[i].0).to_multiset()) =~= level_colors(s).add(
            colors_of(v.0).to_multiset(),
        ),
    decreases s.len(),
{
    broadcast use vstd::multiset::group_multiset_axioms;

    let t = s.update(i, v);
    let bag_v = colors_of(v.0).to_multiset();
    let bag_i = colors_of(s[i].0).to_multiset();
    if i == s.len() - 1 {
        assert(t.drop_last() =~= s.drop_last());
        assert(t.last() == v);
        assert(level_colors(t) == level_colors(s.drop_last()).add(bag_v));
        assert(level_colors(s) == level_colors(s.drop_last()).add(bag_i));
        let l = level_colors(s.drop_last());
        assert forall|x: BottleColor| #[trigger] level_colors(t).add(bag_i).count(x) == level_colors(
            s,
        ).add(bag_v).count(x) by {
            assert(level_colors(t).count(x) == l.count(x) + bag_v.count(x));
            assert(level_colors(s).count(x) == l.count(x) + bag_i.count(x));
        }
    } else {
        lemma_level_update(s.drop_last(), i, v);
        assert(t.drop_last() =~= s.drop_last().update(i, v));
        assert(t.last() == s.last());
        let bag_last = colors_of(s.last().0).to_multiset();
        assert(level_colors(t) == level_colors(s.drop_last().update(i, v)).add(bag_last));
        assert(level_colors(s) == level_colors(s.drop_last()).add(bag_last));
        assert(s.drop_last()[i] == s[i]);
        let lt = level_colors(s.drop_last().update(i, v));
        let ls = level_colors(s.drop_last());
        assert forall|x: BottleColor| #[trigger] level_colors(t).add(bag_i).count(x) == level_colors(
            s,
        ).add(bag_v).count(x) by {
            assert(lt.add(bag_i).count(x) == ls.add(bag_v).count(x));
            assert(level_colors(t).count(x) == lt.count(x) + bag_last.count(x));
            assert(level_colors(s).count(x) == ls.count(x) + bag_last.count(x));
        }
    }
}

/// A move changes neither how many layers the level holds nor their colours.
pub proof fn lemma_move_conserves_colors(s: Seq<BottleView>, src: int, dst: int)
    requires
        move_ok(s, src, dst),
    ensures
        level_layers(apply_move(s, src, dst)) == level_layers(s),
        level_colors(apply_move(s, src, dst)) =~= level_colors(s),
{
    broadcast use vstd::multiset::group_multiset_axioms;

    let d = v_poured_into(s[dst], s[src]);
    let o = v_poured_out(s[src]);
    let s1 = s.update(dst, d);
    lemma_pour_conserves_colors(s[dst], s[src]);
    lemma_level_update(s, dst, d);
    assert(s1[src] == s[src]);
    lemma_level_update(s1, src, o);
    let bag_d = colors_of(d.0).to_multiset();
    let bag_o = colors_of(o.0).to_multiset();
    let bag_dst = colors_of(s[dst].0).to_multiset();
    let bag_src = colors_of(s[src].0).to_multiset();
    assert(bag_d.add(bag_o) =~= bag_dst.add(bag_src));
    assert(level_colors(s1).add(bag_dst) =~= level_colors(s).add(bag_d));
    assert(level_colors(s1.update(src, o)).add(bag_src) =~= level_colors(s1).add(bag_o));
    assert(apply_move(s, src, dst) == s1.update(src, o));
    let l2 = level_colors(s1.update(src, o));
    let l1 = level_colors(s1);
    let l0 = level_colors(s);
    assert forall|x: BottleColor| #[trigger] l2.count(x) == l0.count(x) by {
        assert(bag_d.add(bag_o).count(x) == bag_dst.add(bag_src).count(x));
        assert(l1.add(bag_dst).count(x) == l0.add(bag_d).count(x));
        assert(l2.add(bag_src).count(x) == l1.add(bag_o).count(x));
    }
}

/// Revealing hidden bottles changes neither how many layers the level holds
/// nor their colours.
pub proof fn lemma_unlock_conserves_colors(s: Seq<BottleView>)
    ensures
        level_layers(unlock_solved(s)) == level_layers(s),
        level_colors(unlock_solved(s)) == level_colors(s),
{
    lemma_same_layers_same_totals(s, unlock_solved(s));
}

proof fn lemma_same_layers_same_totals(s: Seq<BottleView>, t: Seq<BottleView>)
    requires
        s.len() == t.len(),
        forall|i: int| 0 <= i < s.len() ==> (#[trigger] s[i]).0 == t[i].0,
    ensures
        level_layers(t) == level_layers(s),
        level_colors(t) == level_colors(s),
    decreases s.len(),
{
    if s.len() > 0 {
        assert forall|i: int| 0 <= i < s.drop_last().len() implies (
        #[trigger] s.drop_last()[i]).0 == t.drop_last()[i].0 by {
            assert(s[i].0 == t[i].0);
        }
        lemma_same_layers_same_totals(s.drop_last(), t.drop_last());
        assert(s[s.len() - 1].0 == t[t.len() - 1].0);
    }
}

} // verus!
