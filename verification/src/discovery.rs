//! Discovery of what a level hides: mystery layers, and bottles hidden until
//! a colour is solved.
use vstd::prelude::*;

use crate::bottle::{
    HiddenRequirement,
    colors_of, requirement_color, v_count, v_locked, v_solved, v_solved_color, v_unlocked, Bottle,
    BottleView, Layer,
};
use crate::color::BottleColor;
use crate::rules::{solved_colors, state_v, unlock_solved};
use crate::solver::{
    find_shortest_move_sequence, goal_met, level_fits, moves_v, replay, search_exhausted, valid_path,
    Move, MoveView, NoProgress, SearchGoal, StateFilter,
};
use crate::classic::reach::is_perm;
use crate::reach::{alike, alike_by, lemma_goal_alike, lemma_unlock_tidy, plain_level};

verus! {

/// How many layers of a sequence of colours are `Mystery`.
pub open spec fn mystery_count(cs: Seq<BottleColor>) -> nat
    decreases cs.len(),
{
    if cs.len() == 0 {
        0
    } else {
        mystery_count(cs.drop_last()) + if cs.last() == BottleColor::Mystery {
            1nat
        } else {
            0nat
        }
    }
}

/// How many mystery layers all bottles hold together.
pub open spec fn total_mystery(s: Seq<BottleView>) -> nat
    decreases s.len(),
{
    if s.len() == 0 {
        0
    } else {
        total_mystery(s.drop_last()) + mystery_count(colors_of(s.last().0))
    }
}

/// How many layers all bottles hold together.
pub open spec fn layer_total(s: Seq<BottleView>) -> nat
    decreases s.len(),
{
    if s.len() == 0 {
        0
    } else {
        layer_total(s.drop_last()) + v_count(s.last())
    }
}

/// How many bottles are hidden.
pub open spec fn locked_count(s: Seq<BottleView>) -> nat
    decreases s.len(),
{
    if s.len() == 0 {
        0
    } else {
        locked_count(s.drop_last()) + if v_locked(s.last()) {
            1nat
        } else {
            0nat
        }
    }
}

/// The colours that hidden bottles showing nothing yet wait for.
pub open spec fn hidden_requirements(s: Seq<BottleView>) -> Set<BottleColor> {
    Set::new(
        |c: BottleColor|
            c != BottleColor::Empty && exists|i: int|
                0 <= i < s.len() && v_locked(#[trigger] s[i]) && v_count(s[i]) == 0
                    && requirement_color(s[i].1) == Some(c),
    )
}

/// A level within the solver's limits holds fewer layers than a `usize` counts.
pub proof fn lemma_layer_total_fits(s: Seq<BottleView>)
    requires
        level_fits(s),
    ensures
        layer_total(s) <= s.len() * 4,
        layer_total(s) <= usize::MAX,
    decreases s.len(),
{
    if s.len() > 0 {
        assert(crate::rules::capacity_ok(s.drop_last()));
        assert(s.drop_last().len() * 4 <= s.len() * 4);
        lemma_layer_total_fits(s.drop_last());
        assert(v_count(s[s.len() - 1]) <= 4);
    }
}

proof fn lemma_mystery_count_bound(cs: Seq<BottleColor>)
    ensures
        mystery_count(cs) <= cs.len(),
    decreases cs.len(),
{
    if cs.len() > 0 {
        lemma_mystery_count_bound(cs.drop_last());
    }
}

proof fn lemma_total_mystery_bound(s: Seq<BottleView>)
    ensures
        total_mystery(s) <= layer_total(s),
    decreases s.len(),
{
    if s.len() > 0 {
        lemma_total_mystery_bound(s.drop_last());
        lemma_mystery_count_bound(colors_of(s.last().0));
    }
}

proof fn lemma_layer_total_prefix(s: Seq<BottleView>, i: int)
    requires
        0 <= i <= s.len(),
    ensures
        layer_total(s.subrange(0, i)) <= layer_total(s),
    decreases s.len() - i,
{
    if i < s.len() {
        lemma_layer_total_prefix(s, i + 1);
        assert(s.subrange(0, i + 1).drop_last() =~= s.subrange(0, i));
    } else {
        assert(s.subrange(0, i) =~= s);
    }
}

/// How many mystery layers a bottle holds.
fn bottle_mystery_count(bottle: &Bottle) -> (r: usize)
    ensures
        r == mystery_count(colors_of(bottle@.0)),
{
    let colors = bottle.get_fills();
    let ghost cs = colors@;
    let mut count: usize = 0;
    let mut i: usize = 0;
    while i < colors.len()
        invariant
            i <= colors.len(),
            cs == colors@,
            count == mystery_count(cs.subrange(0, i as int)),
            count <= i,
        decreases colors.len() - i,
    {
        proof {
            assert(cs.subrange(0, i + 1).drop_last() =~= cs.subrange(0, i as int));
        }
        if let BottleColor::Mystery = colors[i] {
            count = count + 1;
        }
        i = i + 1;
    }
    proof {
        assert(cs.subrange(0, cs.len() as int) =~= cs);
    }
    count
}

/// How many mystery layers all bottles hold together.
pub fn count_total_mystery_colors(bottles: &Vec<Bottle>) -> (r: usize)
    requires
        layer_total(state_v(bottles@)) <= usize::MAX,
    ensures
        r == total_mystery(state_v(bottles@)),
{
    let ghost s = state_v(bottles@);
    let mut total: usize = 0;
    let mut i: usize = 0;
    while i < bottles.len()
        invariant
            i <= bottles.len(),
            s == state_v(bottles@),
            layer_total(s) <= usize::MAX,
            total == total_mystery(s.subrange(0, i as int)),
        decreases bottles.len() - i,
    {
        proof {
            assert(s.subrange(0, i + 1).drop_last() =~= s.subrange(0, i as int));
            assert(s[i as int] == bottles@[i as int]@);
            lemma_total_mystery_bound(s.subrange(0, i + 1));
            lemma_layer_total_prefix(s, i + 1);
        }
        total = total + bottle_mystery_count(&bottles[i]);
        i = i + 1;
    }
    proof {
        assert(s.subrange(0, s.len() as int) =~= s);
    }
    total
}

/// How many bottles are hidden.
pub fn count_hidden_bottles(bottles: &Vec<Bottle>) -> (r: usize)
    ensures
        r == locked_count(state_v(bottles@)),
{
    let ghost s = state_v(bottles@);
    let mut count: usize = 0;
    let mut i: usize = 0;
    while i < bottles.len()
        invariant
            i <= bottles.len(),
            s == state_v(bottles@),
            count == locked_count(s.subrange(0, i as int)),
            count <= i,
        decreases bottles.len() - i,
    {
        proof {
            assert(s.subrange(0, i + 1).drop_last() =~= s.subrange(0, i as int));
            assert(s[i as int] == bottles@[i as int]@);
        }
        if bottles[i].is_hidden_and_locked() {
            count = count + 1;
        }
        i = i + 1;
    }
    proof {
        assert(s.subrange(0, s.len() as int) =~= s);
    }
    count
}

fn contains_color(colors: &Vec<BottleColor>, c: BottleColor) -> (r: bool)
    ensures
        r == colors@.contains(c),
{
    let mut i: usize = 0;
    while i < colors.len()
        invariant
            i <= colors.len(),
            forall|k: int| 0 <= k < i ==> colors@[k] != c,
        decreases colors.len() - i,
    {
        if colors[i] == c {
            return true;
        }
        i = i + 1;
    }
    false
}

/// The colours that hidden bottles showing nothing yet wait for, each once.
pub fn collect_hidden_requirements(bottles: &Vec<Bottle>) -> (r: Vec<BottleColor>)
    ensures
        r@.no_duplicates(),
        forall|c: BottleColor| r@.contains(c) <==> hidden_requirements(state_v(bottles@)).contains(c),
{
    let ghost s = state_v(bottles@);
    let mut out: Vec<BottleColor> = Vec::new();
    let mut i: usize = 0;
    while i < bottles.len()
        invariant
            i <= bottles.len(),
            s == state_v(bottles@),
            out@.no_duplicates(),
            forall|c: BottleColor|
                out@.contains(c) <==> (c != BottleColor::Empty && exists|k: int|
                    0 <= k < i && v_locked(#[trigger] s[k]) && v_count(s[k]) == 0
                        && requirement_color(s[k].1) == Some(c)),
        decreases bottles.len() - i,
    {
        let ghost prev = out@;
        proof {
            assert(s[i as int] == bottles@[i as int]@);
        }
        let wanted: Option<BottleColor> = if bottles[i].is_hidden_and_locked()
            && bottles[i].is_empty() {
            match bottles[i].hidden_requirement() {
                Some(c) => {
                    if !c.is_empty() {
                        Some(c)
                    } else {
                        None
                    }
                },
                None => None,
            }
        } else {
            None
        };
        match wanted {
            Some(c) => {
                if !contains_color(&out, c) {
                    out.push(c);
                    proof {
                        assert forall|a: int, b: int|
                            0 <= a < b < out@.len() implies out@[a] != out@[b] by {
                            if b == out@.len() - 1 {
                                assert(prev[a] == out@[a]);
                                assert(prev.contains(out@[a]));
                            }
                        }
                    }
                }
            },
            None => {},
        }
        proof {
            let ii = i as int;
            assert forall|c: BottleColor|
                out@.contains(c) <==> (c != BottleColor::Empty && exists|k: int|
                    0 <= k < i + 1 && v_locked(#[trigger] s[k]) && v_count(s[k]) == 0
                        && requirement_color(s[k].1) == Some(c)) by {
                if out@.contains(c) {
                    if !prev.contains(c) {
                        let j = choose|j: int| 0 <= j < out@.len() && out@[j] == c;
                        if j < prev.len() {
                            assert(prev[j] == c);
                        }
                        assert(wanted == Some(c));
                        assert(v_locked(s[ii]) && v_count(s[ii]) == 0 && requirement_color(
                            s[ii].1,
                        ) == Some(c));
                    }
                }
                if prev.contains(c) {
                    let j = choose|j: int| 0 <= j < prev.len() && prev[j] == c;
                    assert(out@[j] == c);
                }
                if (c != BottleColor::Empty && exists|k: int|
                    0 <= k < i + 1 && v_locked(#[trigger] s[k]) && v_count(s[k]) == 0
                        && requirement_color(s[k].1) == Some(c)) {
                    if !prev.contains(c) {
                        assert(wanted == Some(c));
                        if out@ == prev {
                            assert(prev.contains(c));
                        } else {
                            assert(out@[out@.len() - 1] == c);
                        }
                    }
                }
            }
        }
        i = i + 1;
    }
    out
}

/// What a discovery search found.
#[derive(Debug)]
pub enum DiscoverResult {
    /// No sequence of moves reaches what is looked for.
    NoMove,
    /// These moves reach what is looked for.
    MoveToDiscover(Vec<Move>),
    /// Nothing is left to discover.
    AlreadySolved,
}

/// Whether some solved bottle has a colour of `reqs`.
pub open spec fn solves_requirement(s: Seq<BottleView>, reqs: Set<BottleColor>) -> bool {
    exists|i: int|
        0 <= i < s.len() && (#[trigger] v_solved_color(s[i])) is Some && reqs.contains(
            v_solved_color(s[i])->0,
        )
}

pub(crate) fn any_solved_in_list(bottles: &Vec<Bottle>, reqs: &Vec<BottleColor>) -> (r: bool)
    ensures
        r == exists|i: int|
            0 <= i < bottles@.len() && (#[trigger] v_solved_color(state_v(bottles@)[i])) is Some
                && reqs@.contains(v_solved_color(state_v(bottles@)[i])->0),
{
    let ghost s = state_v(bottles@);
    let mut i: usize = 0;
    while i < bottles.len()
        invariant
            i <= bottles.len(),
            s == state_v(bottles@),
            forall|k: int|
                0 <= k < i ==> !((#[trigger] v_solved_color(s[k])) is Some && reqs@.contains(
                    v_solved_color(s[k])->0,
                )),
        decreases bottles.len() - i,
    {
        assert(s[i as int] == bottles@[i as int]@);
        match bottles[i].solved_color() {
            Some(c) => {
                if contains_color(reqs, c) {
                    proof {
                        let ii = i as int;
                        assert(v_solved_color(s[ii]) is Some && reqs@.contains(
                            v_solved_color(s[ii])->0,
                        ));
                    }
                    return true;
                }
            },
            None => {},
        }
        i = i + 1;
    }
    false
}

/// Searches for a short sequence of moves after which a bottle is solved in a
/// colour that a hidden bottle waits for; when it finds none, it has
/// explored every level it can reach. Nothing is left to discover when no hidden
/// bottle waits, or when such a colour is solved already.
pub fn find_best_hidden_unlock_moves(current_bottles: &Vec<Bottle>) -> (r: DiscoverResult)
    requires
        level_fits(state_v(current_bottles@)),
    ensures
        ({
            let s = state_v(current_bottles@);
            let reqs = hidden_requirements(s);
            let s0 = unlock_solved(s);
            &&& (reqs.is_empty() || solves_requirement(s, reqs)) <==> r is AlreadySolved
            &&& r matches DiscoverResult::MoveToDiscover(moves) ==> {
                &&& valid_path(s0, moves_v(moves@), StateFilter::Any)
                &&& moves@.len() > 0
                &&& solves_requirement(replay(s0, moves_v(moves@)), reqs)
            }
            &&& r is NoMove && plain_level(s) ==> forall|ms: Seq<MoveView>|
                #![trigger replay(s0, ms)]
                valid_path(s0, ms, StateFilter::Any) ==> !solves_requirement(replay(s0, ms), reqs)
            &&& r is NoMove ==> exists|explored: Seq<(Seq<BottleView>, nat)>, waited: Vec<BottleColor>|
                waited@.to_set() == reqs && search_exhausted(
                    explored,
                    s0,
                    SearchGoal::UnlockHidden(waited),
                    StateFilter::Any,
                )
        }),
{
    let ghost s = state_v(current_bottles@);
    let hidden = collect_hidden_requirements(current_bottles);
    proof {
        assert(hidden@.to_set() =~= hidden_requirements(s));
    }
    if hidden.len() == 0 {
        proof {
            assert(hidden_requirements(s) =~= Set::<BottleColor>::empty());
        }
        return DiscoverResult::AlreadySolved;
    }
    proof {
        assert(hidden_requirements(s).contains(hidden@[0]));
    }
    if any_solved_in_list(current_bottles, &hidden) {
        proof {
            let i = choose|i: int|
                0 <= i < current_bottles@.len() && (#[trigger] v_solved_color(s[i])) is Some
                    && hidden@.contains(v_solved_color(s[i])->0);
            assert(solves_requirement(s, hidden_requirements(s)));
        }
        return DiscoverResult::AlreadySolved;
    }
    let bottles = crate::solver::copy_bottles(current_bottles);
    let goal = SearchGoal::UnlockHidden(hidden);
    let mut observer = NoProgress;
    let found = find_shortest_move_sequence(bottles, StateFilter::Any, &goal, &mut observer);
    match found {
        Some(moves) => {
            proof {
                let t = replay(unlock_solved(s), moves_v(moves@));
                assert(goal_met(goal, t, moves@.len()));
                let i = choose|i: int|
                    0 <= i < t.len() && (#[trigger] v_solved_color(t[i])) is Some
                        && hidden@.contains(v_solved_color(t[i])->0);
                assert(hidden_requirements(s).contains(v_solved_color(t[i])->0));
                assert(solves_requirement(t, hidden_requirements(s)));
            }
            DiscoverResult::MoveToDiscover(moves)
        },
        None => {
            proof {
                let s0 = unlock_solved(s);
                let reqs = hidden_requirements(s);
                if plain_level(s) {
                    lemma_unlock_tidy(s);
                    assert forall|ms: Seq<MoveView>| valid_path(s0, ms, StateFilter::Any) implies !solves_requirement(
                        #[trigger] replay(s0, ms),
                        reqs,
                    ) by {
                        let t = replay(s0, ms);
                        if solves_requirement(t, reqs) {
                            let i = choose|i: int|
                                0 <= i < t.len() && (#[trigger] v_solved_color(t[i])) is Some && reqs.contains(
                                    v_solved_color(t[i])->0,
                                );
                            assert(hidden@.contains(v_solved_color(t[i])->0));
                            let n = ms.len();
                            if n > 0 {
                                assert(goal_met(goal, t, n));
                                let (p, q) = choose|p: Seq<int>, q: Seq<int>|
                                    is_perm(p, q, t.len() as int) && alike_by(t, s0, p);
                                lemma_goal_alike(t, s0, p, q, goal, n, 1);
                                let k = choose|k: int|
                                    0 <= k < s0.len() && (#[trigger] v_solved_color(s0[k])) is Some
                                        && hidden@.contains(v_solved_color(s0[k])->0);
                                assert(v_solved_color(s0[k]) == v_solved_color(s[k]));
                                assert(v_solved_color(state_v(current_bottles@)[k]) is Some);
                            } else {
                                assert(t == s0);
                                assert(v_solved_color(s0[i]) == v_solved_color(s[i]));
                                assert(v_solved_color(state_v(current_bottles@)[i]) is Some);
                            }
                        }
                    }
                }
            }
            DiscoverResult::NoMove
        },
    }
}

/// Whether a mystery layer lies on top of some bottle.
pub open spec fn mystery_on_top(s: Seq<BottleView>) -> bool {
    exists|i: int|
        0 <= i < s.len() && (#[trigger] crate::bottle::v_top_fill(s[i])) is Some && (
        crate::bottle::v_top_fill(s[i])->0).1 == BottleColor::Mystery
}

fn all_solved_or_empty(bottles: &Vec<Bottle>) -> (r: bool)
    ensures
        r == forall|i: int|
            0 <= i < bottles@.len() ==> v_solved(#[trigger] state_v(bottles@)[i]) || v_count(
                state_v(bottles@)[i],
            ) == 0,
{
    let ghost s = state_v(bottles@);
    let mut i: usize = 0;
    while i < bottles.len()
        invariant
            i <= bottles.len(),
            s == state_v(bottles@),
            forall|k: int| 0 <= k < i ==> v_solved(#[trigger] s[k]) || v_count(s[k]) == 0,
        decreases bottles.len() - i,
    {
        assert(s[i as int] == bottles@[i as int]@);
        if !(bottles[i].is_solved() || bottles[i].is_empty()) {
            proof {
                let ii = i as int;
                assert(!(v_solved(s[ii]) || v_count(s[ii]) == 0));
            }
            return false;
        }
        i = i + 1;
    }
    true
}

/// Searches for a short sequence of moves, through states that keep every
/// hidden bottle that shows nothing yet hidden, after which a mystery layer
/// lies on top of a bottle; when it finds none, it has explored every level
/// it can reach. Nothing is left to discover when every bottle of the most
/// revealed state is solved or empty.
pub fn find_best_discovery_moves(
    current_bottles: &Vec<Bottle>,
    max_revealed_bottle_state: &Vec<Bottle>,
) -> (r: DiscoverResult)
    requires
        level_fits(state_v(current_bottles@)),
    ensures
        ({
            let s = state_v(current_bottles@);
            let m = state_v(max_revealed_bottle_state@);
            let s0 = unlock_solved(s);
            &&& (forall|i: int| 0 <= i < m.len() ==> v_solved(#[trigger] m[i]) || v_count(m[i]) == 0)
                <==> r is AlreadySolved
            &&& r matches DiscoverResult::MoveToDiscover(moves) ==> {
                &&& crate::solver::filter_ok(StateFilter::KeepHiddenCount, s, s0)
                &&& valid_path(s0, moves_v(moves@), StateFilter::KeepHiddenCount)
                &&& moves@.len() > 0
                &&& mystery_on_top(replay(s0, moves_v(moves@)))
            }
            &&& r is NoMove && plain_level(s) && crate::solver::filter_ok(
                StateFilter::KeepHiddenCount,
                s,
                s0,
            ) ==> forall|ms: Seq<MoveView>|
                #![trigger replay(s0, ms)]
                valid_path(s0, ms, StateFilter::KeepHiddenCount) && ms.len() > 0 && mystery_on_top(
                    replay(s0, ms),
                ) ==> alike(replay(s0, ms), s0)
            &&& r is NoMove && crate::solver::filter_ok(StateFilter::KeepHiddenCount, s, s0) ==> exists|
                explored: Seq<(Seq<BottleView>, nat)>,
            | search_exhausted(explored, s0, SearchGoal::RevealMystery, StateFilter::KeepHiddenCount)
        }),
{
    if all_solved_or_empty(max_revealed_bottle_state) {
        return DiscoverResult::AlreadySolved;
    }
    let bottles = crate::solver::copy_bottles(current_bottles);
    let goal = SearchGoal::RevealMystery;
    let mut observer = NoProgress;
    let found = find_shortest_move_sequence(
        bottles,
        StateFilter::KeepHiddenCount,
        &goal,
        &mut observer,
    );
    match found {
        Some(moves) => DiscoverResult::MoveToDiscover(moves),
        None => {
            proof {
                let s = state_v(current_bottles@);
                let s0 = unlock_solved(s);
                assert forall|ms: Seq<MoveView>|
                    plain_level(s) && crate::solver::filter_ok(StateFilter::KeepHiddenCount, s, s0)
                        && valid_path(s0, ms, StateFilter::KeepHiddenCount) && ms.len() > 0
                        && mystery_on_top(#[trigger] replay(s0, ms)) implies alike(replay(s0, ms), s0) by {
                    assert(goal_met(goal, replay(s0, ms), ms.len()));
                }
            }
            DiscoverResult::NoMove
        },
    }
}

/// The layers of a revealed bottle after comparing with the current bottle:
/// a layer that is a mystery both in the revealed state and at the level's
/// start takes the current colour when that one is known.
pub open spec fn revealed_layers(
    rv: Seq<Layer>,
    cur: Seq<BottleColor>,
    init: Seq<BottleColor>,
) -> Seq<Layer> {
    Seq::new(
        rv.len(),
        |j: int|
            if j < cur.len() && j < init.len() && rv[j].0 == BottleColor::Mystery && init[j]
                == BottleColor::Mystery && cur[j] != BottleColor::Mystery {
                (cur[j], rv[j].1)
            } else {
                rv[j]
            },
    )
}

/// A revealed bottle improved with what the current bottle shows. A hidden
/// bottle that showed nothing at the level's start is compared through the
/// revealed layers themselves; a revealed bottle that is hidden and empty
/// takes the layers of a current bottle that is no longer hidden, and is
/// marked as revealed.
pub open spec fn improved_revealed(rv: BottleView, cur: BottleView, init: BottleView) -> BottleView {
    let init_colors = if v_locked(init) && v_count(init) == 0 {
        colors_of(rv.0)
    } else {
        colors_of(init.0)
    };
    let layers = revealed_layers(rv.0, colors_of(cur.0), init_colors);
    if layers.len() == 0 && v_locked(rv) && !v_locked(cur) {
        v_unlocked((cur.0, rv.1, rv.2))
    } else {
        (layers, rv.1, rv.2)
    }
}

fn merge_revealed_layers(
    rv: &Vec<Layer>,
    cur: &Vec<BottleColor>,
    init: &Vec<BottleColor>,
) -> (r: Vec<Layer>)
    ensures
        r@ == revealed_layers(rv@, cur@, init@),
{
    let mut out: Vec<Layer> = Vec::new();
    let mut j: usize = 0;
    while j < rv.len()
        invariant
            j <= rv.len(),
            out@ == revealed_layers(rv@, cur@, init@).subrange(0, j as int),
        decreases rv.len() - j,
    {
        let (c, m) = rv[j];
        let mut layer = (c, m);
        if j < cur.len() && j < init.len() {
            let known = cur[j];
            if c == BottleColor::Mystery && init[j] == BottleColor::Mystery && !(known
                == BottleColor::Mystery) {
                layer = (known, m);
            }
        }
        out.push(layer);
        proof {
            assert(out@ =~= revealed_layers(rv@, cur@, init@).subrange(0, j + 1));
        }
        j = j + 1;
    }
    proof {
        assert(out@ =~= revealed_layers(rv@, cur@, init@));
    }
    out
}

/// Improves the most revealed state with what the current bottles show, bottle
/// by bottle over the bottles that all three states have.
pub fn improve_best_revealed_state(
    initial_revealed_bottle_state: &mut Vec<Bottle>,
    initial_bottles: &Vec<Bottle>,
    current_bottles: &Vec<Bottle>,
)
    ensures
        final(initial_revealed_bottle_state)@.len() == old(initial_revealed_bottle_state)@.len(),
        forall|i: int|
            0 <= i < old(initial_revealed_bottle_state)@.len() ==> (#[trigger] final(initial_revealed_bottle_state)@[i])@ == if i < initial_bottles@.len() && i < current_bottles@.len() {
                improved_revealed(
                    old(initial_revealed_bottle_state)@[i]@,
                    current_bottles@[i]@,
                    initial_bottles@[i]@,
                )
            } else {
                old(initial_revealed_bottle_state)@[i]@
            },
        state_v(final(initial_revealed_bottle_state)@) == revealed_after(
            state_v(old(initial_revealed_bottle_state)@),
            state_v(initial_bottles@),
            state_v(current_bottles@),
        ),
{
    let ghost orig = initial_revealed_bottle_state@;
    let mut n = initial_revealed_bottle_state.len();
    if current_bottles.len() < n {
        n = current_bottles.len();
    }
    if initial_bottles.len() < n {
        n = initial_bottles.len();
    }
    let mut i: usize = 0;
    while i < n
        invariant
            i <= n,
            n <= orig.len(),
            n <= current_bottles@.len(),
            n <= initial_bottles@.len(),
            n == orig.len() || n == current_bottles@.len() || n == initial_bottles@.len(),
            initial_revealed_bottle_state@.len() == orig.len(),
            forall|k: int|
                0 <= k < i ==> (#[trigger] initial_revealed_bottle_state@[k])@ == improved_revealed(
                    orig[k]@,
                    current_bottles@[k]@,
                    initial_bottles@[k]@,
                ),
            forall|k: int|
                i <= k < orig.len() ==> (#[trigger] initial_revealed_bottle_state@[k]) == orig[k],
        decreases n - i,
    {
        let mut initial_bottle = initial_bottles[i].duplicate();
        if initial_bottle.is_hidden_and_locked() && initial_bottle.is_empty() {
            initial_bottle.set_fills_from_bottle(&initial_revealed_bottle_state[i]);
        }
        let current_colors = current_bottles[i].get_fills();
        let initial_colors = initial_bottle.get_fills();
        let mut bottle = initial_revealed_bottle_state[i].duplicate();
        let fills = bottle.get_fills_mut();
        let merged = merge_revealed_layers(fills, &current_colors, &initial_colors);
        *fills = merged;
        if bottle.is_empty() && bottle.is_hidden_and_locked()
            && !current_bottles[i].is_hidden_and_locked() {
            bottle.set_fills_from_bottle(&current_bottles[i]);
            bottle.unlock_hidden_requirement();
        }
        initial_revealed_bottle_state.set(i, bottle);
        i = i + 1;
    }
    proof {
        assert(state_v(initial_revealed_bottle_state@) =~= revealed_after(
            state_v(orig),
            state_v(initial_bottles@),
            state_v(current_bottles@),
        ));
    }
}

/// The initial bottle, given the layers of the revealed bottle when it was a
/// hidden bottle that showed nothing and the revealed one shows layers.
pub open spec fn filled_initial(init: BottleView, rv: BottleView) -> BottleView {
    if v_locked(init) && v_count(init) == 0 && v_count(rv) != 0 {
        (rv.0, init.1, init.2)
    } else {
        init
    }
}

/// The layers of a current bottle whose mystery layers take the revealed colours.
pub open spec fn known_layers(cur: Seq<Layer>, rv: Seq<BottleColor>) -> Seq<Layer> {
    Seq::new(
        cur.len(),
        |j: int|
            if j < rv.len() && cur[j].0 == BottleColor::Mystery {
                (rv[j], cur[j].1)
            } else {
                cur[j]
            },
    )
}

/// A current bottle improved with the revealed one: its mystery layers take
/// the revealed colours, and a hidden bottle that shows nothing takes the
/// layers of a revealed bottle with a hidden requirement, and is revealed when
/// that colour is solved in the revealed state.
pub open spec fn improved_current(cur: BottleView, rv: BottleView, solved: Set<BottleColor>) -> BottleView {
    let layers = known_layers(cur.0, colors_of(rv.0));
    if layers.len() == 0 && v_locked(cur) && requirement_color(rv.1) is Some {
        let b = (rv.0, cur.1, cur.2);
        if solved.contains(requirement_color(rv.1)->0) {
            v_unlocked(b)
        } else {
            b
        }
    } else {
        (layers, cur.1, cur.2)
    }
}

fn fill_known_layers(cur: &Vec<Layer>, rv: &Vec<BottleColor>) -> (r: Vec<Layer>)
    ensures
        r@ == known_layers(cur@, rv@),
{
    let mut out: Vec<Layer> = Vec::new();
    let mut j: usize = 0;
    while j < cur.len()
        invariant
            j <= cur.len(),
            out@ == known_layers(cur@, rv@).subrange(0, j as int),
        decreases cur.len() - j,
    {
        let (c, m) = cur[j];
        let mut layer = (c, m);
        if j < rv.len() && c == BottleColor::Mystery {
            layer = (rv[j], m);
        }
        out.push(layer);
        proof {
            assert(out@ =~= known_layers(cur@, rv@).subrange(0, j + 1));
        }
        j = j + 1;
    }
    proof {
        assert(out@ =~= known_layers(cur@, rv@));
    }
    out
}

/// Improves the current and the initial bottles with the most revealed state:
/// an initial hidden bottle that showed nothing takes the revealed layers, and
/// each current bottle is improved as `improved_current` says.
pub fn improve_current_and_initial_bottles_with_revealed_state(
    current_bottles: &mut Vec<Bottle>,
    initial_bottles: &mut Vec<Bottle>,
    max_revealed_bottle_state: &Vec<Bottle>,
)
    ensures
        final(initial_bottles)@.len() == old(initial_bottles)@.len(),
        forall|i: int|
            0 <= i < old(initial_bottles)@.len() ==> (#[trigger] final(initial_bottles)@[i])@
                == if i < max_revealed_bottle_state@.len() {
                filled_initial(old(initial_bottles)@[i]@, max_revealed_bottle_state@[i]@)
            } else {
                old(initial_bottles)@[i]@
            },
        final(current_bottles)@.len() == old(current_bottles)@.len(),
        forall|i: int|
            0 <= i < old(current_bottles)@.len() ==> (#[trigger] final(current_bottles)@[i])@
                == if i < max_revealed_bottle_state@.len() {
                improved_current(
                    old(current_bottles)@[i]@,
                    max_revealed_bottle_state@[i]@,
                    solved_colors(state_v(max_revealed_bottle_state@)),
                )
            } else {
                old(current_bottles)@[i]@
            },
        state_v(final(initial_bottles)@) == initial_after(
            state_v(old(initial_bottles)@),
            state_v(max_revealed_bottle_state@),
        ),
        state_v(final(current_bottles)@) == current_after(
            state_v(old(current_bottles)@),
            state_v(max_revealed_bottle_state@),
        ),
{
    let solved_bottles = crate::solver::solved_color_list(max_revealed_bottle_state);
    let ghost orig_init = initial_bottles@;
    let n = if initial_bottles.len() < max_revealed_bottle_state.len() {
        initial_bottles.len()
    } else {
        max_revealed_bottle_state.len()
    };
    let mut i: usize = 0;
    while i < n
        invariant
            i <= n,
            n <= orig_init.len(),
            n <= max_revealed_bottle_state@.len(),
            n == orig_init.len() || n == max_revealed_bottle_state@.len(),
            initial_bottles@.len() == orig_init.len(),
            forall|k: int|
                0 <= k < i ==> (#[trigger] initial_bottles@[k])@ == filled_initial(
                    orig_init[k]@,
                    max_revealed_bottle_state@[k]@,
                ),
            forall|k: int| i <= k < orig_init.len() ==> (#[trigger] initial_bottles@[k]) == orig_init[k],
        decreases n - i,
    {
        if initial_bottles[i].is_hidden_and_locked() && initial_bottles[i].is_empty()
            && !max_revealed_bottle_state[i].is_empty() {
            let mut b = initial_bottles[i].duplicate();
            b.set_fills_from_bottle(&max_revealed_bottle_state[i]);
            initial_bottles.set(i, b);
        }
        i = i + 1;
    }
    let ghost orig_cur = current_bottles@;
    let m = if current_bottles.len() < max_revealed_bottle_state.len() {
        current_bottles.len()
    } else {
        max_revealed_bottle_state.len()
    };
    let mut i: usize = 0;
    while i < m
        invariant
            i <= m,
            m <= orig_cur.len(),
            m <= max_revealed_bottle_state@.len(),
            m == orig_cur.len() || m == max_revealed_bottle_state@.len(),
            current_bottles@.len() == orig_cur.len(),
            forall|c: BottleColor|
                solved_bottles@.contains(c) <==> solved_colors(
                    state_v(max_revealed_bottle_state@),
                ).contains(c),
            forall|k: int|
                0 <= k < i ==> (#[trigger] current_bottles@[k])@ == improved_current(
                    orig_cur[k]@,
                    max_revealed_bottle_state@[k]@,
                    solved_colors(state_v(max_revealed_bottle_state@)),
                ),
            forall|k: int| i <= k < orig_cur.len() ==> (#[trigger] current_bottles@[k]) == orig_cur[k],
        decreases m - i,
    {
        let revealed = &max_revealed_bottle_state[i];
        let revealed_colors = revealed.get_fills();
        let mut bottle = current_bottles[i].duplicate();
        let fills = bottle.get_fills_mut();
        let merged = fill_known_layers(fills, &revealed_colors);
        *fills = merged;
        if bottle.is_empty() && bottle.is_hidden_and_locked() {
            match revealed.hidden_requirement() {
                Some(req_color) => {
                    bottle.set_fills_from_bottle(revealed);
                    if contains_color(&solved_bottles, req_color) {
                        bottle.unlock_hidden_requirement();
                    }
                },
                None => {},
            }
        }
        current_bottles.set(i, bottle);
        i = i + 1;
    }
    proof {
        assert(state_v(initial_bottles@) =~= initial_after(
            state_v(orig_init),
            state_v(max_revealed_bottle_state@),
        ));
        assert(state_v(current_bottles@) =~= current_after(
            state_v(orig_cur),
            state_v(max_revealed_bottle_state@),
        ));
    }
}

/// The most revealed state after `improve_best_revealed_state`.
pub open spec fn revealed_after(
    max: Seq<BottleView>,
    init: Seq<BottleView>,
    cur: Seq<BottleView>,
) -> Seq<BottleView> {
    Seq::new(
        max.len(),
        |i: int|
            if i < init.len() && i < cur.len() {
                improved_revealed(max[i], cur[i], init[i])
            } else {
                max[i]
            },
    )
}

proof fn lemma_mystery_count_le(a: Seq<BottleColor>, b: Seq<BottleColor>)
    requires
        a.len() == b.len(),
        forall|k: int| 0 <= k < a.len() && #[trigger] a[k] == BottleColor::Mystery ==> b[k] == BottleColor::Mystery,
    ensures
        mystery_count(a) <= mystery_count(b),
    decreases a.len(),
{
    if a.len() > 0 {
        lemma_mystery_count_le(a.drop_last(), b.drop_last());
        assert(a.last() == a[a.len() - 1] && b.last() == b[b.len() - 1]);
    }
}

proof fn lemma_total_mystery_le(x: Seq<BottleView>, y: Seq<BottleView>)
    requires
        x.len() == y.len(),
        forall|i: int|
            0 <= i < x.len() ==> mystery_count(colors_of((#[trigger] x[i]).0)) <= mystery_count(colors_of(y[i].0)),
    ensures
        total_mystery(x) <= total_mystery(y),
    decreases x.len(),
{
    if x.len() > 0 {
        assert(x.last() == x[x.len() - 1] && y.last() == y[y.len() - 1]);
        assert forall|i: int| 0 <= i < x.drop_last().len() implies mystery_count(
            colors_of((#[trigger] x.drop_last()[i]).0),
        ) <= mystery_count(colors_of(y.drop_last()[i].0)) by {
            assert(x.drop_last()[i] == x[i] && y.drop_last()[i] == y[i]);
        }
        lemma_total_mystery_le(x.drop_last(), y.drop_last());
    }
}

/// Improving the most revealed state, where no bottle is hidden and empty,
/// keeps every bottle's number of layers, hidden requirement and mystery
/// marks, and changes a layer only from a mystery layer to the colour the
/// current bottle shows there, which is not a mystery; so it never adds a
/// mystery layer.
pub proof fn lemma_improve_reveals_only(max: Seq<BottleView>, init: Seq<BottleView>, cur: Seq<BottleView>)
    requires
        forall|i: int| 0 <= i < max.len() ==> !(v_locked(#[trigger] max[i]) && v_count(max[i]) == 0),
    ensures
        ({
            let r = revealed_after(max, init, cur);
            &&& r.len() == max.len()
            &&& forall|i: int|
                0 <= i < max.len() ==> v_count(#[trigger] r[i]) == v_count(max[i]) && r[i].1 == max[i].1
            &&& forall|i: int, k: int|
                0 <= i < max.len() && 0 <= k < v_count(max[i]) ==> (#[trigger] r[i].0[k]) == max[i].0[k] || (
                max[i].0[k].0 == BottleColor::Mystery && k < cur[i].0.len() && r[i].0[k].0 == cur[i].0[k].0
                    && r[i].0[k].0 != BottleColor::Mystery && r[i].0[k].1 == max[i].0[k].1)
            &&& total_mystery(r) <= total_mystery(max)
        }),
{
    let r = revealed_after(max, init, cur);
    assert forall|i: int| 0 <= i < max.len() implies mystery_count(colors_of((#[trigger] r[i]).0)) <= mystery_count(
        colors_of(max[i].0),
    ) by {
        assert forall|k: int|
            0 <= k < colors_of(r[i].0).len() && #[trigger] colors_of(r[i].0)[k] == BottleColor::Mystery implies colors_of(
            max[i].0,
        )[k] == BottleColor::Mystery by {
            assert(colors_of(r[i].0)[k] == r[i].0[k].0);
        }
        lemma_mystery_count_le(colors_of(r[i].0), colors_of(max[i].0));
    }
    lemma_total_mystery_le(r, max);
}

/// A hidden bottle of the most revealed state that still shows nothing takes,
/// once the current bottle at its place is no longer hidden, exactly the
/// current bottle's layers, and is recorded as revealed behind the colour it
/// waited for; its click position stays. Bottles beyond those that all three
/// states have are kept as they are.
pub proof fn lemma_improve_records_revealed_bottle(
    max: Seq<BottleView>,
    init: Seq<BottleView>,
    cur: Seq<BottleView>,
    i: int,
)
    requires
        0 <= i < max.len(),
    ensures
        revealed_after(max, init, cur).len() == max.len(),
        i < init.len() && i < cur.len() && v_locked(max[i]) && v_count(max[i]) == 0 && !v_locked(cur[i])
            ==> ({
            let r = revealed_after(max, init, cur)[i];
            &&& r.0 == cur[i].0
            &&& r.1 == HiddenRequirement::Unlocked(max[i].1->Locked_0)
            &&& r.2 == max[i].2
        }),
        !(i < init.len() && i < cur.len()) ==> revealed_after(max, init, cur)[i] == max[i],
{
    if i < init.len() && i < cur.len() && v_locked(max[i]) && v_count(max[i]) == 0 {
        let init_colors = if v_locked(init[i]) && v_count(init[i]) == 0 {
            colors_of(max[i].0)
        } else {
            colors_of(init[i].0)
        };
        assert(revealed_layers(max[i].0, colors_of(cur[i].0), init_colors).len() == 0);
    }
}

/// The initial bottles after `improve_current_and_initial_bottles_with_revealed_state`.
pub open spec fn initial_after(init: Seq<BottleView>, max: Seq<BottleView>) -> Seq<BottleView> {
    Seq::new(
        init.len(),
        |i: int|
            if i < max.len() {
                filled_initial(init[i], max[i])
            } else {
                init[i]
            },
    )
}

/// The current bottles after `improve_current_and_initial_bottles_with_revealed_state`.
pub open spec fn current_after(cur: Seq<BottleView>, max: Seq<BottleView>) -> Seq<BottleView> {
    Seq::new(
        cur.len(),
        |i: int|
            if i < max.len() {
                improved_current(cur[i], max[i], solved_colors(max))
            } else {
                cur[i]
            },
    )
}

/// Improving keeps every level within the solver's limits.
pub proof fn lemma_improving_keeps_fit(
    max: Seq<BottleView>,
    init: Seq<BottleView>,
    cur: Seq<BottleView>,
)
    requires
        level_fits(max),
        level_fits(init),
        level_fits(cur),
    ensures
        level_fits(revealed_after(max, init, cur)),
        level_fits(initial_after(init, max)),
        level_fits(current_after(cur, max)),
{
    let r = revealed_after(max, init, cur);
    assert forall|i: int| 0 <= i < r.len() implies v_count(#[trigger] r[i]) <= 4 by {
        assert(v_count(max[i]) <= 4);
        if i < init.len() && i < cur.len() {
            assert(v_count(cur[i]) <= 4);
        }
    }
    let a = initial_after(init, max);
    assert forall|i: int| 0 <= i < a.len() implies v_count(#[trigger] a[i]) <= 4 by {
        assert(v_count(init[i]) <= 4);
        if i < max.len() {
            assert(v_count(max[i]) <= 4);
        }
    }
    let c = current_after(cur, max);
    assert forall|i: int| 0 <= i < c.len() implies v_count(#[trigger] c[i]) <= 4 by {
        assert(v_count(cur[i]) <= 4);
        if i < max.len() {
            assert(v_count(max[i]) <= 4);
        }
    }
}

} // verus!
