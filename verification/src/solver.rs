//! The move search: which moves a level allows, and a best-first search for a
//! shortest sequence of moves that reaches a goal.
use vstd::prelude::*;

use crate::bottle::{
    colors_of, layers_with_initial, lemma_top_run_bounds, top_run, v_count, v_locked,
    v_solved, v_solved_color, v_top_fill, Bottle, BottleView, HiddenRequirement, Layer,
    FULL_BOTTLE_COUNT,
};
use crate::color::BottleColor;
use crate::position::Pos;
use crate::classic::reach::is_perm;
use crate::estimate::{lemma_done_runs, lemma_path_keeps_layers, lemma_runs_alike, lemma_runs_bound_moves, lemma_step_keeps_layers};
use crate::reach::{
    alike, alike_by, lemma_alike_trans, lemma_exhausted_search_complete, lemma_goal_alike,
    lemma_hidden_count_alike, lemma_left_out_move_alike, lemma_move_alike, lemma_same_key_alike, lemma_tidy_path,
    lemma_tidy_step, lemma_unlock_alike, lemma_unlock_tidy, plain_level, tidy,
};
use crate::rules::{
    all_done, apply_move, capacity_ok, hidden_empty_count, lemma_move_conserves_colors,
    lemma_move_keeps_capacity, lemma_unlock_conserves_colors, lemma_unlock_keeps_layers,
    level_colors, level_layers, move_ok, solved_colors, state_v, step, unlock_solved, unlockable,
};

verus! {

/// A move: pour from the bottle at the source index into the bottle at the
/// destination index, with the positions to click for both.
#[derive(Debug, Clone, Copy, PartialEq, Eq)]
pub struct Move {
    source_idx: usize,
    source_clickable_pos: Option<Pos>,
    destination_idx: usize,
    destination_clickable_pos: Option<Pos>,
}

/// A move as source index, source click position, destination index and
/// destination click position.
pub type MoveView = (usize, Option<Pos>, usize, Option<Pos>);

impl View for Move {
    type V = MoveView;

    closed spec fn view(&self) -> MoveView {
        (
            self.source_idx,
            self.source_clickable_pos,
            self.destination_idx,
            self.destination_clickable_pos,
        )
    }
}

/// The moves of a sequence, by their views.
pub open spec fn moves_v(moves: Seq<Move>) -> Seq<MoveView> {
    moves.map_values(|m: Move| m@)
}

/// The move is allowed in the level, and its click positions are those of its
/// two bottles.
pub open spec fn move_fits(s: Seq<BottleView>, m: MoveView) -> bool {
    &&& move_ok(s, m.0 as int, m.2 as int)
    &&& m.1 == s[m.0 as int].2
    &&& m.3 == s[m.2 as int].2
}

/// Which successor states a search accepts.
#[derive(Debug, Clone, Copy, PartialEq, Eq, Structural)]
pub enum StateFilter {
    /// Every successor.
    Any,
    /// Only successors with as many hidden, still empty bottles as before.
    KeepHiddenCount,
}

pub open spec fn filter_ok(f: StateFilter, prev: Seq<BottleView>, next: Seq<BottleView>) -> bool {
    match f {
        StateFilter::Any => true,
        StateFilter::KeepHiddenCount => hidden_empty_count(next) == hidden_empty_count(prev),
    }
}

/// What a search looks for.
#[derive(Debug, Clone, PartialEq, Eq)]
pub enum SearchGoal {
    /// Every bottle solved, or empty and not hidden.
    AllSolved,
    /// After at least one move, some bottle solved in one of these colours.
    UnlockHidden(Vec<BottleColor>),
    /// After at least one move, some bottle with a mystery layer on top.
    RevealMystery,
}

pub open spec fn goal_met(goal: SearchGoal, s: Seq<BottleView>, move_count: nat) -> bool {
    match goal {
        SearchGoal::AllSolved => all_done(s),
        SearchGoal::UnlockHidden(reqs) => move_count > 0 && exists|i: int|
            0 <= i < s.len() && (#[trigger] v_solved_color(s[i])) is Some && reqs@.contains(
                v_solved_color(s[i])->0,
            ),
        SearchGoal::RevealMystery => move_count > 0 && exists|i: int|
            0 <= i < s.len() && (#[trigger] v_top_fill(s[i])) is Some && (v_top_fill(s[i])->0).1
                == BottleColor::Mystery,
    }
}

/// The level after playing the moves in order, each followed by the reveal
/// of hidden bottles.
pub open spec fn replay(s: Seq<BottleView>, moves: Seq<MoveView>) -> Seq<BottleView>
    decreases moves.len(),
{
    if moves.len() == 0 {
        s
    } else {
        replay(step(s, moves[0].0 as int, moves[0].2 as int), moves.drop_first())
    }
}

/// Every move of the sequence is allowed where it is played, and every
/// state it passes through is accepted by the filter.
pub open spec fn valid_path(s: Seq<BottleView>, moves: Seq<MoveView>, f: StateFilter) -> bool
    decreases moves.len(),
{
    if moves.len() == 0 {
        true
    } else {
        let next = step(s, moves[0].0 as int, moves[0].2 as int);
        &&& move_fits(s, moves[0])
        &&& filter_ok(f, s, next)
        &&& valid_path(next, moves.drop_first(), f)
    }
}

/// The non-empty colours of a sequence, in order.
pub open spec fn non_empty_colors(cs: Seq<BottleColor>) -> Seq<BottleColor>
    decreases cs.len(),
{
    if cs.len() == 0 {
        cs
    } else if cs.last() == BottleColor::Empty {
        non_empty_colors(cs.drop_last())
    } else {
        non_empty_colors(cs.drop_last()).push(cs.last())
    }
}

/// How many neighbouring pairs of a sequence differ.
pub open spec fn changes(cs: Seq<BottleColor>) -> nat
    decreases cs.len(),
{
    if cs.len() <= 1 {
        0
    } else {
        changes(cs.drop_last()) + if cs.last() != cs[cs.len() - 2] {
            1nat
        } else {
            0nat
        }
    }
}

/// The number of runs of one colour in a sequence.
pub open spec fn runs(cs: Seq<BottleColor>) -> nat {
    if cs.len() == 0 {
        0
    } else {
        1 + changes(cs)
    }
}

/// The number of runs of one colour in a bottle, not counting empty layers.
pub open spec fn bottle_runs(v: BottleView) -> nat {
    runs(non_empty_colors(colors_of(v.0)))
}

pub open spec fn total_runs(s: Seq<BottleView>) -> nat
    decreases s.len(),
{
    if s.len() == 0 {
        0
    } else {
        total_runs(s.drop_last()) + bottle_runs(s.last())
    }
}

pub open spec fn total_layers(s: Seq<BottleView>) -> nat
    decreases s.len(),
{
    if s.len() == 0 {
        0
    } else {
        total_layers(s.drop_last()) + v_count(s.last())
    }
}

/// The bottle holds at least one non-empty layer, all its non-empty layers
/// have one colour, and that colour is not `Mystery`.
pub open spec fn single_color(v: BottleView) -> bool {
    &&& exists|i: int| 0 <= i < v.0.len() && (#[trigger] v.0[i]).0 != BottleColor::Empty
    &&& forall|i: int, j: int|
        0 <= i < v.0.len() && 0 <= j < v.0.len() && (#[trigger] v.0[i]).0 != BottleColor::Empty
            && (#[trigger] v.0[j]).0 != BottleColor::Empty ==> v.0[i].0 == v.0[j].0
    &&& forall|i: int|
        0 <= i < v.0.len() && (#[trigger] v.0[i]).0 != BottleColor::Empty ==> v.0[i].0
            != BottleColor::Mystery
}

/// A move the generator offers: an allowed move from a bottle that is not
/// solved, empty or locked, into a bottle that is not solved or locked,
/// except a move that empties a single-coloured bottle into an empty one.
pub open spec fn candidate(s: Seq<BottleView>, src: int, dst: int) -> bool {
    &&& src != dst
    &&& !v_solved(s[src])
    &&& v_count(s[src]) != 0
    &&& !v_locked(s[src])
    &&& !v_solved(s[dst])
    &&& !v_locked(s[dst])
    &&& !(single_color(s[src]) && v_count(s[dst]) == 0)
    &&& move_ok(s, src, dst)
}

/// The moves the generator offers, as pairs of indices, for the first `k`
/// pairs in the order source-major, destination-minor.
pub open spec fn candidates_upto(s: Seq<BottleView>, k: int) -> Seq<(int, int)>
    decreases k,
{
    if k <= 0 || s.len() == 0 {
        Seq::empty()
    } else {
        let src = (k - 1) / (s.len() as int);
        let dst = (k - 1) % (s.len() as int);
        candidates_upto(s, k - 1) + if candidate(s, src, dst) {
            seq![(src, dst)]
        } else {
            Seq::empty()
        }
    }
}

proof fn lemma_candidates_upto_shape(s: Seq<BottleView>, k: int)
    requires
        s.len() > 0,
        0 <= k <= s.len() * s.len(),
    ensures
        forall|a: int, b: int|
            #![trigger candidates_upto(s, k).contains((a, b))]
            candidates_upto(s, k).contains((a, b)) <==> (0 <= a < s.len() && 0 <= b < s.len() && a
                * s.len() + b < k && candidate(s, a, b)),
        forall|i: int|
            0 <= i < candidates_upto(s, k).len() ==> {
                let p = #[trigger] candidates_upto(s, k)[i];
                &&& 0 <= p.0 < s.len()
                &&& 0 <= p.1 < s.len()
                &&& p.0 * s.len() + p.1 < k
            },
        forall|i: int, j: int|
            0 <= i < j < candidates_upto(s, k).len() ==> (#[trigger] candidates_upto(s, k)[i]).0
                * s.len() + candidates_upto(s, k)[i].1 < (#[trigger] candidates_upto(s, k)[j]).0
                * s.len() + candidates_upto(s, k)[j].1,
    decreases k,
{
    let n = s.len() as int;
    if k > 0 {
        lemma_candidates_upto_shape(s, k - 1);
        let src = (k - 1) / n;
        let dst = (k - 1) % n;
        vstd::arithmetic::div_mod::lemma_fundamental_div_mod(k - 1, n);
        vstd::arithmetic::div_mod::lemma_mod_bound(k - 1, n);
        vstd::arithmetic::div_mod::lemma_div_pos_is_pos(k - 1, n);
        assert(0 <= src < n) by (nonlinear_arith)
            requires
                k - 1 == n * src + dst,
                0 <= dst < n,
                0 <= src,
                k - 1 < n * n,
        ;
        assert(src * n + dst == k - 1) by (nonlinear_arith)
            requires
                k - 1 == n * src + dst,
        ;
        let c0 = candidates_upto(s, k - 1);
        let c = candidates_upto(s, k);
        assert forall|a: int, b: int|
            #![trigger c.contains((a, b))]
            c.contains((a, b)) <==> (0 <= a < n && 0 <= b < n && a * n + b < k && candidate(s, a, b)) by {
            if 0 <= a < n && 0 <= b < n && a * n + b == k - 1 {
                vstd::arithmetic::div_mod::lemma_fundamental_div_mod_converse(k - 1, n, a, b);
            }
            if c.contains((a, b)) {
                let j = choose|j: int| 0 <= j < c.len() && c[j] == (a, b);
                if j < c0.len() {
                    assert(c0[j] == (a, b));
                    assert(c0.contains((a, b)));
                } else {
                    assert(c[j] == (src, dst));
                }
            }
            if 0 <= a < n && 0 <= b < n && a * n + b < k && candidate(s, a, b) {
                if a * n + b < k - 1 {
                    assert(c0.contains((a, b)));
                    let j = choose|j: int| 0 <= j < c0.len() && c0[j] == (a, b);
                    assert(c[j] == (a, b));
                } else {
                    assert(c[c.len() - 1] == (a, b));
                }
            }
        }
        assert forall|i: int| 0 <= i < c.len() implies {
            let p = #[trigger] c[i];
            &&& 0 <= p.0 < n
            &&& 0 <= p.1 < n
            &&& p.0 * n + p.1 < k
        } by {
            if i < c0.len() {
                assert(c[i] == c0[i]);
            }
        }
        assert forall|i: int, j: int| 0 <= i < j < c.len() implies (#[trigger] c[i]).0 * n + c[i].1
            < (#[trigger] c[j]).0 * n + c[j].1 by {
            assert(c[i] == c0[i]);
            if j < c0.len() {
                assert(c[j] == c0[j]);
            } else {
                assert(c[j] == (src, dst));
            }
        }
    }
}

/// The moves the generator offers are exactly the candidate pairs of
/// bottles, each once, ordered by source, then by destination.
pub proof fn lemma_generated_moves(s: Seq<BottleView>)
    requires
        s.len() > 0,
    ensures
        forall|a: int, b: int|
            #![trigger candidates_upto(s, (s.len() * s.len()) as int).contains((a, b))]
            candidates_upto(s, (s.len() * s.len()) as int).contains((a, b)) <==> (0 <= a < s.len() && 0
                <= b < s.len() && candidate(s, a, b)),
        forall|i: int, j: int|
            0 <= i < j < candidates_upto(s, (s.len() * s.len()) as int).len() ==> {
                let p = #[trigger] candidates_upto(s, (s.len() * s.len()) as int)[i];
                let q = #[trigger] candidates_upto(s, (s.len() * s.len()) as int)[j];
                p.0 < q.0 || (p.0 == q.0 && p.1 < q.1)
            },
{
    let n = s.len() as int;
    let k = n * n;
    lemma_candidates_upto_shape(s, k);
    let c = candidates_upto(s, k);
    assert forall|a: int, b: int|
        #![trigger c.contains((a, b))]
        c.contains((a, b)) <==> (0 <= a < n && 0 <= b < n && candidate(s, a, b)) by {
        if 0 <= a < n && 0 <= b < n {
            assert(a * n + b < n * n) by (nonlinear_arith)
                requires
                    0 <= a < n,
                    0 <= b < n,
            ;
        }
    }
    assert forall|i: int, j: int| 0 <= i < j < c.len() implies {
        let p = #[trigger] c[i];
        let q = #[trigger] c[j];
        p.0 < q.0 || (p.0 == q.0 && p.1 < q.1)
    } by {
        let p = c[i];
        let q = c[j];
        assert(p.0 * n + p.1 < q.0 * n + q.1);
        if q.0 < p.0 {
            assert(q.0 * n + q.1 < p.0 * n + p.1) by (nonlinear_arith)
                requires
                    0 <= q.1 < n,
                    0 <= p.1,
                    q.0 < p.0,
            ;
        } else if q.0 == p.0 {
        }
    }
}

impl Move {
    pub open spec fn src(&self) -> int {
        self@.0 as int
    }

    pub open spec fn dst(&self) -> int {
        self@.2 as int
    }

    pub fn source_index(&self) -> (r: usize)
        ensures
            r == self@.0,
    {
        self.source_idx
    }

    pub fn destination_index(&self) -> (r: usize)
        ensures
            r == self@.2,
    {
        self.destination_idx
    }

    pub fn source_clickable_pos(&self) -> (r: Option<Pos>)
        ensures
            r == self@.1,
    {
        self.source_clickable_pos
    }

    pub fn destination_clickable_pos(&self) -> (r: Option<Pos>)
        ensures
            r == self@.3,
    {
        self.destination_clickable_pos
    }

    /// Whether the move is allowed in the level.
    pub fn can_perform_on_bottles(&self, bottles: &Vec<Bottle>) -> (r: bool)
        ensures
            r == move_ok(state_v(bottles@), self.src(), self.dst()),
    {
        if self.source_idx == self.destination_idx {
            return false;
        }
        if self.source_idx >= bottles.len() || self.destination_idx >= bottles.len() {
            return false;
        }
        bottles[self.destination_idx].can_fill_from(&bottles[self.source_idx])
    }

    /// Plays the move on the level.
    pub fn perform_move_on_bottles(&self, bottles: &mut Vec<Bottle>)
        requires
            move_ok(state_v(old(bottles)@), self.src(), self.dst()),
            v_count(old(bottles)@[self.dst()]@) + top_run(old(bottles)@[self.src()]@.0)
                <= FULL_BOTTLE_COUNT,
        ensures
            state_v(final(bottles)@) == apply_move(state_v(old(bottles)@), self.src(), self.dst()),
    {
        let mut source = bottles[self.source_idx].duplicate();
        let mut destination = bottles[self.destination_idx].duplicate();
        destination.fill_from(&mut source);
        bottles[self.destination_idx] = destination;
        bottles[self.source_idx] = source;
        proof {
            assert(state_v(bottles@) =~= apply_move(
                state_v(old(bottles)@),
                self.src(),
                self.dst(),
            ));
        }
    }
}

/// Copies a level.
pub fn copy_bottles(bottles: &Vec<Bottle>) -> (r: Vec<Bottle>)
    ensures
        state_v(r@) == state_v(bottles@),
{
    let mut out: Vec<Bottle> = Vec::new();
    let mut i: usize = 0;
    while i < bottles.len()
        invariant
            i <= bottles.len(),
            out@.len() == i,
            forall|k: int| 0 <= k < i ==> (#[trigger] out@[k])@ == bottles@[k]@,
        decreases bottles.len() - i,
    {
        out.push(bottles[i].duplicate());
        i = i + 1;
    }
    proof {
        assert(state_v(out@) =~= state_v(bottles@));
    }
    out
}

pub(crate) fn contains_color(colors: &Vec<BottleColor>, c: BottleColor) -> (r: bool)
    ensures
        r == colors@.contains(c),
{
    let mut i: usize = 0;
    while i < colors.len()
        invariant
            i <= colors.len(),
            forall|k: int| 0 <= k < i ==> colors@[k] != c,
        decreases colors.len() - i,
    {
        if colors[i] == c {
            return true;
        }
        i = i + 1;
    }
    false
}

/// The colours of the solved bottles among the first `n` bottles, in order.
pub open spec fn solved_prefix(s: Seq<BottleView>, n: int) -> Seq<BottleColor>
    decreases n,
{
    if n <= 0 {
        Seq::empty()
    } else {
        solved_prefix(s, n - 1) + match v_solved_color(s[n - 1]) {
            Some(c) => seq![c],
            None => Seq::empty(),
        }
    }
}

proof fn lemma_solved_prefix(s: Seq<BottleView>, n: int)
    requires
        0 <= n <= s.len(),
    ensures
        forall|c: BottleColor|
            solved_prefix(s, n).contains(c) <==> exists|j: int|
                0 <= j < n && #[trigger] v_solved_color(s[j]) == Some(c),
    decreases n,
{
    if n > 0 {
        lemma_solved_prefix(s, n - 1);
        let prev = solved_prefix(s, n - 1);
        let tail = match v_solved_color(s[n - 1]) {
            Some(c) => seq![c],
            None => Seq::<BottleColor>::empty(),
        };
        assert forall|c: BottleColor|
            solved_prefix(s, n).contains(c) <==> exists|j: int|
                0 <= j < n && #[trigger] v_solved_color(s[j]) == Some(c) by {
            if solved_prefix(s, n).contains(c) {
                let k = choose|k: int|
                    0 <= k < solved_prefix(s, n).len() && solved_prefix(s, n)[k] == c;
                if k < prev.len() {
                    assert(prev[k] == c);
                    assert(prev.contains(c));
                } else {
                    assert(v_solved_color(s[n - 1]) == Some(c));
                }
            }
            if exists|j: int| 0 <= j < n && #[trigger] v_solved_color(s[j]) == Some(c) {
                let j = choose|j: int| 0 <= j < n && #[trigger] v_solved_color(s[j]) == Some(c);
                if j < n - 1 {
                    assert(prev.contains(c));
                    let k = choose|k: int| 0 <= k < prev.len() && prev[k] == c;
                    assert(solved_prefix(s, n)[k] == c);
                } else {
                    assert(solved_prefix(s, n)[prev.len() as int] == c);
                }
            }
        }
    }
}

/// The colours of the solved bottles, in a list.
pub(crate) fn solved_color_list(bottles: &Vec<Bottle>) -> (r: Vec<BottleColor>)
    ensures
        forall|c: BottleColor| r@.contains(c) <==> solved_colors(state_v(bottles@)).contains(c),
{
    let ghost s = state_v(bottles@);
    let mut out: Vec<BottleColor> = Vec::new();
    let mut i: usize = 0;
    while i < bottles.len()
        invariant
            i <= bottles.len(),
            s == state_v(bottles@),
            out@ == solved_prefix(s, i as int),
        decreases bottles.len() - i,
    {
        match bottles[i].solved_color() {
            Some(c) => {
                out.push(c);
            },
            None => {},
        }
        proof {
            assert(s[i as int] == bottles@[i as int]@);
            assert(out@ =~= solved_prefix(s, i + 1));
        }
        i = i + 1;
    }
    proof {
        lemma_solved_prefix(s, s.len() as int);
    }
    out
}

/// Every bottle within capacity, and few enough bottles that counting all
/// their layers fits in a `usize`.
pub open spec fn level_fits(s: Seq<BottleView>) -> bool {
    &&& capacity_ok(s)
    &&& s.len() * FULL_BOTTLE_COUNT <= usize::MAX
}

/// Reveals every hidden bottle whose colour is solved by some bottle.
pub fn unlock_hidden_bottles_with_solved_colors(bottles: &mut Vec<Bottle>)
    ensures
        state_v(final(bottles)@) == unlock_solved(state_v(old(bottles)@)),
{
    let ghost s = state_v(bottles@);
    let solved = solved_color_list(bottles);
    let mut i: usize = 0;
    while i < bottles.len()
        invariant
            i <= bottles.len(),
            bottles@.len() == s.len(),
            forall|c: BottleColor| solved@.contains(c) <==> solved_colors(s).contains(c),
            forall|k: int| 0 <= k < i ==> (#[trigger] bottles@[k])@ == unlock_solved(s)[k],
            forall|k: int| i <= k < s.len() ==> (#[trigger] bottles@[k])@ == s[k],
        decreases bottles.len() - i,
    {
        match bottles[i].get_locked_hidden_requirement() {
            Some(required) => {
                if contains_color(&solved, required) {
                    let mut b = bottles[i].duplicate();
                    b.unlock_hidden_requirement();
                    bottles[i] = b;
                }
            },
            None => {},
        }
        i = i + 1;
    }
    proof {
        assert(state_v(bottles@) =~= unlock_solved(s));
    }
}

/// Whether all non-empty layers of the bottle share one colour that is not
/// `Mystery`.
pub fn is_single_color_bottle(bottle: &Bottle) -> (r: bool)
    ensures
        r == single_color(bottle@),
{
    let colors = bottle.get_fills();
    let ghost l = bottle@.0;
    let mut first: usize = 0;
    while first < colors.len()
        invariant
            first <= colors.len(),
            colors@ == colors_of(l),
            l == bottle@.0,
            forall|k: int| 0 <= k < first ==> l[k].0 == BottleColor::Empty,
        ensures
            first <= colors.len(),
            forall|k: int| 0 <= k < first ==> l[k].0 == BottleColor::Empty,
            first < colors.len() ==> l[first as int].0 != BottleColor::Empty,
        decreases colors.len() - first,
    {
        if !colors[first].is_empty() {
            break;
        }
        first = first + 1;
    }
    if first == colors.len() {
        proof {
            assert(!(exists|i: int| 0 <= i < l.len() && (#[trigger] l[i]).0 != BottleColor::Empty));
        }
        return false;
    }
    let c = colors[first];
    assert(l[first as int].0 == c);
    if let BottleColor::Mystery = c {
        return false;
    }
    let mut j: usize = first;
    while j < colors.len()
        invariant
            first <= j <= colors.len(),
            first < colors.len(),
            colors@ == colors_of(l),
            l == bottle@.0,
            l[first as int].0 == c,
            c != BottleColor::Mystery,
            c != BottleColor::Empty,
            forall|k: int| 0 <= k < first ==> l[k].0 == BottleColor::Empty,
            forall|k: int| first <= k < j && l[k].0 != BottleColor::Empty ==> l[k].0 == c,
        decreases colors.len() - j,
    {
        let d = colors[j];
        if !d.is_empty() && !(d == c) {
            proof {
                assert(l[j as int].0 == d);
                assert(l[j as int].0 != l[first as int].0);
                assert(l[j as int].0 != BottleColor::Empty);
                assert(l[first as int].0 != BottleColor::Empty);
                let fi = first as int;
                let ji = j as int;
                assert(0 <= fi < l.len() && 0 <= ji < l.len());
                assert(!(l[fi].0 == l[ji].0));
                assert(!single_color(bottle@));
            }
            return false;
        }
        j = j + 1;
    }
    proof {
        assert forall|i: int, k: int|
            0 <= i < l.len() && 0 <= k < l.len() && (#[trigger] l[i]).0 != BottleColor::Empty
                && (#[trigger] l[k]).0 != BottleColor::Empty implies l[i].0 == l[k].0 by {
            assert(l[i].0 == c);
            assert(l[k].0 == c);
        }
    }
    true
}

proof fn lemma_non_empty_len(cs: Seq<BottleColor>)
    ensures
        non_empty_colors(cs).len() <= cs.len(),
    decreases cs.len(),
{
    if cs.len() > 0 {
        lemma_non_empty_len(cs.drop_last());
    }
}

proof fn lemma_changes_bound(cs: Seq<BottleColor>)
    ensures
        cs.len() > 0 ==> changes(cs) < cs.len(),
    decreases cs.len(),
{
    if cs.len() > 1 {
        lemma_changes_bound(cs.drop_last());
    }
}

proof fn lemma_bottle_runs_bound(v: BottleView)
    ensures
        bottle_runs(v) <= v_count(v),
{
    let cs = colors_of(v.0);
    lemma_non_empty_len(cs);
    lemma_changes_bound(non_empty_colors(cs));
}

/// The number of runs of one colour in the bottle, not counting empty layers.
pub fn bottle_run_count(bottle: &Bottle) -> (r: usize)
    ensures
        r == bottle_runs(bottle@),
{
    let colors = bottle.get_fills();
    let ghost cs = colors@;
    let mut last: Option<BottleColor> = None;
    let mut count: usize = 0;
    let mut i: usize = 0;
    while i < colors.len()
        invariant
            i <= colors.len(),
            cs == colors@,
            count == runs(non_empty_colors(cs.subrange(0, i as int))),
            count <= i,
            last == (if non_empty_colors(cs.subrange(0, i as int)).len() == 0 {
                None::<BottleColor>
            } else {
                Some(non_empty_colors(cs.subrange(0, i as int)).last())
            }),
        decreases colors.len() - i,
    {
        let c = colors[i];
        let ghost prev = non_empty_colors(cs.subrange(0, i as int));
        proof {
            assert(cs.subrange(0, i + 1).drop_last() =~= cs.subrange(0, i as int));
            lemma_non_empty_len(cs.subrange(0, i as int));
        }
        if !c.is_empty() {
            proof {
                let next = prev.push(c);
                assert(non_empty_colors(cs.subrange(0, i + 1)) == next);
                assert(next.drop_last() =~= prev);
                if prev.len() > 0 {
                    assert(next[next.len() - 2] == prev.last());
                }
            }
            match last {
                None => {
                    count = 1;
                },
                Some(p) => {
                    if !(p == c) {
                        count = count + 1;
                    }
                },
            }
            last = Some(c);
        }
        i = i + 1;
    }
    proof {
        assert(cs.subrange(0, cs.len() as int) =~= cs);
    }
    count
}

proof fn lemma_total_runs_bound(s: Seq<BottleView>)
    requires
        capacity_ok(s),
    ensures
        total_runs(s) <= s.len() * FULL_BOTTLE_COUNT,
        total_layers(s) <= s.len() * FULL_BOTTLE_COUNT,
    decreases s.len(),
{
    if s.len() > 0 {
        assert(capacity_ok(s.drop_last()));
        lemma_total_runs_bound(s.drop_last());
        lemma_bottle_runs_bound(s.last());
        assert(v_count(s[s.len() - 1]) <= FULL_BOTTLE_COUNT);
    }
}

/// The number of runs of one colour over all bottles.
pub fn total_run_count(bottles: &Vec<Bottle>) -> (r: usize)
    requires
        level_fits(state_v(bottles@)),
    ensures
        r == total_runs(state_v(bottles@)),
{
    let ghost s = state_v(bottles@);
    let mut total: usize = 0;
    let mut i: usize = 0;
    while i < bottles.len()
        invariant
            i <= bottles.len(),
            s == state_v(bottles@),
            level_fits(s),
            total == total_runs(s.subrange(0, i as int)),
        decreases bottles.len() - i,
    {
        proof {
            assert(s.subrange(0, i + 1).drop_last() =~= s.subrange(0, i as int));
            assert(capacity_ok(s.subrange(0, i + 1)));
            lemma_total_runs_bound(s.subrange(0, i + 1));
            assert((i + 1) * FULL_BOTTLE_COUNT <= s.len() * FULL_BOTTLE_COUNT) by (nonlinear_arith)
                requires
                    i + 1 <= s.len(),
            ;
        }
        total = total + bottle_run_count(&bottles[i]);
        i = i + 1;
    }
    proof {
        assert(s.subrange(0, s.len() as int) =~= s);
    }
    total
}

/// How many bottles a solution fills: all layers, four to a bottle.
pub fn target_solved_bottle_count(bottles: &Vec<Bottle>) -> (r: usize)
    requires
        level_fits(state_v(bottles@)),
    ensures
        r == total_layers(state_v(bottles@)) / FULL_BOTTLE_COUNT as nat,
{
    let ghost s = state_v(bottles@);
    let mut total: usize = 0;
    let mut i: usize = 0;
    while i < bottles.len()
        invariant
            i <= bottles.len(),
            s == state_v(bottles@),
            level_fits(s),
            total == total_layers(s.subrange(0, i as int)),
        decreases bottles.len() - i,
    {
        proof {
            assert(s.subrange(0, i + 1).drop_last() =~= s.subrange(0, i as int));
            assert(capacity_ok(s.subrange(0, i + 1)));
            lemma_total_runs_bound(s.subrange(0, i + 1));
            assert((i + 1) * FULL_BOTTLE_COUNT <= s.len() * FULL_BOTTLE_COUNT) by (nonlinear_arith)
                requires
                    i + 1 <= s.len(),
            ;
        }
        total = total + bottles[i].get_fill_count();
        i = i + 1;
    }
    proof {
        assert(s.subrange(0, s.len() as int) =~= s);
    }
    total / FULL_BOTTLE_COUNT
}

/// The estimate of moves still needed: the runs of one colour beyond the
/// number of bottles a solution fills.
pub fn estimate_remaining_moves(bottles: &Vec<Bottle>, target_solved_bottle_count: usize) -> (r:
    usize)
    requires
        level_fits(state_v(bottles@)),
    ensures
        r == if total_runs(state_v(bottles@)) >= target_solved_bottle_count {
            (total_runs(state_v(bottles@)) - target_solved_bottle_count) as nat
        } else {
            0
        },
{
    total_run_count(bottles).saturating_sub(target_solved_bottle_count)
}

proof fn lemma_div_mod_step(k: int, n: int, src: int, dst: int)
    requires
        n > 0,
        0 <= dst < n,
        0 <= src,
        k == src * n + dst + 1,
    ensures
        (k - 1) / n == src,
        (k - 1) % n == dst,
{
    vstd::arithmetic::div_mod::lemma_fundamental_div_mod_converse(k - 1, n, src, dst);
}

/// The moves the level offers, each with the level it leads to, in the order
/// source-major, destination-minor. Moves are left out when their source is
/// solved, empty or locked, when their destination is solved or locked, when
/// they would empty a single-coloured bottle into an empty one, and when the
/// pouring rule forbids them.
pub fn generate_possible_moves(bottles: &Vec<Bottle>) -> (r: Vec<(Move, Vec<Bottle>)>)
    requires
        capacity_ok(state_v(bottles@)),
    ensures
        r@.len() == candidates_upto(state_v(bottles@), (bottles@.len() * bottles@.len()) as int).len(),
        forall|k: int|
            0 <= k < r@.len() ==> {
                let (src, dst) = candidates_upto(
                    state_v(bottles@),
                    (bottles@.len() * bottles@.len()) as int,
                )[k];
                let s = state_v(bottles@);
                &&& (#[trigger] r@[k]).0@ == (src as usize, s[src].2, dst as usize, s[dst].2)
                &&& state_v(r@[k].1@) == apply_move(s, src, dst)
            },
        forall|k: int| 0 <= k < r@.len() ==> successor_ok(state_v(bottles@), #[trigger] r@[k]),
{
    let ghost s = state_v(bottles@);
    let n = bottles.len();
    let mut possible_moves: Vec<(Move, Vec<Bottle>)> = Vec::new();
    let solved_bottles = solved_color_list(bottles);
    let mut source_idx: usize = 0;
    while source_idx < n
        invariant
            n == bottles@.len(),
            s == state_v(bottles@),
            capacity_ok(s),
            source_idx <= n,
            possible_moves@.len() == candidates_upto(s, source_idx * n).len(),
            forall|k: int|
                0 <= k < possible_moves@.len() ==> {
                    let (src, dst) = candidates_upto(s, source_idx * n)[k];
                    &&& (#[trigger] possible_moves@[k]).0@ == (
                        src as usize,
                        s[src].2,
                        dst as usize,
                        s[dst].2,
                    )
                    &&& state_v(possible_moves@[k].1@) == apply_move(s, src, dst)
                },
            forall|k: int| 0 <= k < possible_moves@.len() ==> successor_ok(s, #[trigger] possible_moves@[k]),
        decreases n - source_idx,
    {
        let mut destination_idx: usize = 0;
        while destination_idx < n
            invariant
                n == bottles@.len(),
                s == state_v(bottles@),
                capacity_ok(s),
                source_idx < n,
                destination_idx <= n,
                possible_moves@.len() == candidates_upto(s, source_idx * n + destination_idx).len(),
                forall|k: int|
                    0 <= k < possible_moves@.len() ==> {
                        let (src, dst) = candidates_upto(s, source_idx * n + destination_idx)[k];
                        &&& (#[trigger] possible_moves@[k]).0@ == (
                            src as usize,
                            s[src].2,
                            dst as usize,
                            s[dst].2,
                        )
                        &&& state_v(possible_moves@[k].1@) == apply_move(s, src, dst)
                    },
                forall|k: int| 0 <= k < possible_moves@.len() ==> successor_ok(s, #[trigger] possible_moves@[k]),
            decreases n - destination_idx,
        {
            let ghost kk: int = source_idx * n + destination_idx + 1;
            let ghost prev = candidates_upto(s, kk - 1);
            proof {
                lemma_div_mod_step(kk, n as int, source_idx as int, destination_idx as int);
                assert(s[source_idx as int] == bottles@[source_idx as int]@);
                assert(s[destination_idx as int] == bottles@[destination_idx as int]@);
            }
            let ok = if source_idx == destination_idx {
                false
            } else {
                let source_bottle = &bottles[source_idx];
                let destination_bottle = &bottles[destination_idx];
                if source_bottle.is_solved() || source_bottle.is_empty()
                    || source_bottle.is_hidden_and_locked() || destination_bottle.is_solved()
                    || destination_bottle.is_hidden_and_locked() {
                    false
                } else if match source_bottle.get_locked_hidden_requirement() {
                    Some(req) => !contains_color(&solved_bottles, req),
                    None => false,
                } {
                    false
                } else if match destination_bottle.get_locked_hidden_requirement() {
                    Some(req) => !contains_color(&solved_bottles, req),
                    None => false,
                } {
                    false
                } else if is_single_color_bottle(source_bottle) && destination_bottle.is_empty() {
                    false
                } else {
                    destination_bottle.can_fill_from(source_bottle)
                }
            };
            proof {
                assert(ok == candidate(s, source_idx as int, destination_idx as int));
            }
            if ok {
                let mut new_bottles = copy_bottles(bottles);
                let move_to_try = Move {
                    source_idx,
                    source_clickable_pos: *bottles[source_idx].click_position(),
                    destination_idx,
                    destination_clickable_pos: *bottles[destination_idx].click_position(),
                };
                proof {
                    lemma_top_run_bounds(s[source_idx as int].0);
                    assert(state_v(new_bottles@)[destination_idx as int]
                        == new_bottles@[destination_idx as int]@);
                    assert(state_v(new_bottles@)[source_idx as int]
                        == new_bottles@[source_idx as int]@);
                }
                if move_to_try.can_perform_on_bottles(&new_bottles) {
                    move_to_try.perform_move_on_bottles(&mut new_bottles);
                    possible_moves.push((move_to_try, new_bottles));
                }
            }
            proof {
                assert(candidates_upto(s, kk) == prev + if candidate(
                    s,
                    source_idx as int,
                    destination_idx as int,
                ) {
                    seq![(source_idx as int, destination_idx as int)]
                } else {
                    Seq::empty()
                });
            }
            destination_idx = destination_idx + 1;
        }
        proof {
            assert(source_idx * n + n == (source_idx + 1) * n) by (nonlinear_arith);
        }
        source_idx = source_idx + 1;
    }
    possible_moves
}

/// The code of a colour in a state key; it orders as the colours do.
pub open spec fn enc_color(c: BottleColor) -> Seq<u16> {
    match c {
        BottleColor::Empty => seq![0u16, 0u16, 0u16, 0u16],
        BottleColor::Mystery => seq![1u16, 0u16, 0u16, 0u16],
        BottleColor::Fill(b, g, r) => seq![2u16, b as u16, g as u16, r as u16],
    }
}

pub open spec fn enc_requirement(h: HiddenRequirement) -> Seq<u16> {
    match h {
        HiddenRequirement::NoRequirement => seq![0u16, 0u16, 0u16, 0u16, 0u16],
        HiddenRequirement::Locked(c) => seq![1u16] + enc_color(c),
        HiddenRequirement::Unlocked(c) => seq![2u16] + enc_color(c),
    }
}

pub open spec fn enc_colors(cs: Seq<BottleColor>) -> Seq<u16>
    decreases cs.len(),
{
    if cs.len() == 0 {
        Seq::empty()
    } else {
        enc_colors(cs.drop_last()) + enc_color(cs.last())
    }
}

/// The code of a bottle in a state key: its hidden requirement, then its
/// colours from the bottom up. Codes order as the pairs of requirement and
/// colours do; click positions and mystery marks are left out.
pub open spec fn enc_bottle(v: BottleView) -> Seq<u16> {
    enc_requirement(v.1) + enc_colors(colors_of(v.0))
}

/// Lexicographic order of codes; a prefix comes first.
pub open spec fn lex_le(a: Seq<u16>, b: Seq<u16>) -> bool
    decreases a.len(),
{
    if a.len() == 0 {
        true
    } else if b.len() == 0 {
        false
    } else if a[0] != b[0] {
        a[0] < b[0]
    } else {
        lex_le(a.drop_first(), b.drop_first())
    }
}

pub proof fn lemma_lex_total(a: Seq<u16>, b: Seq<u16>)
    ensures
        lex_le(a, b) || lex_le(b, a),
    decreases a.len(),
{
    if a.len() > 0 && b.len() > 0 && a[0] == b[0] {
        lemma_lex_total(a.drop_first(), b.drop_first());
    }
}

pub proof fn lemma_lex_trans(a: Seq<u16>, b: Seq<u16>, c: Seq<u16>)
    requires
        lex_le(a, b),
        lex_le(b, c),
    ensures
        lex_le(a, c),
    decreases a.len(),
{
    if a.len() > 0 && b.len() > 0 && c.len() > 0 && a[0] == b[0] && b[0] == c[0] {
        lemma_lex_trans(a.drop_first(), b.drop_first(), c.drop_first());
    }
}

pub proof fn lemma_lex_refl(a: Seq<u16>)
    ensures
        lex_le(a, a),
    decreases a.len(),
{
    if a.len() > 0 {
        lemma_lex_refl(a.drop_first());
    }
}

pub proof fn lemma_lex_antisym(a: Seq<u16>, b: Seq<u16>)
    requires
        lex_le(a, b),
        lex_le(b, a),
    ensures
        a == b,
    decreases a.len(),
{
    if a.len() == 0 {
        assert(b.len() == 0);
        assert(a =~= b);
    } else {
        assert(b.len() > 0);
        assert(a[0] == b[0]);
        lemma_lex_antisym(a.drop_first(), b.drop_first());
        assert(a.len() == b.len()) by {
            assert(a.drop_first().len() == b.drop_first().len());
        }
        assert(a =~= b) by {
            assert forall|i: int| 0 <= i < a.len() implies a[i] == b[i] by {
                if i > 0 {
                    assert(a[i] == a.drop_first()[i - 1]);
                    assert(b[i] == b.drop_first()[i - 1]);
                }
            }
        }
    }
}

/// Lexicographic order of codes, as a relation.
pub open spec fn lex_order() -> spec_fn(Seq<u16>, Seq<u16>) -> bool {
    |a: Seq<u16>, b: Seq<u16>| lex_le(a, b)
}

/// The lexicographic order is a total order.
pub proof fn lemma_lex_total_ordering()
    ensures
        vstd::relations::total_ordering(lex_order()),
{
    assert forall|a: Seq<u16>| #[trigger] lex_order()(a, a) by {
        lemma_lex_refl(a);
    }
    assert forall|a: Seq<u16>, b: Seq<u16>|
        #[trigger] lex_order()(a, b) && #[trigger] lex_order()(b, a) implies a == b by {
        lemma_lex_antisym(a, b);
    }
    assert forall|a: Seq<u16>, b: Seq<u16>, c: Seq<u16>|
        #[trigger] lex_order()(a, b) && #[trigger] lex_order()(b, c) implies lex_order()(a, c) by {
        lemma_lex_trans(a, b, c);
    }
    assert forall|a: Seq<u16>, b: Seq<u16>|
        #[trigger] lex_order()(a, b) || #[trigger] lex_order()(b, a) by {
        lemma_lex_total(a, b);
    }
}

/// The key of a level: the codes of its bottles in lexicographic order.
pub open spec fn state_key(s: Seq<BottleView>) -> Seq<Seq<u16>> {
    s.map_values(|v: BottleView| enc_bottle(v)).sort_by(lex_order())
}

/// Two levels have the same key exactly when they hold the same bottles,
/// counted with multiplicity and in any order, by hidden requirement and
/// colours: click positions and mystery marks are left out.
pub proof fn lemma_state_key_same_bottles(a: Seq<BottleView>, b: Seq<BottleView>)
    ensures
        (state_key(a) == state_key(b)) == (a.map_values(|v: BottleView| enc_bottle(v)).to_multiset()
            == b.map_values(|v: BottleView| enc_bottle(v)).to_multiset()),
{
    let ca = a.map_values(|v: BottleView| enc_bottle(v));
    let cb = b.map_values(|v: BottleView| enc_bottle(v));
    lemma_lex_total_ordering();
    ca.lemma_sort_by_ensures(lex_order());
    cb.lemma_sort_by_ensures(lex_order());
    if ca.to_multiset() == cb.to_multiset() {
        vstd::seq_lib::lemma_sorted_unique(ca.sort_by(lex_order()), cb.sort_by(lex_order()), lex_order());
    }
}

/// The codes of a sequence of keys, as sequences.
pub open spec fn keys_v(k: Seq<Vec<u16>>) -> Seq<Seq<u16>> {
    k.map_values(|v: Vec<u16>| v@)
}

pub open spec fn lex_sorted(k: Seq<Seq<u16>>) -> bool {
    forall|i: int, j: int| 0 <= i < j < k.len() ==> lex_le(#[trigger] k[i], #[trigger] k[j])
}

fn lex_le_exec(a: &Vec<u16>, b: &Vec<u16>) -> (r: bool)
    ensures
        r == lex_le(a@, b@),
{
    let mut i: usize = 0;
    proof {
        assert(a@.skip(0) =~= a@);
        assert(b@.skip(0) =~= b@);
    }
    while i < a.len() && i < b.len()
        invariant
            i <= a.len(),
            i <= b.len(),
            lex_le(a@, b@) == lex_le(a@.skip(i as int), b@.skip(i as int)),
        decreases a.len() - i,
    {
        proof {
            assert(a@.skip(i as int).drop_first() =~= a@.skip(i + 1));
            assert(b@.skip(i as int).drop_first() =~= b@.skip(i + 1));
        }
        if a[i] != b[i] {
            return a[i] < b[i];
        }
        i = i + 1;
    }
    proof {
        assert(a@.skip(i as int).len() == 0 || b@.skip(i as int).len() == 0);
    }
    i == a.len()
}

fn color_code(c: BottleColor, out: &mut Vec<u16>)
    ensures
        final(out)@ == old(out)@ + enc_color(c),
{
    match c {
        BottleColor::Empty => {
            out.push(0);
            out.push(0);
            out.push(0);
            out.push(0);
        },
        BottleColor::Mystery => {
            out.push(1);
            out.push(0);
            out.push(0);
            out.push(0);
        },
        BottleColor::Fill(b, g, r) => {
            out.push(2);
            out.push(b as u16);
            out.push(g as u16);
            out.push(r as u16);
        },
    }
    proof {
        assert(final(out)@ =~= old(out)@ + enc_color(c));
    }
}

/// The code of a bottle in a state key.
fn bottle_key(b: &Bottle) -> (r: Vec<u16>)
    ensures
        r@ == enc_bottle(b@),
{
    let mut out: Vec<u16> = Vec::new();
    match b.hidden_requirement_state() {
        HiddenRequirement::NoRequirement => {
            out.push(0);
            out.push(0);
            out.push(0);
            out.push(0);
            out.push(0);
        },
        HiddenRequirement::Locked(c) => {
            out.push(1);
            color_code(c, &mut out);
        },
        HiddenRequirement::Unlocked(c) => {
            out.push(2);
            color_code(c, &mut out);
        },
    }
    proof {
        assert(out@ =~= enc_requirement(b@.1));
    }
    let colors = b.get_fills();
    let mut i: usize = 0;
    while i < colors.len()
        invariant
            i <= colors.len(),
            colors@ == colors_of(b@.0),
            out@ == enc_requirement(b@.1) + enc_colors(colors@.subrange(0, i as int)),
        decreases colors.len() - i,
    {
        proof {
            assert(colors@.subrange(0, i + 1).drop_last() =~= colors@.subrange(0, i as int));
        }
        color_code(colors[i], &mut out);
        proof {
            assert(out@ =~= enc_requirement(b@.1) + enc_colors(colors@.subrange(0, i + 1)));
        }
        i = i + 1;
    }
    proof {
        assert(colors@.subrange(0, colors@.len() as int) =~= colors@);
    }
    out
}

/// The key under which a state counts as seen: the codes of its bottles,
/// sorted, so that two states holding the same bottles in another order share
/// their key.
fn canonical_state_key(bottles: &Vec<Bottle>) -> (r: Vec<Vec<u16>>)
    ensures
        lex_sorted(keys_v(r@)),
        keys_v(r@).to_multiset() == state_v(bottles@).map_values(|v: BottleView| enc_bottle(v)).to_multiset(),
        keys_v(r@) == state_key(state_v(bottles@)),
{
    let ghost codes = state_v(bottles@).map_values(|v: BottleView| enc_bottle(v));
    let mut out: Vec<Vec<u16>> = Vec::new();
    let mut i: usize = 0;
    proof {
        assert(keys_v(out@) =~= Seq::<Seq<u16>>::empty());
        assert(codes.subrange(0, 0) =~= Seq::<Seq<u16>>::empty());
    }
    while i < bottles.len()
        invariant
            i <= bottles.len(),
            codes == state_v(bottles@).map_values(|v: BottleView| enc_bottle(v)),
            lex_sorted(keys_v(out@)),
            keys_v(out@).to_multiset() == codes.subrange(0, i as int).to_multiset(),
        decreases bottles.len() - i,
    {
        let key = bottle_key(&bottles[i]);
        let mut pos: usize = out.len();
        while pos > 0
            invariant
                pos <= out.len(),
                lex_sorted(keys_v(out@)),
                forall|q: int| pos <= q < out.len() ==> !lex_le(#[trigger] out@[q]@, key@),
            ensures
                pos <= out.len(),
                forall|q: int| pos <= q < out.len() ==> !lex_le(#[trigger] out@[q]@, key@),
                pos > 0 ==> lex_le(out@[pos - 1]@, key@),
            decreases pos,
        {
            if lex_le_exec(&out[pos - 1], &key) {
                break;
            }
            pos = pos - 1;
        }
        let ghost before = keys_v(out@);
        proof {
            assert forall|q: int| pos <= q < before.len() implies lex_le(key@, #[trigger] before[q]) by {
                lemma_lex_total(key@, before[q]);
            }
        }
        out.insert(pos, key);
        proof {
            assert(keys_v(out@) =~= before.insert(pos as int, key@));
            let after = keys_v(out@);
            assert forall|a: int, b: int| 0 <= a < b < after.len() implies lex_le(
                #[trigger] after[a],
                #[trigger] after[b],
            ) by {
                if a < pos {
                    assert(before[pos - 1] == out@[pos - 1]@);
                    if a < pos - 1 {
                        lemma_lex_trans(before[a], before[pos - 1], key@);
                    }
                    assert(lex_le(before[a], key@));
                    if b > pos {
                        lemma_lex_trans(before[a], key@, before[b - 1]);
                    }
                }
            }
            vstd::seq_lib::to_multiset_insert(before, pos as int, key@);
            assert(codes.subrange(0, i + 1) =~= codes.subrange(0, i as int).push(codes[i as int]));
            vstd::seq_lib::to_multiset_build(codes.subrange(0, i as int), codes[i as int]);
            assert(codes[i as int] == key@);
        }
        i = i + 1;
    }
    proof {
        assert(codes.subrange(0, codes.len() as int) =~= codes);
        lemma_lex_total_ordering();
        codes.lemma_sort_by_ensures(lex_order());
        let ks = keys_v(out@);
        assert(vstd::relations::sorted_by(ks, lex_order())) by {
            assert forall|a: int, b: int| 0 <= a < b < ks.len() implies #[trigger] lex_order()(
                ks[a],
                ks[b],
            ) by {
                assert(lex_le(ks[a], ks[b]));
            }
        }
        vstd::seq_lib::lemma_sorted_unique(ks, codes.sort_by(lex_order()), lex_order());
    }
    out
}

/// What the search reports after it takes a state from its queue.
pub struct SolverProgressSnapshot<'a> {
    pub state: &'a [Bottle],
    pub explored_states: usize,
    pub queue_len: usize,
    pub depth: usize,
    pub is_goal: bool,
}

/// What a snapshot reports besides the state.
#[derive(Debug, Clone, Copy, PartialEq, Eq, Structural)]
pub struct ProgressReport {
    pub explored_states: usize,
    pub queue_len: usize,
    pub depth: usize,
    pub is_goal: bool,
}

pub open spec fn report_of(snapshot: SolverProgressSnapshot<'_>) -> ProgressReport {
    ProgressReport {
        explored_states: snapshot.explored_states,
        queue_len: snapshot.queue_len,
        depth: snapshot.depth,
        is_goal: snapshot.is_goal,
    }
}

/// Receives a snapshot of the search for each state it explores. An
/// observer may keep the reports it was handed; one that does says so, and
/// `reports` then lists them in order.
pub trait SearchObserver {
    open spec fn keeps_reports() -> bool {
        false
    }

    open spec fn reports(&self) -> Seq<ProgressReport> {
        Seq::empty()
    }

    fn observe(&mut self, snapshot: SolverProgressSnapshot<'_>)
        ensures
            Self::keeps_reports() ==> final(self).reports() == old(self).reports().push(report_of(snapshot)),
    ;
}

/// An observer that ignores every snapshot.
pub struct NoProgress;

impl SearchObserver for NoProgress {
    fn observe(&mut self, snapshot: SolverProgressSnapshot<'_>) {
    }
}

/// An observer that keeps every report it is handed, in order.
pub struct ProgressHistory {
    pub reports: Vec<ProgressReport>,
}

impl ProgressHistory {
    pub fn new() -> (r: Self)
        ensures
            r.reports@ == Seq::<ProgressReport>::empty(),
    {
        ProgressHistory { reports: Vec::new() }
    }
}

impl SearchObserver for ProgressHistory {
    open spec fn keeps_reports() -> bool {
        true
    }

    open spec fn reports(&self) -> Seq<ProgressReport> {
        self.reports@
    }

    fn observe(&mut self, snapshot: SolverProgressSnapshot<'_>) {
        self.reports.push(
            ProgressReport {
                explored_states: snapshot.explored_states,
                queue_len: snapshot.queue_len,
                depth: snapshot.depth,
                is_goal: snapshot.is_goal,
            },
        );
    }
}

/// The reports of one search, in order: the states it explored are counted
/// one by one from one, and only the last report, when the search found a
/// sequence, is of a goal, at the depth of that sequence.
pub open spec fn search_reported(log: Seq<ProgressReport>, found: Option<nat>) -> bool {
    &&& forall|k: int| 0 <= k < log.len() ==> (#[trigger] log[k]).explored_states == k + 1
    &&& forall|k: int|
        0 <= k < log.len() && !(found is Some && k == log.len() - 1) ==> !(#[trigger] log[k]).is_goal
    &&& found matches Some(d) ==> log.len() > 0 && log.last().is_goal && log.last().depth == d
}

/// Counts the bottles that are hidden and show nothing yet.
pub fn count_hidden_empty(bottles: &Vec<Bottle>) -> (r: usize)
    ensures
        r == hidden_empty_count(state_v(bottles@)),
{
    let ghost s = state_v(bottles@);
    let mut count: usize = 0;
    let mut i: usize = 0;
    while i < bottles.len()
        invariant
            i <= bottles.len(),
            s == state_v(bottles@),
            count == hidden_empty_count(s.subrange(0, i as int)),
            count <= i,
        decreases bottles.len() - i,
    {
        proof {
            assert(s.subrange(0, i + 1).drop_last() =~= s.subrange(0, i as int));
            assert(s[i as int] == bottles@[i as int]@);
        }
        if bottles[i].is_hidden_and_locked() && bottles[i].is_empty() {
            count = count + 1;
        }
        i = i + 1;
    }
    proof {
        assert(s.subrange(0, s.len() as int) =~= s);
    }
    count
}

fn filter_accepts(filter: StateFilter, prev: &Vec<Bottle>, next: &Vec<Bottle>) -> (r: bool)
    ensures
        r == filter_ok(filter, state_v(prev@), state_v(next@)),
{
    match filter {
        StateFilter::Any => true,
        StateFilter::KeepHiddenCount => count_hidden_empty(next) == count_hidden_empty(prev),
    }
}

fn all_done_exec(state: &Vec<Bottle>) -> (r: bool)
    ensures
        r == all_done(state_v(state@)),
{
    let ghost s = state_v(state@);
    let mut i: usize = 0;
    while i < state.len()
        invariant
            i <= state.len(),
            s == state_v(state@),
            forall|k: int|
                0 <= k < i ==> v_solved(#[trigger] s[k]) || (v_count(s[k]) == 0 && !v_locked(
                    s[k],
                )),
        decreases state.len() - i,
    {
        assert(s[i as int] == state@[i as int]@);
        if !(state[i].is_solved() || (state[i].is_empty() && !state[i].is_hidden_and_locked())) {
            proof {
                let ii = i as int;
                assert(!(v_solved(s[ii]) || (v_count(s[ii]) == 0 && !v_locked(s[ii]))));
            }
            return false;
        }
        i = i + 1;
    }
    true
}

fn any_solved_in(state: &Vec<Bottle>, reqs: &Vec<BottleColor>) -> (r: bool)
    ensures
        r == exists|i: int|
            0 <= i < state@.len() && (#[trigger] v_solved_color(state_v(state@)[i])) is Some
                && reqs@.contains(v_solved_color(state_v(state@)[i])->0),
{
    let ghost s = state_v(state@);
    let mut i: usize = 0;
    while i < state.len()
        invariant
            i <= state.len(),
            s == state_v(state@),
            forall|k: int|
                0 <= k < i ==> !((#[trigger] v_solved_color(s[k])) is Some && reqs@.contains(
                    v_solved_color(s[k])->0,
                )),
        decreases state.len() - i,
    {
        assert(s[i as int] == state@[i as int]@);
        match state[i].solved_color() {
            Some(c) => {
                if contains_color(reqs, c) {
                    proof {
                        let ii = i as int;
                        assert(v_solved_color(s[ii]) is Some && reqs@.contains(
                            v_solved_color(s[ii])->0,
                        ));
                    }
                    return true;
                }
            },
            None => {},
        }
        i = i + 1;
    }
    false
}

fn any_mystery_on_top(state: &Vec<Bottle>) -> (r: bool)
    ensures
        r == exists|i: int|
            0 <= i < state@.len() && (#[trigger] v_top_fill(state_v(state@)[i])) is Some && (
            v_top_fill(state_v(state@)[i])->0).1 == BottleColor::Mystery,
{
    let ghost s = state_v(state@);
    let mut i: usize = 0;
    while i < state.len()
        invariant
            i <= state.len(),
            s == state_v(state@),
            forall|k: int|
                0 <= k < i ==> !((#[trigger] v_top_fill(s[k])) is Some && (v_top_fill(s[k])->0).1
                    == BottleColor::Mystery),
        decreases state.len() - i,
    {
        assert(s[i as int] == state@[i as int]@);
        match state[i].get_top_fill() {
            Some((_, c)) => {
                if let BottleColor::Mystery = c {
                    proof {
                        let ii = i as int;
                        assert(v_top_fill(s[ii]) is Some && (v_top_fill(s[ii])->0).1
                            == BottleColor::Mystery);
                    }
                    return true;
                }
            },
            None => {},
        }
        i = i + 1;
    }
    false
}

/// Whether the search has reached its goal in `state` after `move_count` moves.
pub fn goal_reached(goal: &SearchGoal, state: &Vec<Bottle>, move_count: usize) -> (r: bool)
    ensures
        r == goal_met(*goal, state_v(state@), move_count as nat),
{
    match goal {
        SearchGoal::AllSolved => all_done_exec(state),
        SearchGoal::UnlockHidden(reqs) => move_count > 0 && any_solved_in(state, reqs),
        SearchGoal::RevealMystery => move_count > 0 && any_mystery_on_top(state),
    }
}

/// The number of solved bottles in a level.
pub open spec fn solved_count(s: Seq<BottleView>) -> nat
    decreases s.len(),
{
    if s.len() == 0 {
        0
    } else {
        solved_count(s.drop_last()) + if v_solved(s.last()) {
            1nat
        } else {
            0nat
        }
    }
}

/// The number of bottles that hold at least one layer.
pub open spec fn non_empty_count(s: Seq<BottleView>) -> nat
    decreases s.len(),
{
    if s.len() == 0 {
        0
    } else {
        non_empty_count(s.drop_last()) + if v_count(s.last()) != 0 {
            1nat
        } else {
            0nat
        }
    }
}

/// The ranking of a successor state: more solved bottles first, then fewer
/// runs of one colour, then fewer non-empty bottles.
pub open spec fn heuristic_key(s: Seq<BottleView>) -> (nat, nat, nat) {
    (solved_count(s), total_runs(s), non_empty_count(s))
}

pub open spec fn ranks_before_or_with(a: (nat, nat, nat), b: (nat, nat, nat)) -> bool {
    a.0 > b.0 || (a.0 == b.0 && (a.1 < b.1 || (a.1 == b.1 && a.2 <= b.2)))
}

/// `sorted` holds the items of `orig` at the positions `idx` gives, each
/// once, and items of equal rank keep their order from `orig`.
pub open spec fn stable_arrangement(
    orig: Seq<(Move, Vec<Bottle>)>,
    sorted: Seq<(Move, Vec<Bottle>)>,
    idx: Seq<int>,
) -> bool {
    &&& idx.len() == sorted.len() == orig.len()
    &&& forall|k: int| 0 <= k < idx.len() ==> 0 <= #[trigger] idx[k] < orig.len() && sorted[k] == orig[idx[k]]
    &&& forall|i: int, j: int| 0 <= i < j < idx.len() ==> #[trigger] idx[i] != #[trigger] idx[j]
    &&& forall|i: int, j: int|
        0 <= i < j < idx.len() && heuristic_key(state_v(sorted[i].1@)) == heuristic_key(
            state_v(sorted[j].1@),
        ) ==> #[trigger] idx[i] < #[trigger] idx[j]
}

proof fn lemma_stable_insert(
    orig: Seq<(Move, Vec<Bottle>)>,
    before: Seq<(Move, Vec<Bottle>)>,
    before_keys: Seq<(usize, usize, usize)>,
    before_idx: Seq<int>,
    after: Seq<(Move, Vec<Bottle>)>,
    after_keys: Seq<(usize, usize, usize)>,
    idx: Seq<int>,
    pos: int,
    item: (Move, Vec<Bottle>),
    key: (usize, usize, usize),
    taken: int,
)
    requires
        0 <= pos <= before.len(),
        0 <= taken < orig.len(),
        item == orig[taken],
        after == before.insert(pos, item),
        idx == before_idx.insert(pos, taken),
        before_keys.len() == before.len(),
        key.0 as nat == heuristic_key(state_v(item.1@)).0 && key.1 as nat == heuristic_key(
            state_v(item.1@),
        ).1 && key.2 as nat == heuristic_key(state_v(item.1@)).2,
        forall|k: int|
            0 <= k < before.len() ==> (#[trigger] before_keys[k]).0 as nat == heuristic_key(
                state_v(before[k].1@),
            ).0 && before_keys[k].1 as nat == heuristic_key(state_v(before[k].1@)).1
                && before_keys[k].2 as nat == heuristic_key(state_v(before[k].1@)).2,
        forall|q: int|
            pos <= q < before.len() ==> !((#[trigger] before_keys[q]).0 > key.0 || (before_keys[q].0
                == key.0 && (before_keys[q].1 < key.1 || (before_keys[q].1 == key.1 && before_keys[q].2
                <= key.2)))),
        before_idx.len() == before.len(),
        forall|k: int| 0 <= k < before_idx.len() ==> 0 <= #[trigger] before_idx[k] < taken && before[k] == orig[before_idx[k]],
        forall|i: int, j: int| 0 <= i < j < before_idx.len() ==> #[trigger] before_idx[i] != #[trigger] before_idx[j],
        forall|i: int, j: int|
            0 <= i < j < before_idx.len() && heuristic_key(state_v(before[i].1@)) == heuristic_key(
                state_v(before[j].1@),
            ) ==> #[trigger] before_idx[i] < #[trigger] before_idx[j],
    ensures
        idx.len() == after.len(),
        forall|k: int| 0 <= k < idx.len() ==> 0 <= #[trigger] idx[k] < taken + 1 && after[k] == orig[idx[k]],
        forall|i: int, j: int| 0 <= i < j < idx.len() ==> #[trigger] idx[i] != #[trigger] idx[j],
        forall|i: int, j: int|
            0 <= i < j < idx.len() && heuristic_key(state_v(after[i].1@)) == heuristic_key(
                state_v(after[j].1@),
            ) ==> #[trigger] idx[i] < #[trigger] idx[j],
{
    assert forall|k: int| 0 <= k < idx.len() implies 0 <= #[trigger] idx[k] < taken + 1 && after[k] == orig[idx[k]] by {
        if k < pos {
            assert(idx[k] == before_idx[k] && after[k] == before[k]);
        } else if k > pos {
            assert(idx[k] == before_idx[k - 1] && after[k] == before[k - 1]);
        }
    }
    assert forall|i: int, j: int| 0 <= i < j < idx.len() implies #[trigger] idx[i] != #[trigger] idx[j] by {
        if i < pos && j > pos {
            assert(idx[i] == before_idx[i] && idx[j] == before_idx[j - 1]);
        } else if i < pos && j == pos {
            assert(idx[i] == before_idx[i]);
        } else if i == pos {
            assert(idx[j] == before_idx[j - 1]);
        } else if i > pos {
            assert(idx[i] == before_idx[i - 1] && idx[j] == before_idx[j - 1]);
        } else {
            assert(idx[i] == before_idx[i] && idx[j] == before_idx[j]);
        }
    }
    assert forall|i: int, j: int|
        0 <= i < j < idx.len() && heuristic_key(state_v(after[i].1@)) == heuristic_key(
            state_v(after[j].1@),
        ) implies #[trigger] idx[i] < #[trigger] idx[j] by {
        if i < pos && j > pos {
            assert(idx[i] == before_idx[i] && idx[j] == before_idx[j - 1]);
            assert(after[i] == before[i] && after[j] == before[j - 1]);
        } else if i < pos && j == pos {
            assert(idx[i] == before_idx[i]);
        } else if i == pos {
            assert(after[j] == before[j - 1]);
            assert(before_keys[j - 1].0 == key.0 && before_keys[j - 1].1 == key.1 && before_keys[j - 1].2 == key.2);
        } else if i > pos {
            assert(idx[i] == before_idx[i - 1] && idx[j] == before_idx[j - 1]);
            assert(after[i] == before[i - 1] && after[j] == before[j - 1]);
        } else {
            assert(idx[i] == before_idx[i] && idx[j] == before_idx[j]);
            assert(after[i] == before[i] && after[j] == before[j]);
        }
    }
}

fn heuristic_key_exec(bottles: &Vec<Bottle>) -> (r: (usize, usize, usize))
    requires
        level_fits(state_v(bottles@)),
    ensures
        r.0 as nat == heuristic_key(state_v(bottles@)).0,
        r.1 as nat == heuristic_key(state_v(bottles@)).1,
        r.2 as nat == heuristic_key(state_v(bottles@)).2,
{
    let ghost s = state_v(bottles@);
    let mut solved: usize = 0;
    let mut non_empty: usize = 0;
    let mut i: usize = 0;
    while i < bottles.len()
        invariant
            i <= bottles.len(),
            s == state_v(bottles@),
            solved == solved_count(s.subrange(0, i as int)),
            non_empty == non_empty_count(s.subrange(0, i as int)),
            solved <= i,
            non_empty <= i,
        decreases bottles.len() - i,
    {
        proof {
            assert(s.subrange(0, i + 1).drop_last() =~= s.subrange(0, i as int));
            assert(s[i as int] == bottles@[i as int]@);
        }
        if bottles[i].is_solved() {
            solved = solved + 1;
        }
        if !bottles[i].is_empty() {
            non_empty = non_empty + 1;
        }
        i = i + 1;
    }
    proof {
        assert(s.subrange(0, s.len() as int) =~= s);
    }
    let runs = total_run_count(bottles);
    (solved, runs, non_empty)
}

/// Orders the moves so that the states they lead to rank first: more solved
/// bottles, then fewer runs of one colour, then fewer non-empty bottles;
/// moves that rank alike keep their order.
pub fn sort_moves_by_heuristic(possible_moves: &mut Vec<(Move, Vec<Bottle>)>)
    requires
        forall|k: int|
            0 <= k < old(possible_moves)@.len() ==> level_fits(
                state_v((#[trigger] old(possible_moves)@[k]).1@),
            ),
    ensures
        final(possible_moves)@.to_multiset() == old(possible_moves)@.to_multiset(),
        final(possible_moves)@.len() == old(possible_moves)@.len(),
        forall|i: int, j: int|
            0 <= i < j < final(possible_moves)@.len() ==> ranks_before_or_with(
                heuristic_key(state_v((#[trigger] final(possible_moves)@[i]).1@)),
                heuristic_key(state_v((#[trigger] final(possible_moves)@[j]).1@)),
            ),
        exists|idx: Seq<int>| stable_arrangement(old(possible_moves)@, final(possible_moves)@, idx),
{
    let mut input: Vec<(Move, Vec<Bottle>)> = Vec::new();
    std::mem::swap(&mut input, possible_moves);
    let ghost orig = input@;
    assert(orig.len() == input.len());
    let mut out: Vec<(Move, Vec<Bottle>)> = Vec::new();
    let mut keys: Vec<(usize, usize, usize)> = Vec::new();
    let mut taken: usize = 0;
    let ghost mut idx: Seq<int> = Seq::empty();
    proof {
        assert(out@ =~= orig.subrange(0, 0));
    }
    while input.len() > 0
        invariant
            taken + input@.len() == orig.len(),
            orig.len() <= usize::MAX,
            input@ == orig.subrange(taken as int, orig.len() as int),
            forall|k: int| 0 <= k < orig.len() ==> level_fits(state_v((#[trigger] orig[k]).1@)),
            out@.to_multiset() == orig.subrange(0, taken as int).to_multiset(),
            out@.len() == taken,
            keys@.len() == out@.len(),
            forall|k: int|
                0 <= k < out@.len() ==> (#[trigger] keys@[k]).0 as nat == heuristic_key(
                    state_v(out@[k].1@),
                ).0 && keys@[k].1 as nat == heuristic_key(state_v(out@[k].1@)).1
                    && keys@[k].2 as nat == heuristic_key(state_v(out@[k].1@)).2,
            forall|i: int, j: int|
                0 <= i < j < out@.len() ==> ranks_before_or_with(
                    heuristic_key(state_v((#[trigger] out@[i]).1@)),
                    heuristic_key(state_v((#[trigger] out@[j]).1@)),
                ),
            idx.len() == out@.len(),
            forall|k: int| 0 <= k < idx.len() ==> 0 <= #[trigger] idx[k] < taken && out@[k] == orig[idx[k]],
            forall|i: int, j: int| 0 <= i < j < idx.len() ==> #[trigger] idx[i] != #[trigger] idx[j],
            forall|i: int, j: int|
                0 <= i < j < idx.len() && heuristic_key(state_v(out@[i].1@)) == heuristic_key(
                    state_v(out@[j].1@),
                ) ==> #[trigger] idx[i] < #[trigger] idx[j],
        decreases input@.len(),
    {
        let item = input.remove(0);
        proof {
            assert(item == orig[taken as int]);
        }
        let key = heuristic_key_exec(&item.1);
        let mut pos: usize = out.len();
        while pos > 0
            invariant
                pos <= out@.len(),
                keys@.len() == out@.len(),
                forall|q: int|
                    pos <= q < out@.len() ==> !((#[trigger] keys@[q]).0 > key.0 || (keys@[q].0
                        == key.0 && (keys@[q].1 < key.1 || (keys@[q].1 == key.1 && keys@[q].2
                        <= key.2)))),
            ensures
                pos <= out@.len(),
                forall|q: int|
                    pos <= q < out@.len() ==> !((#[trigger] keys@[q]).0 > key.0 || (keys@[q].0
                        == key.0 && (keys@[q].1 < key.1 || (keys@[q].1 == key.1 && keys@[q].2
                        <= key.2)))),
                pos > 0 ==> (keys@[pos - 1].0 > key.0 || (keys@[pos - 1].0 == key.0 && (keys@[pos
                    - 1].1 < key.1 || (keys@[pos - 1].1 == key.1 && keys@[pos - 1].2 <= key.2)))),
            decreases pos,
        {
            let k = keys[pos - 1];
            if k.0 > key.0 || (k.0 == key.0 && (k.1 < key.1 || (k.1 == key.1 && k.2 <= key.2))) {
                break;
            }
            pos = pos - 1;
        }
        let ghost before = out@;
        let ghost before_keys = keys@;
        let ghost before_idx = idx;
        out.insert(pos, item);
        keys.insert(pos, key);
        proof {
            idx = before_idx.insert(pos as int, taken as int);
            lemma_stable_insert(orig, before, before_keys, before_idx, out@, keys@, idx, pos as int, item, key, taken as int);
            vstd::seq_lib::to_multiset_insert(before, pos as int, item);
            assert(orig.subrange(0, taken + 1) =~= orig.subrange(0, taken as int).push(item));
            vstd::seq_lib::to_multiset_build(orig.subrange(0, taken as int), item);
            assert(input@ =~= orig.subrange(taken + 1, orig.len() as int));
            assert forall|k: int|
                0 <= k < out@.len() implies (#[trigger] keys@[k]).0 as nat == heuristic_key(
                state_v(out@[k].1@),
            ).0 && keys@[k].1 as nat == heuristic_key(state_v(out@[k].1@)).1 && keys@[k].2 as nat
                == heuristic_key(state_v(out@[k].1@)).2 by {
                if k < pos {
                    assert(out@[k] == before[k]);
                    assert(keys@[k] == before_keys[k]);
                } else if k > pos {
                    assert(out@[k] == before[k - 1]);
                    assert(keys@[k] == before_keys[k - 1]);
                }
            }
            assert forall|i: int, j: int|
                0 <= i < j < out@.len() implies ranks_before_or_with(
                heuristic_key(state_v((#[trigger] out@[i]).1@)),
                heuristic_key(state_v((#[trigger] out@[j]).1@)),
            ) by {
                if i < pos && j > pos {
                    assert(out@[i] == before[i]);
                    assert(out@[j] == before[j - 1]);
                } else if i < pos && j == pos {
                    assert(out@[i] == before[i]);
                    assert(keys@[i] == before_keys[i]);
                    assert(keys@[pos - 1] == before_keys[pos - 1]);
                    if i < pos - 1 {
                        assert(out@[pos - 1] == before[pos - 1]);
                    }
                } else if i == pos {
                    assert(out@[j] == before[j - 1]);
                    assert(keys@[j] == before_keys[j - 1]);
                } else if i > pos {
                    assert(out@[i] == before[i - 1]);
                    assert(out@[j] == before[j - 1]);
                } else {
                    assert(out@[i] == before[i]);
                    assert(out@[j] == before[j]);
                }
            }
        }
        taken = taken + 1;
    }
    proof {
        assert(orig.subrange(0, taken as int) =~= orig);
        assert(stable_arrangement(orig, out@, idx));
    }
    std::mem::swap(&mut out, possible_moves);
}

struct SearchRecord {
    state: Vec<Bottle>,
    cost: usize,
    parent: Option<usize>,
    via_move: Option<Move>,
}

#[derive(Clone, Copy)]
struct QueueEntry {
    estimated_total_cost: usize,
    cost: usize,
    record_index: usize,
}

/// `a` is taken from the queue before `b`: lower estimated total cost first,
/// then lower cost, then the older record.
spec fn entry_before_spec(a: QueueEntry, b: QueueEntry) -> bool {
    a.estimated_total_cost < b.estimated_total_cost || (a.estimated_total_cost
        == b.estimated_total_cost && (a.cost < b.cost || (a.cost == b.cost && a.record_index
        < b.record_index)))
}

fn entry_before(a: &QueueEntry, b: &QueueEntry) -> (r: bool)
    ensures
        r == entry_before_spec(*a, *b),
{
    a.estimated_total_cost < b.estimated_total_cost || (a.estimated_total_cost
        == b.estimated_total_cost && (a.cost < b.cost || (a.cost == b.cost && a.record_index
        < b.record_index)))
}

spec fn entries_below(items: Seq<QueueEntry>, n: int) -> bool {
    forall|i: int| 0 <= i < items.len() ==> (#[trigger] items[i]).record_index < n
}

/// No entry of the heap has a lower estimated total cost than its parent.
spec fn heap_ok(items: Seq<QueueEntry>) -> bool {
    forall|j: int|
        0 < j < items.len() ==> items[(j - 1) / 2].estimated_total_cost
            <= (#[trigger] items[j]).estimated_total_cost
}

/// The first entry of a heap has the lowest estimated total cost.
proof fn lemma_heap_min(items: Seq<QueueEntry>, j: int)
    requires
        heap_ok(items),
        0 <= j < items.len(),
    ensures
        items[0].estimated_total_cost <= items[j].estimated_total_cost,
    decreases j,
{
    if j > 0 {
        assert(items[(j - 1) / 2].estimated_total_cost <= items[j].estimated_total_cost);
        lemma_heap_min(items, (j - 1) / 2);
    }
}

/// Adds an entry to the binary heap of the open set.
fn heap_push(items: &mut Vec<QueueEntry>, e: QueueEntry, Ghost(n): Ghost<int>)
    requires
        entries_below(old(items)@, n),
        e.record_index < n,
        heap_ok(old(items)@),
    ensures
        entries_below(final(items)@, n),
        final(items)@.len() == old(items)@.len() + 1,
        final(items)@.to_multiset() == old(items)@.to_multiset().insert(e),
        heap_ok(final(items)@),
{
    broadcast use vstd::multiset::group_multiset_properties;
    broadcast use vstd::multiset::group_multiset_axioms;
    broadcast use vstd::seq_lib::group_to_multiset_ensures;

    let ghost m = old(items)@.to_multiset().insert(e);
    items.push(e);
    proof {
        vstd::seq_lib::to_multiset_build(old(items)@, e);
    }
    let mut i: usize = items.len() - 1;
    while i > 0
        invariant
            i < items@.len(),
            entries_below(items@, n),
            items@.len() == old(items)@.len() + 1,
            items@.to_multiset() == m,
            forall|j: int|
                0 < j < items@.len() && j != i ==> items@[(j - 1) / 2].estimated_total_cost
                    <= (#[trigger] items@[j]).estimated_total_cost,
            i > 0 ==> forall|c: int|
                0 < c < items@.len() && (c - 1) / 2 == i ==> items@[(i - 1) / 2].estimated_total_cost
                    <= (#[trigger] items@[c]).estimated_total_cost,
        ensures
            heap_ok(items@),
        decreases i,
    {
        let p = (i - 1) / 2;
        if entry_before(&items[i], &items[p]) {
            let a = items[i];
            let b = items[p];
            let ghost t = items@;
            items[i] = b;
            items[p] = a;
            proof {
                assert forall|j: int|
                    0 < j < items@.len() && j != p implies items@[(j - 1) / 2].estimated_total_cost
                        <= (#[trigger] items@[j]).estimated_total_cost by {
                    if j == i {
                    } else if (j - 1) / 2 == i {
                        assert(t[(j - 1) / 2].estimated_total_cost <= t[j].estimated_total_cost);
                    } else if (j - 1) / 2 == p {
                        assert(t[(j - 1) / 2].estimated_total_cost <= t[j].estimated_total_cost);
                    } else {
                        assert(t[(j - 1) / 2].estimated_total_cost <= t[j].estimated_total_cost);
                    }
                }
                if p > 0 {
                    assert forall|c: int|
                        0 < c < items@.len() && (c - 1) / 2 == p implies items@[(p - 1) / 2].estimated_total_cost
                            <= (#[trigger] items@[c]).estimated_total_cost by {
                        assert(t[(p - 1) / 2].estimated_total_cost <= t[p as int].estimated_total_cost);
                        if c != i {
                            assert(t[(c - 1) / 2].estimated_total_cost <= t[c].estimated_total_cost);
                        }
                    }
                }
            }
            proof {
                let u = t.update(i as int, b);
                vstd::seq_lib::to_multiset_update(t, i as int, b);
                vstd::seq_lib::to_multiset_update(u, p as int, a);
                assert(items@ == u.update(p as int, a));
                assert(u[p as int] == b);
                assert(t.contains(a) && t.contains(b)) by {
                    assert(t[i as int] == a);
                    assert(t[p as int] == b);
                }
                vstd::seq_lib::to_multiset_contains(t, a);
                vstd::seq_lib::to_multiset_contains(t, b);
                assert(t.to_multiset().count(a) > 0);
                assert(items@.to_multiset() =~= m);
            }
            i = p;
        } else {
            proof {
                assert forall|j: int| 0 < j < items@.len() implies items@[(j - 1) / 2].estimated_total_cost
                    <= (#[trigger] items@[j]).estimated_total_cost by {
                    if j == i {
                        assert(!entry_before_spec(items@[i as int], items@[p as int]));
                    }
                }
            }
            break;
        }
    }
}

spec fn heap_except(items: Seq<QueueEntry>, i: int) -> bool {
    forall|j: int|
        0 < j < items.len() && (j - 1) / 2 != i ==> items[(j - 1) / 2].estimated_total_cost
            <= (#[trigger] items[j]).estimated_total_cost
}

spec fn above_children(items: Seq<QueueEntry>, i: int) -> bool {
    i > 0 ==> forall|c: int|
        0 < c < items.len() && (c - 1) / 2 == i ==> items[(i - 1) / 2].estimated_total_cost
            <= (#[trigger] items[c]).estimated_total_cost
}

proof fn lemma_swap_multiset(t: Seq<QueueEntry>, i: int, j: int)
    requires
        0 <= i < t.len(),
        0 <= j < t.len(),
    ensures
        t.update(i, t[j]).update(j, t[i]).to_multiset() == t.to_multiset(),
{
    broadcast use vstd::multiset::group_multiset_axioms;
    broadcast use vstd::seq_lib::group_to_multiset_ensures;

    let a = t[i];
    let b = t[j];
    let u = t.update(i, b);
    vstd::seq_lib::to_multiset_update(t, i, b);
    vstd::seq_lib::to_multiset_update(u, j, a);
    if i != j {
        assert(u[j] == b);
    }
    assert(t.contains(a) && t.contains(b));
    vstd::seq_lib::to_multiset_contains(t, a);
    vstd::seq_lib::to_multiset_contains(t, b);
    assert(t.update(i, b).update(j, a).to_multiset() =~= t.to_multiset());
}

/// Swapping an entry with its least child moves the one place where the
/// heap may be out of order down to that child.
proof fn lemma_sift_down_swap(t: Seq<QueueEntry>, i: int, best: int)
    requires
        0 <= i < best < t.len(),
        (best - 1) / 2 == i,
        heap_except(t, i),
        above_children(t, i),
        t[best].estimated_total_cost <= t[i].estimated_total_cost,
        forall|c: int|
            0 < c < t.len() && (c - 1) / 2 == i ==> t[best].estimated_total_cost
                <= (#[trigger] t[c]).estimated_total_cost,
    ensures
        heap_except(t.update(i, t[best]).update(best, t[i]), best),
        above_children(t.update(i, t[best]).update(best, t[i]), best),
{
    let u = t.update(i, t[best]).update(best, t[i]);
    assert forall|j: int| 0 < j < u.len() && (j - 1) / 2 != best implies u[(j - 1) / 2].estimated_total_cost
        <= (#[trigger] u[j]).estimated_total_cost by {
        if j == best {
        } else if (j - 1) / 2 == i {
            assert(t[best].estimated_total_cost <= t[j].estimated_total_cost);
        } else if j == i {
            assert(t[(i - 1) / 2].estimated_total_cost <= t[best].estimated_total_cost);
        } else {
            assert(t[(j - 1) / 2].estimated_total_cost <= t[j].estimated_total_cost);
        }
    }
    assert forall|c: int| 0 < c < u.len() && (c - 1) / 2 == best implies u[(best - 1) / 2].estimated_total_cost
        <= (#[trigger] u[c]).estimated_total_cost by {
        assert(t[(c - 1) / 2].estimated_total_cost <= t[c].estimated_total_cost);
    }
}

/// Takes the first entry from the binary heap of the open set.
#[verifier::rlimit(80)]
fn heap_pop(items: &mut Vec<QueueEntry>, Ghost(n): Ghost<int>) -> (r: Option<QueueEntry>)
    requires
        entries_below(old(items)@, n),
        heap_ok(old(items)@),
    ensures
        entries_below(final(items)@, n),
        heap_ok(final(items)@),
        r matches Some(e) ==> forall|x: int|
            0 <= x < old(items)@.len() ==> e.estimated_total_cost <= (#[trigger] old(items)@[x]).estimated_total_cost,
        r is Some <==> old(items)@.len() > 0,
        r is None ==> final(items)@ == old(items)@,
        r matches Some(e) ==> e == old(items)@[0] && e.record_index < n && final(items)@.len()
            == old(items)@.len() - 1,
        r matches Some(e) ==> final(items)@.to_multiset() == old(items)@.to_multiset().remove(e),
{
    if items.len() == 0 {
        return None;
    }
    let top = items[0];
    let ghost o = items@;
    proof {
        assert forall|x: int| 0 <= x < o.len() implies top.estimated_total_cost <= (#[trigger] o[x]).estimated_total_cost by {
            lemma_heap_min(o, x);
        }
    }
    let ghost m = o.to_multiset().remove(top);
    let last = items.pop().unwrap();
    proof {
        broadcast use vstd::seq_lib::group_to_multiset_ensures;

        assert(o =~= items@.push(last));
        vstd::seq_lib::to_multiset_build(items@, last);
    }
    if items.len() > 0 {
        let ghost t0 = items@;
        items[0] = last;
        proof {
            broadcast use vstd::multiset::group_multiset_axioms;
            broadcast use vstd::seq_lib::group_to_multiset_ensures;

            vstd::seq_lib::to_multiset_update(t0, 0, last);
            assert(items@.to_multiset() =~= m);
            assert forall|j: int| 0 < j < items@.len() && (j - 1) / 2 != 0 implies items@[(j - 1) / 2].estimated_total_cost
                <= (#[trigger] items@[j]).estimated_total_cost by {
                assert(o[(j - 1) / 2].estimated_total_cost <= o[j].estimated_total_cost);
            }
            assert(heap_except(items@, 0));
        }
        let len = items.len();
        let mut i: usize = 0;
        while i < len
            invariant
                len == items@.len(),
                i < len,
                entries_below(items@, n),
                items@.to_multiset() == m,
                heap_except(items@, i as int),
                above_children(items@, i as int),
            ensures
                heap_ok(items@),
                items@.to_multiset() == m,
                entries_below(items@, n),
                len == items@.len(),
            decreases len - i,
        {
            if i > (len - 1) / 2 {
                proof {
                    assert forall|j: int| 0 < j < items@.len() implies items@[(j - 1) / 2].estimated_total_cost
                        <= (#[trigger] items@[j]).estimated_total_cost by {
                        assert((j - 1) / 2 != i);
                    }
                }
                break;
            }
            let l = 2 * i + 1;
            let mut best = i;
            if l < len && entry_before(&items[l], &items[best]) {
                best = l;
            }
            if l < len && l + 1 < len && entry_before(&items[l + 1], &items[best]) {
                best = l + 1;
            }
            proof {
                let e = |x: int| items@[x].estimated_total_cost;
                assert(best == i || best == l || best == l + 1);
                assert(best < len);
                assert(items@[best as int].estimated_total_cost <= items@[i as int].estimated_total_cost);
                assert(l < len ==> items@[best as int].estimated_total_cost <= items@[l as int].estimated_total_cost);
                assert(l + 1 < len ==> items@[best as int].estimated_total_cost <= items@[l + 1].estimated_total_cost);
            }
            if best == i {
                proof {
                    assert forall|j: int| 0 < j < items@.len() implies items@[(j - 1) / 2].estimated_total_cost
                        <= (#[trigger] items@[j]).estimated_total_cost by {
                        if (j - 1) / 2 == i {
                            assert(j == l || j == l + 1);
                        }
                    }
                }
                break;
            }
            let a = items[i];
            let b = items[best];
            let ghost t = items@;
            items[i] = b;
            items[best] = a;
            proof {
                assert(items@ == t.update(i as int, t[best as int]).update(best as int, t[i as int]));
                lemma_swap_multiset(t, i as int, best as int);
                assert((best - 1) / 2 == i);
                assert forall|c: int|
                    0 < c < t.len() && (c - 1) / 2 == i implies t[best as int].estimated_total_cost
                        <= (#[trigger] t[c]).estimated_total_cost by {
                    assert(c == l || c == l + 1);
                }
                lemma_sift_down_swap(t, i as int, best as int);
            }
            i = best;
        }
    } else {
        proof {
            broadcast use vstd::multiset::group_multiset_axioms;

            assert(items@.to_multiset() =~= m);
        }
    }
    Some(top)
}

/// One step of the hash of a key: multiply by the FNV prime and add `x`,
/// both wrapping around at 2^64.
spec fn fnv_step(h: u64, x: u64) -> u64 {
    vstd::wrapping::u64_specs::wrapping_add(
        vstd::wrapping::u64_specs::wrapping_mul(h, 1099511628211u64),
        x,
    )
}

/// The hash after the codes of one part of a key, starting from `h`.
spec fn hash_codes(h: u64, part: Seq<u16>) -> u64
    decreases part.len(),
{
    if part.len() == 0 {
        h
    } else {
        fnv_step(hash_codes(h, part.drop_last()), part.last() as u64)
    }
}

/// The hash of a key: the FNV offset basis, then each part's codes followed
/// by the separator 65536.
spec fn hash_key(key: Seq<Seq<u16>>) -> u64
    decreases key.len(),
{
    if key.len() == 0 {
        14695981039346656037u64
    } else {
        fnv_step(hash_codes(hash_key(key.drop_last()), key.last()), 65536u64)
    }
}

/// The bucket a key belongs to.
spec fn key_bucket(key: Seq<Seq<u16>>) -> int {
    (hash_key(key) % (COST_TABLE_BUCKETS as u64)) as int
}

/// Best costs found so far, by state key, hashed into buckets.
struct CostTable {
    buckets: Vec<Vec<(Vec<Vec<u16>>, usize)>>,
}

const COST_TABLE_BUCKETS: usize = 16384;

impl CostTable {
    spec fn wf(&self) -> bool {
        self.buckets@.len() == COST_TABLE_BUCKETS
    }

    fn new() -> (r: CostTable)
        ensures
            r.wf(),
            r.costs() == Map::<Seq<Seq<u16>>, usize>::empty(),
    {
        let mut buckets: Vec<Vec<(Vec<Vec<u16>>, usize)>> = Vec::new();
        let mut i: usize = 0;
        while i < COST_TABLE_BUCKETS
            invariant
                i <= COST_TABLE_BUCKETS,
                buckets@.len() == i,
                forall|j: int| 0 <= j < i ==> (#[trigger] buckets@[j])@.len() == 0,
            decreases COST_TABLE_BUCKETS - i,
        {
            buckets.push(Vec::new());
            i = i + 1;
        }
        let r = CostTable { buckets };
        proof {
            assert forall|k: Seq<Seq<u16>>| !(#[trigger] r.costs().contains_key(k)) by {
                assert(r.buckets@[key_bucket(k)]@.len() == 0);
            }
            assert(r.costs() =~= Map::<Seq<Seq<u16>>, usize>::empty());
        }
        r
    }

    fn bucket_of(key: &Vec<Vec<u16>>) -> (r: usize)
        ensures
            r < COST_TABLE_BUCKETS,
            r == key_bucket(keys_v(key@)),
    {
        let ghost k = keys_v(key@);
        let mut h: u64 = 14695981039346656037;
        let mut i: usize = 0;
        while i < key.len()
            invariant
                i <= key.len(),
                k == keys_v(key@),
                h == hash_key(k.subrange(0, i as int)),
            decreases key.len() - i,
        {
            let part = &key[i];
            let ghost h0 = h;
            let mut j: usize = 0;
            while j < part.len()
                invariant
                    j <= part.len(),
                    h == hash_codes(h0, part@.subrange(0, j as int)),
                decreases part.len() - j,
            {
                proof {
                    assert(part@.subrange(0, j + 1).drop_last() =~= part@.subrange(0, j as int));
                }
                h = h.wrapping_mul(1099511628211).wrapping_add(part[j] as u64);
                j = j + 1;
            }
            proof {
                assert(part@.subrange(0, part@.len() as int) =~= part@);
                assert(k.subrange(0, i + 1).drop_last() =~= k.subrange(0, i as int));
                assert(k.subrange(0, i + 1).last() == part@);
            }
            h = h.wrapping_mul(1099511628211).wrapping_add(65536);
            i = i + 1;
        }
        proof {
            assert(k.subrange(0, k.len() as int) =~= k);
        }
        (h % (COST_TABLE_BUCKETS as u64)) as usize
    }

    /// The cost recorded for key `k`: the first entry with that key in its
    /// bucket.
    spec fn cost_of(&self, k: Seq<Seq<u16>>) -> Option<usize> {
        find_cost(self.buckets@[key_bucket(k)]@, k)
    }

    /// The recorded costs, by key.
    spec fn costs(&self) -> Map<Seq<Seq<u16>>, usize> {
        Map::new(|k: Seq<Seq<u16>>| self.cost_of(k) is Some, |k: Seq<Seq<u16>>| self.cost_of(k)->0)
    }

    fn get(&self, key: &Vec<Vec<u16>>) -> (r: Option<usize>)
        requires
            self.wf(),
        ensures
            r == (if self.costs().contains_key(keys_v(key@)) {
                Some(self.costs()[keys_v(key@)])
            } else {
                None
            }),
    {
        let ghost k = keys_v(key@);
        let b = Self::bucket_of(key);
        let bucket = &self.buckets[b];
        let mut result: Option<usize> = None;
        let mut i: usize = 0;
        proof {
            assert(bucket@.subrange(0, bucket@.len() as int) =~= bucket@);
        }
        while i < bucket.len()
            invariant_except_break
                result is None,
            invariant
                i <= bucket.len(),
                k == keys_v(key@),
                find_cost(bucket@, k) == find_cost(bucket@.subrange(i as int, bucket@.len() as int), k),
            ensures
                result == find_cost(bucket@, k),
            decreases bucket.len() - i,
        {
            let ghost rest = bucket@.subrange(i as int, bucket@.len() as int);
            proof {
                assert(rest[0] == bucket@[i as int]);
                assert(rest.drop_first() =~= bucket@.subrange(i + 1, bucket@.len() as int));
            }
            if keys_equal(&bucket[i].0, key) {
                result = Some(bucket[i].1);
                break;
            }
            i = i + 1;
        }
        proof {
            if i >= bucket.len() {
                assert(bucket@.subrange(i as int, bucket@.len() as int).len() == 0);
            }
            assert(self.cost_of(k) == result);
        }
        result
    }

    fn set(&mut self, key: Vec<Vec<u16>>, cost: usize)
        requires
            old(self).wf(),
        ensures
            final(self).wf(),
            final(self).costs() == old(self).costs().insert(keys_v(key@), cost),
    {
        let ghost k = keys_v(key@);
        let ghost old_buckets = self.buckets@;
        let b = Self::bucket_of(&key);
        let mut bucket: Vec<(Vec<Vec<u16>>, usize)> = Vec::new();
        std::mem::swap(&mut bucket, &mut self.buckets[b]);
        let ghost ob = bucket@;
        proof {
            assert(ob == old_buckets[b as int]@);
        }
        let mut i: usize = 0;
        let mut found = false;
        while i < bucket.len()
            invariant_except_break
                !found,
            invariant
                i <= bucket.len(),
                bucket@ == ob,
                k == keys_v(key@),
                forall|j: int| 0 <= j < i ==> keys_v((#[trigger] ob[j]).0@) != k,
            ensures
                i <= bucket.len(),
                bucket@ == ob,
                forall|j: int| 0 <= j < i ==> keys_v((#[trigger] ob[j]).0@) != k,
                found ==> i < bucket.len() && keys_v(ob[i as int].0@) == k,
                !found ==> i == bucket.len(),
            decreases bucket.len() - i,
        {
            if keys_equal(&bucket[i].0, &key) {
                found = true;
                break;
            }
            i = i + 1;
        }
        let ghost nb: Seq<(Vec<Vec<u16>>, usize)>;
        if found && i < bucket.len() {
            let old_entry = bucket.remove(i);
            bucket.insert(i, (old_entry.0, cost));
            proof {
                assert(bucket@ =~= ob.update(i as int, (ob[i as int].0, cost)));
                lemma_find_cost_update(ob, i as int, cost, k);
                nb = bucket@;
            }
        } else {
            let ghost entry = (key, cost);
            bucket.push((key, cost));
            proof {
                lemma_find_cost_push(ob, entry, k);
                nb = bucket@;
            }
        }
        std::mem::swap(&mut bucket, &mut self.buckets[b]);
        proof {
            assert(self.buckets@.len() == old_buckets.len());
            assert(self.buckets@[b as int]@ == nb);
            assert forall|q: Seq<Seq<u16>>| #![auto]
                self.cost_of(q) == if q == k { Some(cost) } else { old_cost(old_buckets, q) } by {
                if key_bucket(q) != b {
                    assert(self.buckets@[key_bucket(q)] == old_buckets[key_bucket(q)]);
                }
            }
            assert(self.costs() =~= old(self).costs().insert(k, cost));
        }
    }
}

/// The cost the entries of a bucket give key `k`: that of the first entry
/// with that key.
spec fn find_cost(entries: Seq<(Vec<Vec<u16>>, usize)>, k: Seq<Seq<u16>>) -> Option<usize>
    decreases entries.len(),
{
    if entries.len() == 0 {
        None
    } else if keys_v(entries[0].0@) == k {
        Some(entries[0].1)
    } else {
        find_cost(entries.drop_first(), k)
    }
}

spec fn old_cost(buckets: Seq<Vec<(Vec<Vec<u16>>, usize)>>, q: Seq<Seq<u16>>) -> Option<usize> {
    find_cost(buckets[key_bucket(q)]@, q)
}

/// Changing the cost of the first entry with key `k` gives `k` that cost and
/// leaves every other key's cost.
proof fn lemma_find_cost_update(s: Seq<(Vec<Vec<u16>>, usize)>, i: int, cost: usize, k: Seq<Seq<u16>>)
    requires
        0 <= i < s.len(),
        keys_v(s[i].0@) == k,
        forall|j: int| 0 <= j < i ==> keys_v((#[trigger] s[j]).0@) != k,
    ensures
        forall|q: Seq<Seq<u16>>| #![auto]
            find_cost(s.update(i, (s[i].0, cost)), q) == if q == k {
                Some(cost)
            } else {
                find_cost(s, q)
            },
    decreases i,
{
    let t = s.update(i, (s[i].0, cost));
    assert forall|q: Seq<Seq<u16>>| #![auto]
        find_cost(t, q) == if q == k { Some(cost) } else { find_cost(s, q) } by {
        if i > 0 {
            let s1 = s.drop_first();
            assert forall|j: int| 0 <= j < i - 1 implies keys_v((#[trigger] s1[j]).0@) != k by {
                assert(s1[j] == s[j + 1]);
            }
            assert(s1[i - 1] == s[i]);
            lemma_find_cost_update(s1, i - 1, cost, k);
            assert(t.drop_first() =~= s1.update(i - 1, (s1[i - 1].0, cost)));
            assert(keys_v(s[0].0@) != k);
            assert(t[0] == s[0]);
            assert(t.len() > 0);
            assert(find_cost(t.drop_first(), q) == if q == k { Some(cost) } else { find_cost(s1, q) });
            if keys_v(s[0].0@) == q {
                assert(find_cost(t, q) == Some(s[0].1));
                assert(find_cost(s, q) == Some(s[0].1));
            } else {
                assert(find_cost(t, q) == find_cost(t.drop_first(), q));
                assert(find_cost(s, q) == find_cost(s1, q));
            }
        } else {
            assert(t.drop_first() =~= s.drop_first());
            assert(t[0] == (s[0].0, cost));
            assert(t.len() > 0);
            if q != k {
                assert(find_cost(t, q) == find_cost(t.drop_first(), q));
                assert(find_cost(s, q) == find_cost(s.drop_first(), q));
            }
        }
    }
}

/// Adding an entry with a key no entry has gives that key the entry's cost and
/// leaves every other key's cost.
proof fn lemma_find_cost_push(s: Seq<(Vec<Vec<u16>>, usize)>, e: (Vec<Vec<u16>>, usize), k: Seq<Seq<u16>>)
    requires
        keys_v(e.0@) == k,
        forall|j: int| 0 <= j < s.len() ==> keys_v((#[trigger] s[j]).0@) != k,
    ensures
        forall|q: Seq<Seq<u16>>| #![auto]
            find_cost(s.push(e), q) == if q == k {
                Some(e.1)
            } else {
                find_cost(s, q)
            },
    decreases s.len(),
{
    let t = s.push(e);
    assert forall|q: Seq<Seq<u16>>| #![auto]
        find_cost(t, q) == if q == k { Some(e.1) } else { find_cost(s, q) } by {
        if s.len() > 0 {
            lemma_find_cost_push(s.drop_first(), e, k);
            assert(t.drop_first() =~= s.drop_first().push(e));
            assert(t[0] == s[0]);
        } else {
            assert(t.drop_first() =~= Seq::<(Vec<Vec<u16>>, usize)>::empty());
            assert(t[0] == e);
            assert(find_cost(t.drop_first(), q) is None);
        }
    }
}

fn codes_equal(a: &Vec<u16>, b: &Vec<u16>) -> (r: bool)
    ensures
        r == (a@ == b@),
{
    if a.len() != b.len() {
        return false;
    }
    let mut i: usize = 0;
    while i < a.len()
        invariant
            i <= a.len(),
            a.len() == b.len(),
            forall|k: int| 0 <= k < i ==> a@[k] == b@[k],
        decreases a.len() - i,
    {
        if a[i] != b[i] {
            return false;
        }
        i = i + 1;
    }
    proof {
        assert(a@ =~= b@);
    }
    true
}

fn keys_equal(a: &Vec<Vec<u16>>, b: &Vec<Vec<u16>>) -> (r: bool)
    ensures
        r == (keys_v(a@) == keys_v(b@)),
{
    if a.len() != b.len() {
        proof {
            assert(keys_v(a@).len() != keys_v(b@).len());
        }
        return false;
    }
    let mut i: usize = 0;
    while i < a.len()
        invariant
            i <= a.len(),
            a.len() == b.len(),
            forall|k: int| 0 <= k < i ==> a@[k]@ == b@[k]@,
        decreases a.len() - i,
    {
        if !codes_equal(&a[i], &b[i]) {
            proof {
                assert(keys_v(a@)[i as int] != keys_v(b@)[i as int]);
            }
            return false;
        }
        i = i + 1;
    }
    proof {
        assert(keys_v(a@) =~= keys_v(b@));
    }
    true
}

/// What holds of record `i` of a search that started from `s0`: the start
/// record has no parent; every other record was reached from an earlier one
/// by an allowed move, followed by the reveal of hidden bottles, through a
/// state the filter accepts, at one more move than its parent.
spec fn record_ok(recs: Seq<SearchRecord>, i: int, s0: Seq<BottleView>, f: StateFilter) -> bool {
    let r = recs[i];
    let st = state_v(r.state@);
    &&& level_fits(st)
    &&& r.cost <= i
    &&& if i == 0 {
        &&& r.parent is None
        &&& r.cost == 0
        &&& st == s0
    } else {
        &&& r.parent is Some
        &&& r.via_move is Some
        &&& 0 <= r.parent->0 < i
        &&& {
            let p = r.parent->0 as int;
            let m = r.via_move->0;
            let ps = state_v(recs[p].state@);
            &&& move_fits(ps, m@)
            &&& filter_ok(f, ps, st)
            &&& st == step(ps, m.src(), m.dst())
            &&& r.cost == recs[p].cost + 1
        }
    }
}

spec fn records_ok(recs: Seq<SearchRecord>, s0: Seq<BottleView>, f: StateFilter) -> bool {
    &&& recs.len() >= 1
    &&& forall|i: int| 0 <= i < recs.len() ==> #[trigger] record_ok(recs, i, s0, f)
}

proof fn lemma_records_push(
    recs: Seq<SearchRecord>,
    x: SearchRecord,
    s0: Seq<BottleView>,
    f: StateFilter,
)
    requires
        records_ok(recs, s0, f),
        record_ok(recs.push(x), recs.len() as int, s0, f),
    ensures
        records_ok(recs.push(x), s0, f),
{
    let t = recs.push(x);
    assert forall|i: int| 0 <= i < t.len() implies #[trigger] record_ok(t, i, s0, f) by {
        if i < recs.len() {
            assert(record_ok(recs, i, s0, f));
            assert(t[i] == recs[i]);
            if i > 0 {
                let p = recs[i].parent->0 as int;
                assert(t[p] == recs[p]);
            }
        }
    }
}

/// The moves that lead from the start of the search to record `record_index`.
fn reconstruct_moves(
    records: &Vec<SearchRecord>,
    record_index: usize,
    Ghost(s0): Ghost<Seq<BottleView>>,
    Ghost(f): Ghost<StateFilter>,
) -> (r: Vec<Move>)
    requires
        records_ok(records@, s0, f),
        record_index < records@.len(),
    ensures
        valid_path(s0, moves_v(r@), f),
        replay(s0, moves_v(r@)) == state_v(records@[record_index as int].state@),
        r@.len() == records@[record_index as int].cost,
{
    let ghost target = state_v(records@[record_index as int].state@);
    let mut moves: Vec<Move> = Vec::new();
    let mut cur: usize = record_index;
    proof {
        assert(record_ok(records@, cur as int, s0, f));
    }
    while records[cur].parent.is_some()
        invariant
            records_ok(records@, s0, f),
            cur < records@.len(),
            target == state_v(records@[record_index as int].state@),
            valid_path(state_v(records@[cur as int].state@), moves_v(moves@), f),
            replay(state_v(records@[cur as int].state@), moves_v(moves@)) == target,
            moves@.len() + records@[cur as int].cost == records@[record_index as int].cost,
        decreases cur,
    {
        proof {
            assert(record_ok(records@, cur as int, s0, f));
        }
        let parent = match records[cur].parent {
            Some(p) => p,
            None => 0,
        };
        let m = match records[cur].via_move {
            Some(m) => m,
            None => Move {
                source_idx: 0,
                source_clickable_pos: None,
                destination_idx: 0,
                destination_clickable_pos: None,
            },
        };
        let ghost old_moves = moves_v(moves@);
        moves.insert(0, m);
        proof {
            let mv = moves_v(moves@);
            assert(mv =~= seq![m@] + old_moves);
            assert(mv.drop_first() =~= old_moves);
            assert(mv[0] == m@);
        }
        cur = parent;
    }
    proof {
        assert(record_ok(records@, cur as int, s0, f));
        assert(cur == 0);
    }
    moves
}

/// Everything a successor offered by the generator satisfies.
pub open spec fn successor_ok(s: Seq<BottleView>, e: (Move, Vec<Bottle>)) -> bool {
    &&& move_fits(s, e.0@)
    &&& state_v(e.1@) == apply_move(s, e.0.src(), e.0.dst())
}

/// The successors that a pass over `moves` from level `s`, reached in `cost`
/// moves, adds to the search, with the best costs afterwards: in order, each
/// move's level after the reveal of hidden bottles, where the filter accepts
/// it and no cost of at most one move more is recorded for its key; each one
/// added records that cost for its key.
pub open spec fn added_successors(
    s: Seq<BottleView>,
    moves: Seq<(Move, Vec<Bottle>)>,
    filter: StateFilter,
    costs: Map<Seq<Seq<u16>>, usize>,
    cost: int,
) -> (Seq<(Move, Seq<BottleView>)>, Map<Seq<Seq<u16>>, usize>)
    decreases moves.len(),
{
    if moves.len() == 0 {
        (Seq::empty(), costs)
    } else {
        let m = moves[0].0;
        let next = unlock_solved(state_v(moves[0].1@));
        let key = state_key(next);
        let rest = moves.drop_first();
        if !filter_ok(filter, s, next) || (costs.contains_key(key) && cost + 1 >= costs[key]) {
            added_successors(s, rest, filter, costs, cost)
        } else {
            let r = added_successors(s, rest, filter, costs.insert(key, (cost + 1) as usize), cost);
            (seq![(m, next)] + r.0, r.1)
        }
    }
}

/// A pass over successors keeps every recorded key, records the key of
/// every successor the filter accepts, and gives a key a new cost only
/// through one of the successors it adds, at one move more.
proof fn lemma_added_successors_costs(
    s: Seq<BottleView>,
    moves: Seq<(Move, Vec<Bottle>)>,
    filter: StateFilter,
    costs: Map<Seq<Seq<u16>>, usize>,
    cost: int,
)
    requires
        0 <= cost < usize::MAX,
    ensures
        ({
            let r = added_successors(s, moves, filter, costs, cost);
            &&& forall|k: Seq<Seq<u16>>| #[trigger] costs.contains_key(k) ==> r.1.contains_key(k) && r.1[k] <= costs[k]
            &&& forall|k: Seq<Seq<u16>>|
                #[trigger] r.1.contains_key(k) ==> (costs.contains_key(k) && r.1[k] == costs[k])
                    || exists|j: int|
                    0 <= j < r.0.len() && state_key((#[trigger] r.0[j]).1) == k && r.1[k] == cost + 1
            &&& forall|i: int|
                0 <= i < moves.len() && filter_ok(
                    filter,
                    s,
                    unlock_solved(state_v((#[trigger] moves[i]).1@)),
                ) ==> r.1.contains_key(state_key(unlock_solved(state_v(moves[i].1@)))) && r.1[state_key(
                    unlock_solved(state_v(moves[i].1@)),
                )] <= cost + 1
            &&& forall|j: int|
                0 <= j < r.0.len() ==> r.1.contains_key(state_key((#[trigger] r.0[j]).1)) && r.1[state_key(
                    r.0[j].1,
                )] <= cost + 1
        }),
    decreases moves.len(),
{
    if moves.len() == 0 {
        assert(added_successors(s, moves, filter, costs, cost).1 == costs);
    } else {
        let next = unlock_solved(state_v(moves[0].1@));
        let key = state_key(next);
        let rest = moves.drop_first();
        let r = added_successors(s, moves, filter, costs, cost);
        if !filter_ok(filter, s, next) || (costs.contains_key(key) && cost + 1 >= costs[key]) {
            lemma_added_successors_costs(s, rest, filter, costs, cost);
            assert(r == added_successors(s, rest, filter, costs, cost));
            assert forall|i: int|
                0 <= i < moves.len() && filter_ok(
                    filter,
                    s,
                    unlock_solved(state_v((#[trigger] moves[i]).1@)),
                ) implies r.1.contains_key(state_key(unlock_solved(state_v(moves[i].1@)))) && r.1[state_key(
                    unlock_solved(state_v(moves[i].1@)),
                )] <= cost + 1 by {
                if i > 0 {
                    assert(moves[i] == rest[i - 1]);
                }
            }
        } else {
            let c2 = costs.insert(key, (cost + 1) as usize);
            let r2 = added_successors(s, rest, filter, c2, cost);
            lemma_added_successors_costs(s, rest, filter, c2, cost);
            assert(r.0 == seq![(moves[0].0, next)] + r2.0);
            assert forall|j: int| 0 <= j < r.0.len() implies r.1.contains_key(state_key((#[trigger] r.0[j]).1))
                && r.1[state_key(r.0[j].1)] <= cost + 1 by {
                if j == 0 {
                    assert(c2.contains_key(key));
                } else {
                    assert(r.0[j] == r2.0[j - 1]);
                }
            }
            assert forall|k: Seq<Seq<u16>>| #[trigger] costs.contains_key(k) implies r.1.contains_key(k) && r.1[k] <= costs[k] by {
                assert(c2.contains_key(k));
            }
            assert forall|k: Seq<Seq<u16>>| #[trigger] r.1.contains_key(k) implies (costs.contains_key(k)
                && r.1[k] == costs[k]) || exists|j: int|
                0 <= j < r.0.len() && state_key((#[trigger] r.0[j]).1) == k && r.1[k] == cost + 1 by {
                if c2.contains_key(k) && r.1[k] == c2[k] {
                    if k == key {
                        assert(r.0[0] == (moves[0].0, next));
                    }
                } else {
                    let j = choose|j: int|
                        0 <= j < r2.0.len() && state_key((#[trigger] r2.0[j]).1) == k && r.1[k] == cost + 1;
                    assert(r.0[j + 1] == r2.0[j]);
                }
            }
            assert forall|i: int|
                0 <= i < moves.len() && filter_ok(
                    filter,
                    s,
                    unlock_solved(state_v((#[trigger] moves[i]).1@)),
                ) implies r.1.contains_key(state_key(unlock_solved(state_v(moves[i].1@)))) && r.1[state_key(
                    unlock_solved(state_v(moves[i].1@)),
                )] <= cost + 1 by {
                if i > 0 {
                    assert(moves[i] == rest[i - 1]);
                } else {
                    assert(c2.contains_key(key));
                }
            }
        }
    }
}

/// Record `r` was added for `x`: reached from record `parent` by `x`'s move,
/// at `x`'s level, one move after `cost`.
spec fn added_record(r: SearchRecord, x: (Move, Seq<BottleView>), parent: usize, cost: int) -> bool {
    &&& state_v(r.state@) == x.1
    &&& r.via_move == Some(x.0)
    &&& r.parent == Some(parent)
    &&& r.cost == cost + 1
}

/// The queue entry of the record added at `index` for `x`, one move after
/// `cost`: its moves plus the estimate of the moves left, at most
/// `usize::MAX`, and its moves.
spec fn queue_entry_for(x: (Move, Seq<BottleView>), index: int, cost: int, target: usize) -> QueueEntry {
    let est = if total_runs(x.1) >= target {
        total_runs(x.1) - target
    } else {
        0
    };
    let total = cost + 1 + est;
    QueueEntry {
        estimated_total_cost: (if total > usize::MAX {
            usize::MAX as int
        } else {
            total
        }) as usize,
        cost: (cost + 1) as usize,
        record_index: index as usize,
    }
}

proof fn lemma_entries_push(
    done: Seq<(Move, Seq<BottleView>)>,
    x: (Move, Seq<BottleView>),
    n0: int,
    cost: int,
    target: usize,
)
    ensures
        queue_entries_for(done.push(x), n0, cost, target) == queue_entries_for(done, n0, cost, target).push(
            queue_entry_for(x, n0 + done.len(), cost, target),
        ),
{
    assert(queue_entries_for(done.push(x), n0, cost, target) =~= queue_entries_for(done, n0, cost, target).push(
        queue_entry_for(x, n0 + done.len(), cost, target),
    ));
}

proof fn lemma_queue_start(open0: Seq<QueueEntry>, es: Seq<QueueEntry>)
    requires
        es.len() == 0,
    ensures
        open0.to_multiset() == open0.to_multiset().add(es.to_multiset()),
{
    broadcast use vstd::multiset::group_multiset_axioms;
    broadcast use vstd::seq_lib::group_to_multiset_ensures;

    assert(es =~= Seq::<QueueEntry>::empty());
    assert(open0.to_multiset() =~= open0.to_multiset().add(es.to_multiset()));
}

proof fn lemma_queue_step(
    open0: Seq<QueueEntry>,
    before: Seq<QueueEntry>,
    after: Seq<QueueEntry>,
    ps: Seq<QueueEntry>,
    e: QueueEntry,
)
    requires
        before.to_multiset() == open0.to_multiset().add(ps.to_multiset()),
        after.to_multiset() == before.to_multiset().insert(e),
    ensures
        after.to_multiset() == open0.to_multiset().add(ps.push(e).to_multiset()),
{
    broadcast use vstd::multiset::group_multiset_axioms;

    vstd::seq_lib::to_multiset_build(ps, e);
    assert(after.to_multiset() =~= open0.to_multiset().add(ps.push(e).to_multiset()));
}

/// The queue entries of the records added for `added`, from index `n0` on.
spec fn queue_entries_for(added: Seq<(Move, Seq<BottleView>)>, n0: int, cost: int, target: usize) -> Seq<QueueEntry> {
    Seq::new(added.len(), |j: int| queue_entry_for(added[j], n0 + j, cost, target))
}

/// Adds the successors of record `record_index` to the search: each one the
/// filter accepts, and whose state no earlier record reached in as few moves,
/// becomes a record and enters the queue.
fn push_successors(
    records: &mut Vec<SearchRecord>,
    open: &mut Vec<QueueEntry>,
    best_costs: &mut CostTable,
    record_index: usize,
    possible_moves: Vec<(Move, Vec<Bottle>)>,
    filter: StateFilter,
    target: usize,
    Ghost(s0): Ghost<Seq<BottleView>>,
)
    requires
        records_ok(old(records)@, s0, filter),
        record_index < old(records)@.len(),
        old(records)@.len() <= usize::MAX,
        entries_below(old(open)@, old(records)@.len() as int),
        heap_ok(old(open)@),
        old(best_costs).wf(),
        forall|k: int|
            0 <= k < possible_moves@.len() ==> successor_ok(
                state_v(old(records)@[record_index as int].state@),
                #[trigger] possible_moves@[k],
            ),
    ensures
        records_ok(final(records)@, s0, filter),
        final(records)@.len() <= usize::MAX,
        entries_below(final(open)@, final(records)@.len() as int),
        heap_ok(final(open)@),
        final(records)@.len() >= old(records)@.len(),
        final(records)@.len() - old(records)@.len() == final(open)@.len() - old(open)@.len(),
        final(best_costs).wf(),
        ({
            let n0 = old(records)@.len();
            let cost = old(records)@[record_index as int].cost as int;
            let added = added_successors(
                state_v(old(records)@[record_index as int].state@),
                possible_moves@,
                filter,
                old(best_costs).costs(),
                cost,
            );
            &&& final(records)@.len() == n0 + added.0.len()
            &&& forall|i: int| 0 <= i < n0 ==> #[trigger] final(records)@[i] == old(records)@[i]
            &&& forall|j: int|
                0 <= j < added.0.len() ==> added_record(
                    #[trigger] final(records)@[n0 + j],
                    added.0[j],
                    record_index,
                    cost,
                )
            &&& final(best_costs).costs() == added.1
            &&& final(open)@.to_multiset() == old(open)@.to_multiset().add(
                queue_entries_for(added.0, n0 as int, cost, target).to_multiset(),
            )
        }),
{
    let ghost s = state_v(records@[record_index as int].state@);
    let ghost n0 = records@.len();
    let ghost o0 = open@.len();
    let ghost open0 = open@;
    let ghost recs0 = records@;
    let ghost all = added_successors(s, possible_moves@, filter, best_costs.costs(), records@[record_index as int].cost as int);
    let ghost mut done: Seq<(Move, Seq<BottleView>)> = Seq::empty();
    let ghost mut done_before: Seq<(Move, Seq<BottleView>)> = Seq::empty();
    let record_cost = records[record_index].cost;
    proof {
        assert(record_ok(records@, record_index as int, s0, filter));
        assert(all.0 =~= done + all.0);
        lemma_queue_start(open0, queue_entries_for(done, n0 as int, record_cost as int, target));
    }
    let mut moves = possible_moves;
    while moves.len() > 0
        invariant
            records_ok(records@, s0, filter),
            record_index < records@.len(),
            s == state_v(records@[record_index as int].state@),
            level_fits(s),
            record_cost == records@[record_index as int].cost,
            record_cost <= record_index,
            records@.len() <= usize::MAX,
            entries_below(open@, records@.len() as int),
            heap_ok(open@),
            records@.len() >= n0,
            records@.len() - n0 == open@.len() - o0,
            best_costs.wf(),
            forall|k: int| 0 <= k < moves@.len() ==> successor_ok(s, #[trigger] moves@[k]),
            record_index < n0,
            records@.len() == n0 + done.len(),
            forall|i: int| 0 <= i < n0 ==> #[trigger] records@[i] == recs0[i],
            forall|j: int|
                0 <= j < done.len() ==> added_record(
                    #[trigger] records@[n0 + j],
                    done[j],
                    record_index,
                    record_cost as int,
                ),
            ({
                let t = added_successors(s, moves@, filter, best_costs.costs(), record_cost as int);
                all.0 == done + t.0 && all.1 == t.1
            }),
            open@.to_multiset() == open0.to_multiset().add(
                queue_entries_for(done, n0 as int, record_cost as int, target).to_multiset(),
            ),
        decreases moves@.len(),
    {
        let ghost old_moves = moves@;
        let ghost costs_before = best_costs.costs();
        let (move_to_try, mut next_state) = moves.remove(0);
        proof {
            assert(successor_ok(s, old_moves[0]));
            assert(old_moves[0] == (move_to_try, next_state));
            assert(moves@ =~= old_moves.drop_first());
            assert forall|k: int| 0 <= k < moves@.len() implies successor_ok(
                s,
                #[trigger] moves@[k],
            ) by {
                assert(moves@[k] == old_moves[k + 1]);
            }
        }
        let ghost moved = state_v(next_state@);
        proof {
            lemma_move_keeps_capacity(s, move_to_try.src(), move_to_try.dst());
            lemma_unlock_keeps_layers(moved);
        }
        unlock_hidden_bottles_with_solved_colors(&mut next_state);
        let ghost next = state_v(next_state@);
        if !filter_accepts(filter, &records[record_index].state, &next_state) {
            continue;
        }
        let next_cost = record_cost + 1;
        let next_key = canonical_state_key(&next_state);
        match best_costs.get(&next_key) {
            Some(best) => {
                if next_cost >= best {
                    continue;
                }
            },
            None => {},
        }
        best_costs.set(next_key, next_cost);
        let ghost before = records@;
        let record = SearchRecord {
            state: next_state,
            cost: next_cost,
            parent: Some(record_index),
            via_move: Some(move_to_try),
        };
        records.push(record);
        proof {
            assert(records@ == before.push(record));
            assert(before.push(record)[record_index as int] == before[record_index as int]);
            assert(record_ok(before.push(record), before.len() as int, s0, filter));
            lemma_records_push(before, record, s0, filter);
            let x = (move_to_try, next);
            let t = added_successors(s, moves@, filter, best_costs.costs(), record_cost as int);
            assert(all.0 =~= done.push(x) + t.0);
            done_before = done;
            done = done.push(x);
            assert forall|j: int| 0 <= j < done.len() implies added_record(
                #[trigger] records@[n0 + j],
                done[j],
                record_index,
                record_cost as int,
            ) by {
                if j < done.len() - 1 {
                    assert(records@[n0 + j] == before[n0 + j]);
                }
            }
            assert forall|i: int| 0 <= i < n0 implies #[trigger] records@[i] == recs0[i] by {
                assert(records@[i] == before[i]);
            }
        }
        let next_record_index = records.len() - 1;
        let estimate = estimate_remaining_moves(&records[next_record_index].state, target);
        let entry = QueueEntry {
            estimated_total_cost: next_cost.saturating_add(estimate),
            cost: next_cost,
            record_index: next_record_index,
        };
        let ghost open_before = open@;
        heap_push(open, entry, Ghost(records@.len() as int));
        proof {
            let x = (move_to_try, next);
            assert(state_v(records@[next_record_index as int].state@) == next);
            assert(entry == queue_entry_for(x, next_record_index as int, record_cost as int, target));
            lemma_entries_push(done_before, x, n0 as int, record_cost as int, target);
            lemma_queue_step(
                open0,
                open_before,
                open@,
                queue_entries_for(done_before, n0 as int, record_cost as int, target),
                entry,
            );
        }
    }
    proof {
        assert(done + Seq::<(Move, Seq<BottleView>)>::empty() =~= done);
    }
}

/// The level of record `cur` leads to `target` by `ms`; then the start does,
/// by the moves to record `cur` followed by `ms`.
proof fn lemma_record_reached(
    recs: Seq<SearchRecord>,
    cur: int,
    ms: Seq<MoveView>,
    target: Seq<BottleView>,
    s0: Seq<BottleView>,
    f: StateFilter,
)
    requires
        records_ok(recs, s0, f),
        0 <= cur < recs.len(),
        valid_path(state_v(recs[cur].state@), ms, f),
        replay(state_v(recs[cur].state@), ms) == target,
    ensures
        exists|ms2: Seq<MoveView>|
            valid_path(s0, ms2, f) && replay(s0, ms2) == target && ms2.len() == recs[cur].cost + ms.len(),
    decreases cur,
{
    assert(record_ok(recs, cur, s0, f));
    if cur == 0 {
        assert(valid_path(s0, ms, f) && replay(s0, ms) == target && ms.len() == recs[cur].cost + ms.len());
    } else {
        let p = recs[cur].parent->0 as int;
        let m = recs[cur].via_move->0;
        let ms1 = seq![m@] + ms;
        assert(ms1.drop_first() =~= ms);
        assert(ms1[0] == m@);
        lemma_record_reached(recs, p, ms1, target, s0, f);
    }
}

/// Some queue entry is for record `w`.
spec fn queued(open: Seq<QueueEntry>, w: int) -> bool {
    exists|x: int| 0 <= x < open.len() && (#[trigger] open[x]).record_index == w
}

/// Key `k` belongs to a level explored at its best cost, or to a queued
/// record at its best cost.
spec fn key_covered(
    records: Seq<SearchRecord>,
    open: Seq<QueueEntry>,
    explored: Seq<(Seq<BottleView>, nat)>,
    costs: Map<Seq<Seq<u16>>, usize>,
    k: Seq<Seq<u16>>,
) -> bool {
    ||| exists|j: int|
        0 <= j < explored.len() && state_key((#[trigger] explored[j]).0) == k && explored[j].1 == costs[k]
    ||| exists|w: int|
        0 <= w < records.len() && state_key(state_v((#[trigger] records[w]).state@)) == k
            && records[w].cost == costs[k] && queued(open, w)
}

#[verifier::opaque]
spec fn keys_covered(
    records: Seq<SearchRecord>,
    open: Seq<QueueEntry>,
    explored: Seq<(Seq<BottleView>, nat)>,
    costs: Map<Seq<Seq<u16>>, usize>,
) -> bool {
    forall|k: Seq<Seq<u16>>| #[trigger] costs.contains_key(k) ==> key_covered(records, open, explored, costs, k)
}

/// Every move the generator offers from an explored level, whose result the
/// filter accepts, leads to a level whose key has a cost of at most one move
/// more.
#[verifier::opaque]
spec fn successors_recorded(
    explored: Seq<(Seq<BottleView>, nat)>,
    costs: Map<Seq<Seq<u16>>, usize>,
    f: StateFilter,
) -> bool {
    forall|i: int, a: int, b: int|
        0 <= i < explored.len() && #[trigger] candidate(explored[i].0, a, b) && filter_ok(
            f,
            explored[i].0,
            step(explored[i].0, a, b),
        ) ==> costs.contains_key(state_key(step(explored[i].0, a, b))) && costs[state_key(
            step(explored[i].0, a, b),
        )] <= explored[i].1 + 1
}

/// What a search that found nothing has explored: levels, each with the
/// number of moves that reached it. Each is reached from the start by that
/// many moves, each allowed and accepted by the filter. One of them has the
/// key of the start; none meets the goal at its number of moves; only the
/// start is reached after no move; and every move the generator offers from an explored
/// level, whose result the filter accepts, leads to a level with the key of
/// an explored level.
pub open spec fn search_exhausted(
    explored: Seq<(Seq<BottleView>, nat)>,
    s0: Seq<BottleView>,
    goal: SearchGoal,
    f: StateFilter,
) -> bool {
    &&& exists|j: int| 0 <= j < explored.len() && state_key((#[trigger] explored[j]).0) == state_key(s0)
    &&& forall|i: int| 0 <= i < explored.len() ==> !goal_met(goal, (#[trigger] explored[i]).0, explored[i].1)
    &&& forall|i: int| 0 <= i < explored.len() && (#[trigger] explored[i]).1 == 0 ==> explored[i].0 == s0
    &&& forall|i: int|
        0 <= i < explored.len() ==> exists|ms: Seq<MoveView>|
            valid_path(s0, ms, f) && replay(s0, ms) == (#[trigger] explored[i]).0 && ms.len()
                == explored[i].1
    &&& forall|i: int, a: int, b: int|
        0 <= i < explored.len() && #[trigger] candidate(explored[i].0, a, b) && filter_ok(
            f,
            explored[i].0,
            step(explored[i].0, a, b),
        ) ==> exists|j: int|
            0 <= j < explored.len() && state_key((#[trigger] explored[j]).0) == state_key(
                step(explored[i].0, a, b),
            )
}

/// No explored level meets the goal at its number of moves, only the start
/// is explored after no move, and each is reached from the start by an
/// allowed path of its number of moves.
#[verifier::opaque]
spec fn explored_ok(
    explored: Seq<(Seq<BottleView>, nat)>,
    s0: Seq<BottleView>,
    goal: SearchGoal,
    f: StateFilter,
) -> bool {
    &&& forall|i: int| 0 <= i < explored.len() ==> !goal_met(goal, (#[trigger] explored[i]).0, explored[i].1)
    &&& forall|i: int| 0 <= i < explored.len() && (#[trigger] explored[i]).1 == 0 ==> explored[i].0 == s0
    &&& forall|i: int|
        0 <= i < explored.len() ==> exists|ms: Seq<MoveView>|
            valid_path(s0, ms, f) && replay(s0, ms) == (#[trigger] explored[i]).0 && ms.len()
                == explored[i].1
}

/// Exploring a level that does not meet the goal, reached by an allowed
/// path of its number of moves, keeps the explored levels in order.
proof fn lemma_explore_ok(
    explored: Seq<(Seq<BottleView>, nat)>,
    cur: Seq<BottleView>,
    cost: nat,
    s0: Seq<BottleView>,
    goal: SearchGoal,
    f: StateFilter,
)
    requires
        explored_ok(explored, s0, goal, f),
        !goal_met(goal, cur, cost),
        cost == 0 ==> cur == s0,
        exists|ms: Seq<MoveView>| valid_path(s0, ms, f) && replay(s0, ms) == cur && ms.len() == cost,
    ensures
        explored_ok(explored.push((cur, cost)), s0, goal, f),
{
    reveal(explored_ok);
    let e2 = explored.push((cur, cost));
    assert forall|i: int|
        0 <= i < e2.len() implies exists|ms: Seq<MoveView>|
            valid_path(s0, ms, f) && replay(s0, ms) == (#[trigger] e2[i]).0 && ms.len() == e2[i].1 by {
        if i < explored.len() {
            assert(e2[i] == explored[i]);
        }
    }
    assert forall|i: int| 0 <= i < e2.len() implies !goal_met(goal, (#[trigger] e2[i]).0, e2[i].1) by {
        if i < explored.len() {
            assert(e2[i] == explored[i]);
        }
    }
    assert forall|i: int| 0 <= i < e2.len() && (#[trigger] e2[i]).1 == 0 implies e2[i].0 == s0 by {
        if i < explored.len() {
            assert(e2[i] == explored[i]);
        }
    }
}

/// Taking an entry from the queue keeps every key covered, when its record
/// is explored or does not hold the best cost of its key.
proof fn lemma_pop_covered(
    records: Seq<SearchRecord>,
    open: Seq<QueueEntry>,
    open2: Seq<QueueEntry>,
    e: QueueEntry,
    explored: Seq<(Seq<BottleView>, nat)>,
    explored2: Seq<(Seq<BottleView>, nat)>,
    costs: Map<Seq<Seq<u16>>, usize>,
    expanded: bool,
)
    requires
        keys_covered(records, open, explored, costs),
        open2.to_multiset() == open.to_multiset().remove(e),
        0 <= e.record_index < records.len(),
        expanded ==> explored2 == explored.push(
            (state_v(records[e.record_index as int].state@), records[e.record_index as int].cost as nat),
        ),
        !expanded ==> explored2 == explored,
        !expanded ==> {
            let k = state_key(state_v(records[e.record_index as int].state@));
            costs.contains_key(k) && records[e.record_index as int].cost != costs[k]
        },
    ensures
        keys_covered(records, open2, explored2, costs),
{
    reveal(keys_covered);
    reveal(successors_recorded);
    reveal(records_costed);
    reveal(explored_costed);
    reveal(entries_estimated);
    broadcast use vstd::multiset::group_multiset_axioms;
    broadcast use vstd::seq_lib::group_to_multiset_ensures;

    let w0 = e.record_index as int;
    assert forall|k: Seq<Seq<u16>>| #[trigger] costs.contains_key(k) implies key_covered(
        records,
        open2,
        explored2,
        costs,
        k,
    ) by {
        assert(key_covered(records, open, explored, costs, k));
        if exists|j: int|
            0 <= j < explored.len() && state_key((#[trigger] explored[j]).0) == k && explored[j].1 == costs[k] {
            let j = choose|j: int|
                0 <= j < explored.len() && state_key((#[trigger] explored[j]).0) == k && explored[j].1 == costs[k];
            assert(explored2[j] == explored[j]);
        } else {
            let w = choose|w: int|
                0 <= w < records.len() && state_key(state_v((#[trigger] records[w]).state@)) == k
                    && records[w].cost == costs[k] && queued(open, w);
            if w == w0 {
                assert(expanded);
                assert(explored2[explored.len() as int].0 == state_v(records[w].state@));
            } else {
                let x = choose|x: int| 0 <= x < open.len() && (#[trigger] open[x]).record_index == w;
                assert(open.contains(open[x]));
                assert(open[x] != e);
                assert(open2.to_multiset().count(open[x]) > 0);
                assert(open2.contains(open[x]));
                let x2 = choose|x2: int| 0 <= x2 < open2.len() && open2[x2] == open[x];
                assert(open2[x2].record_index == w);
            }
        }
    }
}

/// Adding the successors of an explored record keeps every key covered.
proof fn lemma_push_covered(
    records: Seq<SearchRecord>,
    records2: Seq<SearchRecord>,
    open: Seq<QueueEntry>,
    open2: Seq<QueueEntry>,
    explored: Seq<(Seq<BottleView>, nat)>,
    s: Seq<BottleView>,
    moves: Seq<(Move, Vec<Bottle>)>,
    filter: StateFilter,
    costs: Map<Seq<Seq<u16>>, usize>,
    cost: int,
    parent: usize,
    target: usize,
)
    requires
        keys_covered(records, open, explored, costs),
        0 <= cost < usize::MAX,
        records2.len() <= usize::MAX,
        ({
            let n0 = records.len();
            let added = added_successors(s, moves, filter, costs, cost);
            &&& records2.len() == n0 + added.0.len()
            &&& forall|i: int| 0 <= i < n0 ==> #[trigger] records2[i] == records[i]
            &&& forall|j: int|
                0 <= j < added.0.len() ==> added_record(#[trigger] records2[n0 + j], added.0[j], parent, cost)
            &&& open2.to_multiset() == open.to_multiset().add(
                queue_entries_for(added.0, n0 as int, cost, target).to_multiset(),
            )
        }),
    ensures
        keys_covered(records2, open2, explored, added_successors(s, moves, filter, costs, cost).1),
{
    reveal(keys_covered);
    reveal(successors_recorded);
    reveal(records_costed);
    reveal(explored_costed);
    reveal(entries_estimated);
    broadcast use vstd::multiset::group_multiset_axioms;
    broadcast use vstd::seq_lib::group_to_multiset_ensures;

    let n0 = records.len() as int;
    let added = added_successors(s, moves, filter, costs, cost);
    let qs = queue_entries_for(added.0, n0, cost, target);
    lemma_added_successors_costs(s, moves, filter, costs, cost);
    assert forall|k: Seq<Seq<u16>>| #[trigger] added.1.contains_key(k) implies key_covered(
        records2,
        open2,
        explored,
        added.1,
        k,
    ) by {
        if costs.contains_key(k) && added.1[k] == costs[k] {
            assert(key_covered(records, open, explored, costs, k));
            if !(exists|j: int|
                0 <= j < explored.len() && state_key((#[trigger] explored[j]).0) == k && explored[j].1 == costs[k]) {
                let w = choose|w: int|
                    0 <= w < records.len() && state_key(state_v((#[trigger] records[w]).state@)) == k
                        && records[w].cost == costs[k] && queued(open, w);
                let x = choose|x: int| 0 <= x < open.len() && (#[trigger] open[x]).record_index == w;
                assert(open.contains(open[x]));
                assert(open2.to_multiset().count(open[x]) > 0);
                assert(open2.contains(open[x]));
                let x2 = choose|x2: int| 0 <= x2 < open2.len() && open2[x2] == open[x];
                assert(open2[x2].record_index == w);
                assert(records2[w] == records[w]);
            }
        } else {
            let j = choose|j: int|
                0 <= j < added.0.len() && state_key((#[trigger] added.0[j]).1) == k && added.1[k] == cost + 1;
            let w = n0 + j;
            assert(added_record(records2[n0 + j], added.0[j], parent, cost));
            let qe = qs[j];
            assert(qs.contains(qe));
            assert(open2.to_multiset().count(qe) > 0);
            assert(open2.contains(qe));
            let x2 = choose|x2: int| 0 <= x2 < open2.len() && open2[x2] == qe;
            assert(open2[x2].record_index == w);
            assert(queued(open2, w));
            assert(state_key(state_v(records2[w].state@)) == k);
        }
    }
}

/// After the successors of level `s` are added, every move the generator
/// offers from `s`, whose result the filter accepts, leads to a level whose
/// key has a cost.
proof fn lemma_expanded_recorded(
    s: Seq<BottleView>,
    unsorted: Seq<(Move, Vec<Bottle>)>,
    sorted: Seq<(Move, Vec<Bottle>)>,
    filter: StateFilter,
    costs: Map<Seq<Seq<u16>>, usize>,
    cost: int,
)
    requires
        0 <= cost < usize::MAX,
        unsorted.len() == candidates_upto(s, (s.len() * s.len()) as int).len(),
        forall|k: int|
            0 <= k < unsorted.len() ==> {
                let (src, dst) = candidates_upto(s, (s.len() * s.len()) as int)[k];
                state_v((#[trigger] unsorted[k]).1@) == apply_move(s, src, dst)
            },
        sorted.to_multiset() == unsorted.to_multiset(),
    ensures
        forall|a: int, b: int|
            #[trigger] candidate(s, a, b) && filter_ok(filter, s, step(s, a, b)) ==> added_successors(
                s,
                sorted,
                filter,
                costs,
                cost,
            ).1.contains_key(state_key(step(s, a, b))) && added_successors(s, sorted, filter, costs, cost).1[state_key(
                step(s, a, b),
            )] <= cost + 1,
{
    broadcast use vstd::seq_lib::group_to_multiset_ensures;

    lemma_added_successors_costs(s, sorted, filter, costs, cost);
    assert forall|a: int, b: int|
        #[trigger] candidate(s, a, b) && filter_ok(filter, s, step(s, a, b)) implies added_successors(
            s,
            sorted,
            filter,
            costs,
            cost,
        ).1.contains_key(state_key(step(s, a, b))) && added_successors(s, sorted, filter, costs, cost).1[state_key(
            step(s, a, b),
        )] <= cost + 1 by {
        assert(s.len() > 0);
        lemma_generated_moves(s);
        let c = candidates_upto(s, (s.len() * s.len()) as int);
        assert(c.contains((a, b)));
        let k = choose|k: int| 0 <= k < c.len() && c[k] == (a, b);
        assert(state_v(unsorted[k].1@) == apply_move(s, a, b));
        assert(unsorted.contains(unsorted[k]));
        assert(sorted.to_multiset().count(unsorted[k]) > 0);
        assert(sorted.contains(unsorted[k]));
        let idx = choose|idx: int| 0 <= idx < sorted.len() && sorted[idx] == unsorted[k];
        assert(unlock_solved(state_v(sorted[idx].1@)) == step(s, a, b));
    }
}

/// Moves made plus the estimate of moves left from `s`, at most `usize::MAX`.
spec fn estimate_for(s: Seq<BottleView>, cost: int, target: usize) -> usize {
    let est = if total_runs(s) >= target {
        total_runs(s) - target
    } else {
        0
    };
    let total = cost + est;
    (if total > usize::MAX {
        usize::MAX as int
    } else {
        total
    }) as usize
}

/// Every queue entry holds the estimated total cost of its record.
#[verifier::opaque]
spec fn entries_estimated(open: Seq<QueueEntry>, records: Seq<SearchRecord>, target: usize) -> bool {
    forall|i: int|
        0 <= i < open.len() ==> (#[trigger] open[i]).record_index < records.len()
            && open[i].estimated_total_cost == estimate_for(
            state_v(records[open[i].record_index as int].state@),
            records[open[i].record_index as int].cost as int,
            target,
        )
}

/// Every record's key has a cost, at most the record's.
#[verifier::opaque]
spec fn records_costed(records: Seq<SearchRecord>, costs: Map<Seq<Seq<u16>>, usize>) -> bool {
    forall|w: int|
        0 <= w < records.len() ==> costs.contains_key(state_key(state_v((#[trigger] records[w]).state@)))
            && costs[state_key(state_v(records[w].state@))] <= records[w].cost
}

/// Every explored level's key has a cost, at most the moves it was explored at.
#[verifier::opaque]
spec fn explored_costed(explored: Seq<(Seq<BottleView>, nat)>, costs: Map<Seq<Seq<u16>>, usize>) -> bool {
    forall|j: int|
        0 <= j < explored.len() ==> costs.contains_key(state_key((#[trigger] explored[j]).0))
            && costs[state_key(explored[j].0)] <= explored[j].1
}

proof fn lemma_estimates_pop(
    open: Seq<QueueEntry>,
    open2: Seq<QueueEntry>,
    e: QueueEntry,
    records: Seq<SearchRecord>,
    target: usize,
)
    requires
        entries_estimated(open, records, target),
        open2.to_multiset() == open.to_multiset().remove(e),
    ensures
        entries_estimated(open2, records, target),
{
    reveal(keys_covered);
    reveal(successors_recorded);
    reveal(records_costed);
    reveal(explored_costed);
    reveal(entries_estimated);
    broadcast use vstd::multiset::group_multiset_axioms;
    broadcast use vstd::seq_lib::group_to_multiset_ensures;

    assert forall|i: int| 0 <= i < open2.len() implies (#[trigger] open2[i]).record_index < records.len()
        && open2[i].estimated_total_cost == estimate_for(
        state_v(records[open2[i].record_index as int].state@),
        records[open2[i].record_index as int].cost as int,
        target,
    ) by {
        let x = open2[i];
        assert(open2.contains(x));
        assert(open2.to_multiset().count(x) > 0);
        assert(open.to_multiset().count(x) > 0);
        assert(open.contains(x));
        let j = choose|j: int| 0 <= j < open.len() && open[j] == x;
    }
}

proof fn lemma_estimates_push(
    records: Seq<SearchRecord>,
    records2: Seq<SearchRecord>,
    open: Seq<QueueEntry>,
    open2: Seq<QueueEntry>,
    added: Seq<(Move, Seq<BottleView>)>,
    cost: int,
    parent: usize,
    target: usize,
)
    requires
        entries_estimated(open, records, target),
        records2.len() == records.len() + added.len(),
        records2.len() <= usize::MAX,
        forall|i: int| 0 <= i < records.len() ==> #[trigger] records2[i] == records[i],
        forall|j: int|
            0 <= j < added.len() ==> added_record(#[trigger] records2[records.len() + j], added[j], parent, cost),
        open2.to_multiset() == open.to_multiset().add(
            queue_entries_for(added, records.len() as int, cost, target).to_multiset(),
        ),
    ensures
        entries_estimated(open2, records2, target),
{
    reveal(keys_covered);
    reveal(successors_recorded);
    reveal(records_costed);
    reveal(explored_costed);
    reveal(entries_estimated);
    broadcast use vstd::multiset::group_multiset_axioms;
    broadcast use vstd::seq_lib::group_to_multiset_ensures;

    let n0 = records.len() as int;
    let qs = queue_entries_for(added, n0, cost, target);
    assert forall|i: int| 0 <= i < open2.len() implies (#[trigger] open2[i]).record_index < records2.len()
        && open2[i].estimated_total_cost == estimate_for(
        state_v(records2[open2[i].record_index as int].state@),
        records2[open2[i].record_index as int].cost as int,
        target,
    ) by {
        let x = open2[i];
        assert(open2.contains(x));
        assert(open2.to_multiset().count(x) > 0);
        if open.to_multiset().count(x) > 0 {
            assert(open.contains(x));
            let j = choose|j: int| 0 <= j < open.len() && open[j] == x;
            assert(records2[x.record_index as int] == records[x.record_index as int]);
        } else {
            assert(qs.to_multiset().count(x) > 0);
            assert(qs.contains(x));
            let j = choose|j: int| 0 <= j < qs.len() && qs[j] == x;
            assert(added_record(records2[n0 + j], added[j], parent, cost));
            assert(x.record_index == n0 + j);
        }
    }
}

/// Adding successors keeps the costs of records, explored levels and the
/// start.
proof fn lemma_costs_push(
    records: Seq<SearchRecord>,
    records2: Seq<SearchRecord>,
    explored: Seq<(Seq<BottleView>, nat)>,
    s: Seq<BottleView>,
    moves: Seq<(Move, Vec<Bottle>)>,
    filter: StateFilter,
    costs: Map<Seq<Seq<u16>>, usize>,
    cost: int,
    parent: usize,
    s0: Seq<BottleView>,
)
    requires
        0 <= cost < usize::MAX,
        records_costed(records, costs),
        explored_costed(explored, costs),
        costs.contains_key(state_key(s0)) && costs[state_key(s0)] == 0,
        ({
            let added = added_successors(s, moves, filter, costs, cost);
            &&& records2.len() == records.len() + added.0.len()
            &&& forall|i: int| 0 <= i < records.len() ==> #[trigger] records2[i] == records[i]
            &&& forall|j: int|
                0 <= j < added.0.len() ==> added_record(
                    #[trigger] records2[records.len() + j],
                    added.0[j],
                    parent,
                    cost,
                )
        }),
    ensures
        ({
            let c2 = added_successors(s, moves, filter, costs, cost).1;
            &&& records_costed(records2, c2)
            &&& explored_costed(explored, c2)
            &&& c2.contains_key(state_key(s0)) && c2[state_key(s0)] == 0
        }),
{
    reveal(keys_covered);
    reveal(successors_recorded);
    reveal(records_costed);
    reveal(explored_costed);
    reveal(entries_estimated);
    let added = added_successors(s, moves, filter, costs, cost);
    let c2 = added.1;
    let n0 = records.len() as int;
    lemma_added_successors_costs(s, moves, filter, costs, cost);
    assert forall|w: int| 0 <= w < records2.len() implies c2.contains_key(
        state_key(state_v((#[trigger] records2[w]).state@)),
    ) && c2[state_key(state_v(records2[w].state@))] <= records2[w].cost by {
        if w < n0 {
            assert(records2[w] == records[w]);
            assert(costs.contains_key(state_key(state_v(records[w].state@))));
        } else {
            let j = w - n0;
            assert(added_record(records2[n0 + j], added.0[j], parent, cost));
            assert(c2.contains_key(state_key(added.0[j].1)));
        }
    }
    assert forall|j: int| 0 <= j < explored.len() implies c2.contains_key(state_key((#[trigger] explored[j]).0))
        && c2[state_key(explored[j].0)] <= explored[j].1 by {
        assert(costs.contains_key(state_key(explored[j].0)));
    }
}

/// After the level explored last has its successors added, every explored
/// level's successors have costs of at most one move more.
proof fn lemma_successors_after_push(
    explored: Seq<(Seq<BottleView>, nat)>,
    cur: Seq<BottleView>,
    cost: int,
    unsorted: Seq<(Move, Vec<Bottle>)>,
    sorted: Seq<(Move, Vec<Bottle>)>,
    filter: StateFilter,
    costs: Map<Seq<Seq<u16>>, usize>,
)
    requires
        0 <= cost < usize::MAX,
        explored.len() > 0,
        explored.last() == (cur, cost as nat),
        successors_recorded(explored.drop_last(), costs, filter),
        unsorted.len() == candidates_upto(cur, (cur.len() * cur.len()) as int).len(),
        forall|k: int|
            0 <= k < unsorted.len() ==> {
                let (src, dst) = candidates_upto(cur, (cur.len() * cur.len()) as int)[k];
                state_v((#[trigger] unsorted[k]).1@) == apply_move(cur, src, dst)
            },
        sorted.to_multiset() == unsorted.to_multiset(),
    ensures
        successors_recorded(explored, added_successors(cur, sorted, filter, costs, cost).1, filter),
{
    reveal(keys_covered);
    reveal(successors_recorded);
    reveal(records_costed);
    reveal(explored_costed);
    reveal(entries_estimated);
    let c2 = added_successors(cur, sorted, filter, costs, cost).1;
    lemma_added_successors_costs(cur, sorted, filter, costs, cost);
    lemma_expanded_recorded(cur, unsorted, sorted, filter, costs, cost);
    let old = explored.drop_last();
    assert forall|i: int, a: int, b: int|
        0 <= i < explored.len() && #[trigger] candidate(explored[i].0, a, b) && filter_ok(
            filter,
            explored[i].0,
            step(explored[i].0, a, b),
        ) implies c2.contains_key(state_key(step(explored[i].0, a, b))) && c2[state_key(
            step(explored[i].0, a, b),
        )] <= explored[i].1 + 1 by {
        if i < explored.len() - 1 {
            assert(explored[i] == old[i]);
            assert(candidate(old[i].0, a, b));
            assert(costs.contains_key(state_key(step(explored[i].0, a, b))));
        } else {
            assert(explored[i] == (cur, cost as nat));
        }
    }
}

/// The search starts with the start level as its one record, queued at its
/// estimate, and only its key with a cost, of no move.
proof fn lemma_search_start(
    records: Seq<SearchRecord>,
    open: Seq<QueueEntry>,
    costs: Map<Seq<Seq<u16>>, usize>,
    s0: Seq<BottleView>,
    target: usize,
    f: StateFilter,
)
    requires
        records.len() == 1,
        state_v(records[0].state@) == s0,
        records[0].cost == 0,
        open.len() == 1,
        open[0].record_index == 0,
        open[0].estimated_total_cost == (if total_runs(s0) >= target {
            (total_runs(s0) - target) as nat
        } else {
            0
        }),
        costs == Map::<Seq<Seq<u16>>, usize>::empty().insert(state_key(s0), 0),
    ensures
        keys_covered(records, open, Seq::empty(), costs),
        records_costed(records, costs),
        entries_estimated(open, records, target),
        explored_costed(Seq::empty(), costs),
        successors_recorded(Seq::empty(), costs, f),
{
    reveal(keys_covered);
    reveal(successors_recorded);
    reveal(records_costed);
    reveal(explored_costed);
    reveal(entries_estimated);
    assert(queued(open, 0));
    assert(key_covered(records, open, Seq::empty(), costs, state_key(s0)));
}

/// From a level `x` alike to a level `z` whose key costs at most `k`, a
/// solution `ms` leaves some queued entry with an estimated total cost of at
/// most `k` plus its length: following `ms`, the first level not explored
/// in few enough moves is queued at its best cost, and the estimate never
/// exceeds the moves left.
proof fn lemma_find_open(
    records: Seq<SearchRecord>,
    open: Seq<QueueEntry>,
    explored: Seq<(Seq<BottleView>, nat)>,
    costs: Map<Seq<Seq<u16>>, usize>,
    s0: Seq<BottleView>,
    f: StateFilter,
    target: usize,
    x: Seq<BottleView>,
    z: Seq<BottleView>,
    ms: Seq<MoveView>,
    k: int,
)
    requires
        keys_covered(records, open, explored, costs),
        successors_recorded(explored, costs, f),
        explored_costed(explored, costs),
        entries_estimated(open, records, target),
        explored_ok(explored, s0, SearchGoal::AllSolved, f),
        tidy(s0),
        target == total_layers(s0) / FULL_BOTTLE_COUNT as nat,
        tidy(x),
        total_layers(x) == total_layers(s0),
        alike(x, z),
        costs.contains_key(state_key(z)),
        costs[state_key(z)] <= k,
        valid_path(x, ms, f),
        all_done(replay(x, ms)),
    ensures
        exists|i: int| 0 <= i < open.len() && (#[trigger] open[i]).estimated_total_cost <= k + ms.len(),
    decreases ms.len(),
{
    reveal(explored_ok);
    reveal(keys_covered);
    reveal(successors_recorded);
    reveal(records_costed);
    reveal(explored_costed);
    reveal(entries_estimated);
    let key = state_key(z);
    assert(key_covered(records, open, explored, costs, key));
    if exists|j: int| 0 <= j < explored.len() && state_key((#[trigger] explored[j]).0) == key && explored[j].1 == costs[key] {
        let j = choose|j: int|
            0 <= j < explored.len() && state_key((#[trigger] explored[j]).0) == key && explored[j].1 == costs[key];
        let w = explored[j].0;
        lemma_same_key_alike(z, w);
        lemma_alike_trans(x, z, w);
        let ms_w = choose|ms: Seq<MoveView>|
            valid_path(s0, ms, f) && replay(s0, ms) == (#[trigger] explored[j]).0 && ms.len() == explored[j].1;
        lemma_tidy_path(s0, ms_w, f);
        let (p, q) = choose|p: Seq<int>, q: Seq<int>| is_perm(p, q, x.len() as int) && alike_by(x, w, p);
        if ms.len() == 0 {
            lemma_goal_alike(x, w, p, q, SearchGoal::AllSolved, 0, 0);
            assert(!goal_met(SearchGoal::AllSolved, explored[j].0, explored[j].1));
        } else {
            let a = ms[0].0 as int;
            let b = ms[0].2 as int;
            let x1 = step(x, a, b);
            lemma_tidy_step(x, a, b);
            lemma_step_keeps_layers(x, a, b);
            if candidate(x, a, b) {
                lemma_move_alike(x, w, p, q, a, b);
                lemma_unlock_alike(apply_move(x, a, b), apply_move(w, p[a], p[b]), p, q);
                let w1 = step(w, p[a], p[b]);
                lemma_hidden_count_alike(x, w, p, q);
                lemma_hidden_count_alike(x1, w1, p, q);
                assert(filter_ok(f, explored[j].0, step(explored[j].0, p[a], p[b])));
                assert(candidate(explored[j].0, p[a], p[b]));
                assert(alike(x1, w1));
                lemma_find_open(records, open, explored, costs, s0, f, target, x1, w1, ms.drop_first(), k + 1);
            } else {
                lemma_left_out_move_alike(x, a, b);
                lemma_alike_trans(x1, x, w);
                assert(costs.contains_key(state_key(explored[j].0)));
                lemma_find_open(records, open, explored, costs, s0, f, target, x1, w, ms.drop_first(), k + 1);
            }
        }
    } else {
        let w = choose|w: int|
            0 <= w < records.len() && state_key(state_v((#[trigger] records[w]).state@)) == key
                && records[w].cost == costs[key] && queued(open, w);
        let i = choose|i: int| 0 <= i < open.len() && (#[trigger] open[i]).record_index == w;
        let sw = state_v(records[w].state@);
        lemma_same_key_alike(sw, z);
        let (p1, q1) = choose|p: Seq<int>, q: Seq<int>| is_perm(p, q, sw.len() as int) && alike_by(sw, z, p);
        lemma_runs_alike(sw, z, p1, q1);
        let (p2, q2) = choose|p: Seq<int>, q: Seq<int>| is_perm(p, q, x.len() as int) && alike_by(x, z, p);
        lemma_runs_alike(x, z, p2, q2);
        lemma_runs_bound_moves(x, ms, f);
        assert(open[i].estimated_total_cost == estimate_for(sw, records[w].cost as int, target));
    }
}

/// When the search takes a solved record from the queue, no solution is
/// shorter than the moves that reached it: the record's estimate is its
/// number of moves, and some queued entry's estimate is at most the length
/// of any solution, while the queue gives out a least estimate first.
proof fn lemma_fewest_moves(
    records: Seq<SearchRecord>,
    open: Seq<QueueEntry>,
    explored: Seq<(Seq<BottleView>, nat)>,
    costs: Map<Seq<Seq<u16>>, usize>,
    s0: Seq<BottleView>,
    f: StateFilter,
    target: usize,
    w: int,
)
    requires
        open.len() > 0,
        open[0].record_index == w,
        forall|x: int| 0 <= x < open.len() ==> open[0].estimated_total_cost <= (#[trigger] open[x]).estimated_total_cost,
        records_ok(records, s0, f),
        keys_covered(records, open, explored, costs),
        successors_recorded(explored, costs, f),
        explored_costed(explored, costs),
        entries_estimated(open, records, target),
        costs.contains_key(state_key(s0)),
        costs[state_key(s0)] == 0,
        explored_ok(explored, s0, SearchGoal::AllSolved, f),
        tidy(s0),
        target == total_layers(s0) / FULL_BOTTLE_COUNT as nat,
        all_done(state_v(records[w].state@)),
    ensures
        forall|ms: Seq<MoveView>|
            #![trigger replay(s0, ms)]
            valid_path(s0, ms, f) && all_done(replay(s0, ms)) ==> records[w].cost <= ms.len(),
{
    reveal(explored_ok);
    reveal(entries_estimated);
    let sw = state_v(records[w].state@);
    assert(open[0].record_index < records.len());
    lemma_record_reached(records, w, Seq::empty(), sw, s0, f);
    let ms_w = choose|ms2: Seq<MoveView>|
        valid_path(s0, ms2, f) && replay(s0, ms2) == sw && ms2.len() == records[w].cost + 0;
    lemma_tidy_path(s0, ms_w, f);
    lemma_path_keeps_layers(s0, ms_w, f);
    lemma_done_runs(sw);
    assert(open[0].estimated_total_cost == records[w].cost);
    lemma_same_key_alike(s0, s0);
    assert forall|ms: Seq<MoveView>| valid_path(s0, ms, f) && all_done(#[trigger] replay(s0, ms)) implies records[w].cost
        <= ms.len() by {
        lemma_find_open(records, open, explored, costs, s0, f, target, s0, s0, ms, 0);
        let i = choose|i: int| 0 <= i < open.len() && (#[trigger] open[i]).estimated_total_cost <= 0 + ms.len();
        assert(open[0].estimated_total_cost <= open[i].estimated_total_cost);
    }
}

/// Exploring record `w` adds its level, at its cost, to the explored levels.
proof fn lemma_explore(
    records: Seq<SearchRecord>,
    explored: Seq<(Seq<BottleView>, nat)>,
    costs: Map<Seq<Seq<u16>>, usize>,
    w: int,
    f: StateFilter,
)
    requires
        0 <= w < records.len(),
        records_costed(records, costs),
        explored_costed(explored, costs),
        successors_recorded(explored, costs, f),
    ensures
        ({
            let e2 = explored.push((state_v(records[w].state@), records[w].cost as nat));
            &&& explored_costed(e2, costs)
            &&& successors_recorded(e2.drop_last(), costs, f)
        }),
{
    reveal(successors_recorded);
    reveal(records_costed);
    reveal(explored_costed);
    let e2 = explored.push((state_v(records[w].state@), records[w].cost as nat));
    assert(e2.drop_last() =~= explored);
    assert(costs.contains_key(state_key(state_v(records[w].state@))));
    assert forall|j: int| 0 <= j < e2.len() implies costs.contains_key(state_key((#[trigger] e2[j]).0))
        && costs[state_key(e2[j].0)] <= e2[j].1 by {
        if j < explored.len() {
            assert(e2[j] == explored[j]);
        }
    }
}

/// With the queue empty, every key with a cost belongs to an explored level.
proof fn lemma_exhausted(
    records: Seq<SearchRecord>,
    explored: Seq<(Seq<BottleView>, nat)>,
    costs: Map<Seq<Seq<u16>>, usize>,
    s0: Seq<BottleView>,
    goal: SearchGoal,
    f: StateFilter,
)
    requires
        keys_covered(records, Seq::empty(), explored, costs),
        successors_recorded(explored, costs, f),
        costs.contains_key(state_key(s0)),
        explored_ok(explored, s0, goal, f),
    ensures
        search_exhausted(explored, s0, goal, f),
{
    reveal(explored_ok);
    reveal(keys_covered);
    reveal(successors_recorded);
    reveal(records_costed);
    reveal(explored_costed);
    reveal(entries_estimated);
    assert forall|k: Seq<Seq<u16>>| #[trigger] costs.contains_key(k) implies exists|j: int|
        0 <= j < explored.len() && state_key((#[trigger] explored[j]).0) == k by {
        assert(key_covered(records, Seq::empty(), explored, costs, k));
        assert(!queued(Seq::<QueueEntry>::empty(), 0));
        if !(exists|j: int|
            0 <= j < explored.len() && state_key((#[trigger] explored[j]).0) == k && explored[j].1 == costs[k]) {
            let w = choose|w: int|
                0 <= w < records.len() && state_key(state_v((#[trigger] records[w]).state@)) == k
                    && records[w].cost == costs[k] && queued(Seq::empty(), w);
        }
    }
    assert forall|i: int, a: int, b: int|
        0 <= i < explored.len() && #[trigger] candidate(explored[i].0, a, b) && filter_ok(
            f,
            explored[i].0,
            step(explored[i].0, a, b),
        ) implies exists|j: int|
            0 <= j < explored.len() && state_key((#[trigger] explored[j]).0) == state_key(
                step(explored[i].0, a, b),
            ) by {
        assert(costs.contains_key(state_key(step(explored[i].0, a, b))));
    }
}

/// Searches for a short sequence of moves from `bottles` to the goal. The
/// level first reveals the hidden bottles whose colour is solved; each move
/// is followed by the same reveal, and only states that the filter accepts
/// (against the state before them) are explored. States are explored best
/// first, by moves made plus an estimate of moves left; a state already
/// reached in as few moves is not explored again. `on_progress` sees each
/// explored state. When nothing is found, the levels explored cover every
/// move the generator offers from them; from a plain level, no allowed path
/// then reaches the goal, but for a path back to a level alike to the start
/// when the goal asks for a move. When every bottle is to be solved, the
/// estimate never exceeds the moves left, so from a plain level no allowed
/// path solves it in fewer moves than the sequence found.
#[verifier::rlimit(100)]
pub fn find_shortest_move_sequence<O: SearchObserver>(
    bottles: Vec<Bottle>,
    filter: StateFilter,
    goal: &SearchGoal,
    on_progress: &mut O,
) -> (r: Option<Vec<Move>>)
    requires
        level_fits(state_v(bottles@)),
    ensures
        !filter_ok(filter, state_v(bottles@), unlock_solved(state_v(bottles@))) ==> r is None,
        filter_ok(filter, state_v(bottles@), unlock_solved(state_v(bottles@))) && goal_met(
            *goal,
            unlock_solved(state_v(bottles@)),
            0,
        ) ==> (r matches Some(moves) && moves@.len() == 0),
        r matches Some(moves) ==> {
            let s0 = unlock_solved(state_v(bottles@));
            &&& filter_ok(filter, state_v(bottles@), s0)
            &&& valid_path(s0, moves_v(moves@), filter)
            &&& goal_met(*goal, replay(s0, moves_v(moves@)), moves@.len())
        },
        r is None && filter_ok(filter, state_v(bottles@), unlock_solved(state_v(bottles@))) ==> exists|
            explored: Seq<(Seq<BottleView>, nat)>,
        | search_exhausted(explored, unlock_solved(state_v(bottles@)), *goal, filter),
        O::keeps_reports() ==> exists|log: Seq<ProgressReport>|
            final(on_progress).reports() == old(on_progress).reports() + log && search_reported(
                log,
                if r is Some {
                    Some(r->0@.len())
                } else {
                    None
                },
            ),
        r matches Some(moves) ==> (*goal is AllSolved && plain_level(state_v(bottles@)) ==> forall|
            ms: Seq<MoveView>,
        |
            #![trigger replay(unlock_solved(state_v(bottles@)), ms)]
            valid_path(unlock_solved(state_v(bottles@)), ms, filter) && all_done(
                replay(unlock_solved(state_v(bottles@)), ms),
            ) ==> moves@.len() <= ms.len()),
        r is None && filter_ok(filter, state_v(bottles@), unlock_solved(state_v(bottles@))) && plain_level(
            state_v(bottles@),
        ) ==> forall|ms: Seq<MoveView>|
            #![trigger replay(unlock_solved(state_v(bottles@)), ms)]
            valid_path(unlock_solved(state_v(bottles@)), ms, filter) && goal_met(
                *goal,
                replay(unlock_solved(state_v(bottles@)), ms),
                ms.len(),
            ) ==> !(*goal is AllSolved) && alike(
                replay(unlock_solved(state_v(bottles@)), ms),
                unlock_solved(state_v(bottles@)),
            ),
{
    let ghost s_in = state_v(bottles@);
    let clone_before = copy_bottles(&bottles);
    let mut level = bottles;
    unlock_hidden_bottles_with_solved_colors(&mut level);
    if !filter_accepts(filter, &clone_before, &level) {
        proof {
            assert(old(on_progress).reports() + Seq::<ProgressReport>::empty() =~= old(on_progress).reports());
            assert(search_reported(Seq::<ProgressReport>::empty(), None));
        }
        return None;
    }
    let ghost s0 = state_v(level@);
    proof {
        lemma_unlock_keeps_layers(s_in);
    }
    let target = target_solved_bottle_count(&level);
    let mut open: Vec<QueueEntry> = Vec::new();
    let mut records: Vec<SearchRecord> = Vec::new();
    let mut best_costs = CostTable::new();
    let mut explored_states: usize = 0;
    let ghost mut log: Seq<ProgressReport> = Seq::empty();
    proof {
        assert(old(on_progress).reports() + log =~= old(on_progress).reports());
    }
    let initial_estimate = estimate_remaining_moves(&level, target);
    let initial_key = canonical_state_key(&level);
    let first_record = SearchRecord { state: level, cost: 0, parent: None, via_move: None };
    records.push(first_record);
    proof {
        assert(record_ok(records@, 0, s0, filter));
    }
    proof {
        assert(heap_ok(open@));
    }
    let first_entry = QueueEntry { estimated_total_cost: initial_estimate, cost: 0, record_index: 0 };
    heap_push(&mut open, first_entry, Ghost(1));
    proof {
        broadcast use vstd::seq_lib::group_to_multiset_ensures;
        broadcast use vstd::multiset::group_multiset_axioms;

        assert(open@.contains(open@[0]));
        assert(open@.to_multiset().count(open@[0]) > 0);
        assert(open@[0] == first_entry);
    }
    best_costs.set(initial_key, 0);
    let ghost mut first = true;
    let ghost mut explored: Seq<(Seq<BottleView>, nat)> = Seq::empty();
    proof {
        assert(best_costs.costs() =~= Map::<Seq<Seq<u16>>, usize>::empty().insert(state_key(s0), 0));
        assert(open@[0].record_index == 0);
        assert(open@[0].estimated_total_cost == initial_estimate);
        lemma_search_start(records@, open@, best_costs.costs(), s0, target, filter);
        assert(explored_ok(explored, s0, *goal, filter)) by {
            reveal(explored_ok);
        }
    }
    loop
        invariant
            s_in == state_v(bottles@),
            s0 == unlock_solved(s_in),
            filter_ok(filter, s_in, s0),
            records_ok(records@, s0, filter),
            records@.len() <= usize::MAX,
            entries_below(open@, records@.len() as int),
            heap_ok(open@),
            explored_states + open@.len() <= records@.len(),
            best_costs.wf(),
            first ==> records@.len() == 1 && open@.len() == 1 && open@[0].record_index == 0,
            !first ==> !goal_met(*goal, s0, 0),
            keys_covered(records@, open@, explored, best_costs.costs()),
            successors_recorded(explored, best_costs.costs(), filter),
            best_costs.costs().contains_key(state_key(s0)),
            best_costs.costs()[state_key(s0)] == 0,
            records_costed(records@, best_costs.costs()),
            explored_costed(explored, best_costs.costs()),
            target == total_layers(s0) / FULL_BOTTLE_COUNT as nat,
            entries_estimated(open@, records@, target),
            explored_ok(explored, s0, *goal, filter),
            O::keeps_reports() ==> on_progress.reports() == old(on_progress).reports() + log,
            log.len() == explored_states,
            search_reported(log, None),
        ensures
            !first,
            O::keeps_reports() ==> on_progress.reports() == old(on_progress).reports() + log,
            search_reported(log, None),
            search_exhausted(explored, s0, *goal, filter),
        decreases usize::MAX + open@.len() - records@.len(),
    {
        let ghost open_before = open@;
        let queue_entry = match heap_pop(&mut open, Ghost(records@.len() as int)) {
            Some(e) => e,
            None => {
                proof {
                    assert(open@ =~= Seq::<QueueEntry>::empty());
                    lemma_exhausted(records@, explored, best_costs.costs(), s0, *goal, filter);
                }
                break;
            },
        };
        let ghost open_popped = open@;
        proof {
            lemma_estimates_pop(open_before, open@, queue_entry, records@, target);
        }
        let record_index = queue_entry.record_index;
        proof {
            assert(record_ok(records@, record_index as int, s0, filter));
            if first {
                assert(record_index == 0);
                assert(record_ok(records@, 0, s0, filter));
            }
        }
        let record_cost = records[record_index].cost;
        let current_key = canonical_state_key(&records[record_index].state);
        match best_costs.get(&current_key) {
            Some(best_cost) => {
                if record_cost > best_cost {
                    proof {
                        lemma_pop_covered(
                            records@,
                            open_before,
                            open@,
                            queue_entry,
                            explored,
                            explored,
                            best_costs.costs(),
                            false,
                        );
                    }
                    continue;
                }
            },
            None => {},
        }
        explored_states = explored_states + 1;
        let goal_found = goal_reached(goal, &records[record_index].state, record_cost);
        on_progress.observe(
            SolverProgressSnapshot {
                state: records[record_index].state.as_slice(),
                explored_states,
                queue_len: open.len(),
                depth: record_cost,
                is_goal: goal_found,
            },
        );
        let ghost report = ProgressReport {
            explored_states,
            queue_len: open@.len() as usize,
            depth: record_cost,
            is_goal: goal_found,
        };
        proof {
            if O::keeps_reports() {
                assert(on_progress.reports() =~= old(on_progress).reports() + log.push(report));
            }
            log = log.push(report);
        }
        if goal_found {
            let moves = reconstruct_moves(&records, record_index, Ghost(s0), Ghost(filter));
            proof {
                if first {
                    assert(moves@.len() == 0);
                } else {
                    assert(!goal_met(*goal, s0, 0));
                }
                assert(s0 == unlock_solved(state_v(bottles@)));
                if *goal is AllSolved && plain_level(s_in) {
                    lemma_unlock_tidy(s_in);
                    lemma_fewest_moves(
                        records@,
                        open_before,
                        explored,
                        best_costs.costs(),
                        s0,
                        filter,
                        target,
                        record_index as int,
                    );
                }
            }
            return Some(moves);
        }
        let ghost cur = state_v(records@[record_index as int].state@);
        proof {
            first = false;
            let explored2 = explored.push((cur, record_cost as nat));
            lemma_explore(records@, explored, best_costs.costs(), record_index as int, filter);
            lemma_pop_covered(
                records@,
                open_before,
                open@,
                queue_entry,
                explored,
                explored2,
                best_costs.costs(),
                true,
            );
            if record_cost == 0 && record_index > 0 {
                let p = records@[record_index as int].parent->0 as int;
                assert(record_ok(records@, p, s0, filter));
            }
            lemma_record_reached(records@, record_index as int, Seq::empty(), cur, s0, filter);
            lemma_explore_ok(explored, cur, record_cost as nat, s0, *goal, filter);
            explored = explored2;
        }
        let ghost records_before = records@;
        let ghost costs_before = best_costs.costs();
        let ghost open_mid = open@;
        let mut possible_moves = generate_possible_moves(&records[record_index].state);
        proof {
            assert forall|k: int| 0 <= k < possible_moves@.len() implies level_fits(
                state_v((#[trigger] possible_moves@[k]).1@),
            ) by {
                assert(successor_ok(cur, possible_moves@[k]));
                lemma_move_keeps_capacity(cur, possible_moves@[k].0.src(), possible_moves@[k].0.dst());
            }
        }
        let ghost unsorted = possible_moves@;
        sort_moves_by_heuristic(&mut possible_moves);
        proof {
            assert forall|k: int| 0 <= k < possible_moves@.len() implies successor_ok(
                cur,
                #[trigger] possible_moves@[k],
            ) by {
                broadcast use vstd::seq_lib::group_to_multiset_ensures;

                let e = possible_moves@[k];
                assert(possible_moves@.contains(e));
                assert(possible_moves@.to_multiset().count(e) > 0);
                assert(unsorted.to_multiset().count(e) > 0);
                assert(unsorted.contains(e));
                let j = choose|j: int| 0 <= j < unsorted.len() && unsorted[j] == e;
                assert(successor_ok(cur, unsorted[j]));
            }
        }
        let ghost sorted = possible_moves@;
        push_successors(
            &mut records,
            &mut open,
            &mut best_costs,
            record_index,
            possible_moves,
            filter,
            target,
            Ghost(s0),
        );
        proof {
            lemma_push_covered(
                records_before,
                records@,
                open_mid,
                open@,
                explored,
                cur,
                sorted,
                filter,
                costs_before,
                record_cost as int,
                record_index,
                target,
            );
            lemma_successors_after_push(
                explored,
                cur,
                record_cost as int,
                unsorted,
                sorted,
                filter,
                costs_before,
            );
            lemma_costs_push(
                records_before,
                records@,
                explored,
                cur,
                sorted,
                filter,
                costs_before,
                record_cost as int,
                record_index,
                s0,
            );
            lemma_estimates_push(
                records_before,
                records@,
                open_mid,
                open@,
                added_successors(cur, sorted, filter, costs_before, record_cost as int).0,
                record_cost as int,
                record_index,
                target,
            );
        }
    }
    proof {
        if plain_level(s_in) {
            lemma_unlock_tidy(s_in);
            assert forall|ms: Seq<MoveView>|
                valid_path(s0, ms, filter) && goal_met(*goal, #[trigger] replay(s0, ms), ms.len()) implies !(*goal is AllSolved)
                    && alike(replay(s0, ms), s0) by {
                lemma_exhausted_search_complete(explored, s0, *goal, filter, ms);
            }
        }
    }
    None
}

/// A locked requirement stays locked; an unlocked one is locked again.
pub open spec fn relocked(h: HiddenRequirement) -> HiddenRequirement {
    match h {
        HiddenRequirement::Unlocked(c) => HiddenRequirement::Locked(c),
        h => h,
    }
}

/// The bottle the solver starts from: the colours revealed so far, with the
/// mystery marks and the click position of the bottle at the level's start,
/// and hidden again if it was hidden.
pub open spec fn solver_bottle(revealed: BottleView, initial: BottleView) -> BottleView {
    (
        layers_with_initial(colors_of(revealed.0), colors_of(initial.0)),
        relocked(revealed.1),
        initial.2,
    )
}

/// The level the solver starts from, bottle by bottle, over the bottles that
/// both states have.
pub open spec fn solver_start(revealed: Seq<Bottle>, initial: Seq<Bottle>) -> Seq<BottleView> {
    Seq::new(
        if revealed.len() <= initial.len() {
            revealed.len()
        } else {
            initial.len()
        },
        |i: int| solver_bottle(revealed[i]@, initial[i]@),
    )
}

/// Builds the level the solver starts from out of the most revealed state and
/// the state at the level's start.
pub fn build_solver_initial_bottle_state(
    max_revealed_bottles: &Vec<Bottle>,
    initial_bottles: &Vec<Bottle>,
) -> (r: Vec<Bottle>)
    ensures
        state_v(r@) == solver_start(max_revealed_bottles@, initial_bottles@),
{
    let n = if max_revealed_bottles.len() <= initial_bottles.len() {
        max_revealed_bottles.len()
    } else {
        initial_bottles.len()
    };
    let mut bottles: Vec<Bottle> = Vec::new();
    let mut i: usize = 0;
    while i < n
        invariant
            i <= n,
            n <= max_revealed_bottles@.len(),
            n <= initial_bottles@.len(),
            n == solver_start(max_revealed_bottles@, initial_bottles@).len(),
            bottles@.len() == i,
            forall|k: int|
                0 <= k < i ==> (#[trigger] bottles@[k])@ == solver_bottle(
                    max_revealed_bottles@[k]@,
                    initial_bottles@[k]@,
                ),
        decreases n - i,
    {
        let revealed = &max_revealed_bottles[i];
        let initial = &initial_bottles[i];
        let mut new_bottle = Bottle::from_fills_with_initial(
            revealed.get_fills(),
            initial.get_fills(),
            *initial.click_position(),
        );
        new_bottle.set_hidden_requirement(revealed.hidden_requirement_state());
        new_bottle.lock_hidden_requirement();
        bottles.push(new_bottle);
        i = i + 1;
    }
    proof {
        assert(state_v(bottles@) =~= solver_start(max_revealed_bottles@, initial_bottles@));
    }
    bottles
}

proof fn lemma_solver_start_fits(revealed: Seq<Bottle>, initial: Seq<Bottle>)
    requires
        level_fits(state_v(revealed)),
    ensures
        level_fits(solver_start(revealed, initial)),
{
    let t = solver_start(revealed, initial);
    assert forall|i: int| 0 <= i < t.len() implies v_count(#[trigger] t[i]) <= FULL_BOTTLE_COUNT by {
        assert(state_v(revealed)[i] == revealed[i]@);
    }
}

/// Solves the level built from the most revealed state and the state at the
/// level's start: a sequence of moves after which every bottle is solved, or
/// empty and not hidden. On a plain level it is a shortest such sequence,
/// and none is found only when none exists; on any level, none is found
/// only after the search has explored every level it can reach.
pub fn run_solver(max_revealed_bottle_state: &Vec<Bottle>, initial_state: &Vec<Bottle>) -> (r:
    Option<Vec<Move>>)
    requires
        level_fits(state_v(max_revealed_bottle_state@)),
    ensures
        ({
            let s0 = unlock_solved(solver_start(max_revealed_bottle_state@, initial_state@));
            &&& all_done(s0) ==> (r matches Some(moves) && moves@.len() == 0)
            &&& r matches Some(moves) ==> valid_path(s0, moves_v(moves@), StateFilter::Any)
                && all_done(replay(s0, moves_v(moves@)))
            &&& r is None && plain_level(solver_start(max_revealed_bottle_state@, initial_state@))
                ==> forall|ms: Seq<MoveView>|
                #![trigger replay(s0, ms)]
                valid_path(s0, ms, StateFilter::Any) ==> !all_done(replay(s0, ms))
            &&& r matches Some(moves) ==> (plain_level(solver_start(max_revealed_bottle_state@, initial_state@))
                ==> forall|ms: Seq<MoveView>|
                #![trigger replay(s0, ms)]
                valid_path(s0, ms, StateFilter::Any) && all_done(replay(s0, ms)) ==> moves@.len()
                    <= ms.len())
            &&& r is None ==> exists|explored: Seq<(Seq<BottleView>, nat)>|
                search_exhausted(explored, s0, SearchGoal::AllSolved, StateFilter::Any)
        }),
{
    let mut observer = NoProgress;
    run_solver_with_progress(max_revealed_bottle_state, initial_state, &mut observer)
}

/// As `run_solver`, reporting each explored state to `on_progress`: the
/// explored states are counted from one, and only the last report, when a
/// solution is found, is of a solved level, at the solution's length.
pub fn run_solver_with_progress<O: SearchObserver>(
    max_revealed_bottle_state: &Vec<Bottle>,
    initial_state: &Vec<Bottle>,
    on_progress: &mut O,
) -> (r: Option<Vec<Move>>)
    requires
        level_fits(state_v(max_revealed_bottle_state@)),
    ensures
        ({
            let s0 = unlock_solved(solver_start(max_revealed_bottle_state@, initial_state@));
            &&& all_done(s0) ==> (r matches Some(moves) && moves@.len() == 0)
            &&& r matches Some(moves) ==> valid_path(s0, moves_v(moves@), StateFilter::Any)
                && all_done(replay(s0, moves_v(moves@)))
            &&& r is None && plain_level(solver_start(max_revealed_bottle_state@, initial_state@))
                ==> forall|ms: Seq<MoveView>|
                #![trigger replay(s0, ms)]
                valid_path(s0, ms, StateFilter::Any) ==> !all_done(replay(s0, ms))
            &&& r matches Some(moves) ==> (plain_level(solver_start(max_revealed_bottle_state@, initial_state@))
                ==> forall|ms: Seq<MoveView>|
                #![trigger replay(s0, ms)]
                valid_path(s0, ms, StateFilter::Any) && all_done(replay(s0, ms)) ==> moves@.len()
                    <= ms.len())
            &&& r is None ==> exists|explored: Seq<(Seq<BottleView>, nat)>|
                search_exhausted(explored, s0, SearchGoal::AllSolved, StateFilter::Any)
        }),
        O::keeps_reports() ==> exists|log: Seq<ProgressReport>|
            final(on_progress).reports() == old(on_progress).reports() + log && search_reported(
                log,
                if r is Some {
                    Some(r->0@.len())
                } else {
                    None
                },
            ),
{
    let bottles = build_solver_initial_bottle_state(max_revealed_bottle_state, initial_state);
    proof {
        lemma_solver_start_fits(max_revealed_bottle_state@, initial_state@);
    }
    let goal = SearchGoal::AllSolved;
    let r = find_shortest_move_sequence(bottles, StateFilter::Any, &goal, on_progress);
    proof {
        let s0 = unlock_solved(solver_start(max_revealed_bottle_state@, initial_state@));
        if r is None && plain_level(solver_start(max_revealed_bottle_state@, initial_state@)) {
            assert forall|ms: Seq<MoveView>| valid_path(s0, ms, StateFilter::Any) implies !all_done(
                #[trigger] replay(s0, ms),
            ) by {
                if all_done(replay(s0, ms)) {
                    assert(goal_met(goal, replay(s0, ms), ms.len()));
                }
            }
        }
    }
    r
}

/// The views of a list of levels.
pub open spec fn states_v(states: Seq<Vec<Bottle>>) -> Seq<Seq<BottleView>> {
    states.map_values(|v: Vec<Bottle>| state_v(v@))
}

/// The moves the generator offers whose resulting level is not among `visited`.
pub open spec fn fresh_candidates(s: Seq<BottleView>, visited: Seq<Seq<BottleView>>) -> Seq<
    (int, int),
> {
    candidates_upto(s, (s.len() * s.len()) as int).filter(
        |p: (int, int)| !visited.contains(apply_move(s, p.0, p.1)),
    )
}

/// Whether two levels hold the same bottles in the same order.
pub fn same_state(a: &Vec<Bottle>, b: &Vec<Bottle>) -> (r: bool)
    ensures
        r == (state_v(a@) == state_v(b@)),
{
    if a.len() != b.len() {
        proof {
            assert(state_v(a@).len() != state_v(b@).len());
        }
        return false;
    }
    let mut i: usize = 0;
    while i < a.len()
        invariant
            i <= a.len(),
            a.len() == b.len(),
            forall|k: int| 0 <= k < i ==> a@[k]@ == b@[k]@,
        decreases a.len() - i,
    {
        if !a[i].same_as(&b[i]) {
            proof {
                assert(state_v(a@)[i as int] != state_v(b@)[i as int]);
            }
            return false;
        }
        i = i + 1;
    }
    proof {
        assert(state_v(a@) =~= state_v(b@));
    }
    true
}

fn contains_state(states: &Vec<Vec<Bottle>>, s: &Vec<Bottle>) -> (r: bool)
    ensures
        r == states_v(states@).contains(state_v(s@)),
{
    let mut i: usize = 0;
    while i < states.len()
        invariant
            i <= states.len(),
            forall|k: int| 0 <= k < i ==> state_v(states@[k]@) != state_v(s@),
        decreases states.len() - i,
    {
        if same_state(&states[i], s) {
            proof {
                assert(states_v(states@)[i as int] == state_v(s@));
            }
            return true;
        }
        i = i + 1;
    }
    proof {
        if states_v(states@).contains(state_v(s@)) {
            let k = choose|k: int|
                0 <= k < states_v(states@).len() && states_v(states@)[k] == state_v(s@);
            assert(state_v(states@[k]@) == state_v(s@));
        }
    }
    false
}

/// The moves the level offers, as `generate_possible_moves` lists them, except
/// those whose resulting level was visited.
pub fn get_possible_moves(bottles: &Vec<Bottle>, visited_states: &Vec<Vec<Bottle>>) -> (r: Vec<
    (Move, Vec<Bottle>),
>)
    requires
        capacity_ok(state_v(bottles@)),
    ensures
        r@.len() == fresh_candidates(state_v(bottles@), states_v(visited_states@)).len(),
        forall|k: int|
            0 <= k < r@.len() ==> {
                let (src, dst) = fresh_candidates(state_v(bottles@), states_v(visited_states@))[k];
                let s = state_v(bottles@);
                &&& (#[trigger] r@[k]).0@ == (src as usize, s[src].2, dst as usize, s[dst].2)
                &&& state_v(r@[k].1@) == apply_move(s, src, dst)
            },
{
    let ghost s = state_v(bottles@);
    let ghost vis = states_v(visited_states@);
    let ghost cands = candidates_upto(s, (s.len() * s.len()) as int);
    let ghost pred = |p: (int, int)| !vis.contains(apply_move(s, p.0, p.1));
    let mut all = generate_possible_moves(bottles);
    proof {
        assert(bottles@.len() * bottles@.len() == s.len() * s.len());
    }
    let ghost orig = all@;
    assert(orig.len() == all.len());
    let mut out: Vec<(Move, Vec<Bottle>)> = Vec::new();
    let mut k: usize = 0;
    proof {
        assert(cands.take(0) =~= Seq::<(int, int)>::empty());
        reveal(Seq::filter);
        assert(cands.take(0).filter(pred) =~= Seq::<(int, int)>::empty());
    }
    while all.len() > 0
        invariant
            k + all@.len() == orig.len(),
            orig.len() <= usize::MAX,
            orig.len() == cands.len(),
            all@ == orig.subrange(k as int, orig.len() as int),
            pred == (|p: (int, int)| !vis.contains(apply_move(s, p.0, p.1))),
            vis == states_v(visited_states@),
            forall|j: int|
                0 <= j < orig.len() ==> {
                    let (src, dst) = cands[j];
                    &&& (#[trigger] orig[j]).0@ == (src as usize, s[src].2, dst as usize, s[dst].2)
                    &&& state_v(orig[j].1@) == apply_move(s, src, dst)
                },
            out@.len() == cands.take(k as int).filter(pred).len(),
            forall|j: int|
                0 <= j < out@.len() ==> {
                    let (src, dst) = cands.take(k as int).filter(pred)[j];
                    &&& (#[trigger] out@[j]).0@ == (src as usize, s[src].2, dst as usize, s[dst].2)
                    &&& state_v(out@[j].1@) == apply_move(s, src, dst)
                },
        decreases all@.len(),
    {
        let item = all.remove(0);
        proof {
            assert(item == orig[k as int]);
            assert(all@ =~= orig.subrange(k + 1, orig.len() as int));
            assert(cands.take(k + 1) =~= cands.take(k as int).push(cands[k as int]));
            cands.take(k as int).lemma_filter_push(cands[k as int], pred);
        }
        if !contains_state(visited_states, &item.1) {
            proof {
                assert(pred(cands[k as int]));
            }
            out.push(item);
        } else {
            proof {
                assert(!pred(cands[k as int]));
            }
        }
        k = k + 1;
    }
    proof {
        assert(cands.take(k as int) =~= cands);
    }
    out
}

/// Playing a valid sequence of moves keeps the level within its limits and
/// changes neither the number of bottles, nor the number of layers, nor their
/// colours.
pub proof fn lemma_path_conserves_level(s: Seq<BottleView>, moves: Seq<MoveView>, f: StateFilter)
    requires
        level_fits(s),
        valid_path(s, moves, f),
    ensures
        level_fits(replay(s, moves)),
        replay(s, moves).len() == s.len(),
        level_layers(replay(s, moves)) == level_layers(s),
        level_colors(replay(s, moves)) == level_colors(s),
    decreases moves.len(),
{
    if moves.len() > 0 {
        let src = moves[0].0 as int;
        let dst = moves[0].2 as int;
        lemma_move_keeps_capacity(s, src, dst);
        lemma_move_conserves_colors(s, src, dst);
        lemma_unlock_keeps_layers(apply_move(s, src, dst));
        lemma_unlock_conserves_colors(apply_move(s, src, dst));
        lemma_path_conserves_level(step(s, src, dst), moves.drop_first(), f);
    }
}

} // verus!
