//! Moves of the classic game and the depth-first searches over them: for a
//! solution, and for a move that brings a mystery layer to the top.
use vstd::prelude::*;

use crate::classic::bottle::{
    can_fill, lemma_top_amount_bounds, solved, top_amount, Bottle, BottleColor, FULL_BOTTLE_COUNT,
};
use crate::classic::layout::{click_fits, click_of, get_bottle_position, BottleLayout};
use crate::classic::reach::{
    explored_from, lemma_all_done_arranged, lemma_arranges_refl, lemma_explored_extend,
    lemma_no_escape, lemma_stays_from_candidates, passes_seen,
};
use crate::position::Pos;

verus! {

/// A level by the layers of its bottles.
pub type Level = Seq<Seq<BottleColor>>;

pub open spec fn fills_v(s: Seq<Bottle>) -> Level {
    s.map_values(|b: Bottle| b.fills@)
}

pub open spec fn levels_v(states: Seq<Vec<Bottle>>) -> Seq<Level> {
    states.map_values(|v: Vec<Bottle>| fills_v(v@))
}

/// No bottle holds more layers than fit.
pub open spec fn capacity_ok(s: Level) -> bool {
    forall|i: int| 0 <= i < s.len() ==> (#[trigger] s[i]).len() <= FULL_BOTTLE_COUNT
}

/// Pouring from bottle `src` into bottle `dst` is allowed.
pub open spec fn move_ok(s: Level, src: int, dst: int) -> bool {
    &&& src != dst
    &&& 0 <= src < s.len()
    &&& 0 <= dst < s.len()
    &&& can_fill(s[dst], s[src])
}

/// The level after pouring the top run of `src` into `dst`.
pub open spec fn poured(s: Level, src: int, dst: int) -> Level {
    let amount = top_amount(s[src]);
    s.update(dst, s[dst] + Seq::new(amount, |i: int| s[src].last())).update(
        src,
        s[src].subrange(0, s[src].len() - amount),
    )
}

/// A bottle whose layers all have one colour.
pub open spec fn one_color(f: Seq<BottleColor>) -> bool {
    f.len() > 0 && forall|i: int| 0 <= i < f.len() ==> #[trigger] f[i] == f[0]
}

/// A move the generator offers: an allowed move from a bottle that is neither
/// solved nor empty into one that is not solved, except one that empties a
/// single-coloured bottle into an empty one, and except one whose resulting
/// level was visited.
pub open spec fn candidate(s: Level, visited: Seq<Level>, src: int, dst: int) -> bool {
    &&& src != dst
    &&& !solved(s[src])
    &&& s[src].len() != 0
    &&& !solved(s[dst])
    &&& !(one_color(s[src]) && s[dst].len() == 0)
    &&& move_ok(s, src, dst)
    &&& !visited.contains(poured(s, src, dst))
}

/// The moves the generator offers among the first `k` pairs of bottles, in
/// the order source-major, destination-minor.
pub open spec fn candidates_upto(s: Level, visited: Seq<Level>, k: int) -> Seq<(int, int)>
    decreases k,
{
    if k <= 0 || s.len() == 0 {
        Seq::empty()
    } else {
        let src = (k - 1) / (s.len() as int);
        let dst = (k - 1) % (s.len() as int);
        candidates_upto(s, visited, k - 1) + if candidate(s, visited, src, dst) {
            seq![(src, dst)]
        } else {
            Seq::empty()
        }
    }
}

pub open spec fn all_candidates(s: Level, visited: Seq<Level>) -> Seq<(int, int)> {
    candidates_upto(s, visited, (s.len() * s.len()) as int)
}

/// Every bottle is solved or empty.
pub open spec fn all_done(s: Level) -> bool {
    forall|i: int| 0 <= i < s.len() ==> solved(#[trigger] s[i]) || s[i].len() == 0
}

/// A mystery layer lies on top of some bottle.
pub open spec fn mystery_on_top(s: Level) -> bool {
    exists|i: int| 0 <= i < s.len() && (#[trigger] s[i]).len() > 0 && s[i].last() == BottleColor::Mystery
}

/// A move: pour from the bottle at the first index into the bottle at the second.
#[derive(Debug, Clone, Copy)]
pub struct Move(usize, usize);

impl View for Move {
    type V = (usize, usize);

    closed spec fn view(&self) -> (usize, usize) {
        (self.0, self.1)
    }
}

pub open spec fn moves_v(moves: Seq<Move>) -> Seq<(usize, usize)> {
    moves.map_values(|m: Move| m@)
}

/// The level after playing the moves in order.
pub open spec fn replay(s: Level, moves: Seq<(usize, usize)>) -> Level
    decreases moves.len(),
{
    if moves.len() == 0 {
        s
    } else {
        replay(poured(s, moves[0].0 as int, moves[0].1 as int), moves.drop_first())
    }
}

/// Every move of the sequence is allowed where it is played.
pub open spec fn valid_path(s: Level, moves: Seq<(usize, usize)>) -> bool
    decreases moves.len(),
{
    if moves.len() == 0 {
        true
    } else {
        &&& move_ok(s, moves[0].0 as int, moves[0].1 as int)
        &&& valid_path(poured(s, moves[0].0 as int, moves[0].1 as int), moves.drop_first())
    }
}

pub proof fn lemma_poured_keeps_capacity(s: Level, src: int, dst: int)
    requires
        capacity_ok(s),
        move_ok(s, src, dst),
    ensures
        capacity_ok(poured(s, src, dst)),
        poured(s, src, dst).len() == s.len(),
{
    lemma_top_amount_bounds(s[src]);
    let t = poured(s, src, dst);
    assert forall|i: int| 0 <= i < t.len() implies (#[trigger] t[i]).len() <= FULL_BOTTLE_COUNT by {
        if i != src && i != dst {
            assert(t[i] == s[i]);
        }
    }
}

impl Move {
    pub fn new(source_index: usize, destination_index: usize) -> (r: Self)
        ensures
            r@ == (source_index, destination_index),
    {
        Move(source_index, destination_index)
    }

    pub fn source_index(&self) -> (r: usize)
        ensures
            r == self@.0,
    {
        self.0
    }

    pub fn destination_index(&self) -> (r: usize)
        ensures
            r == self@.1,
    {
        self.1
    }

    /// The positions to click on the device for this move: the source bottle,
    /// then the destination bottle.
    pub fn device_click_positions(&self, layout: &BottleLayout) -> (r: (Pos, Pos))
        requires
            self@.0 < layout.positions@.len(),
            self@.1 < layout.positions@.len(),
            click_fits(layout.positions@[self@.0 as int]),
            click_fits(layout.positions@[self@.1 as int]),
        ensures
            click_of(layout.positions@[self@.0 as int]) == (r.0.0 as int, r.0.1 as int),
            click_of(layout.positions@[self@.1 as int]) == (r.1.0 as int, r.1.1 as int),
    {
        (get_bottle_position(layout, self.0), get_bottle_position(layout, self.1))
    }

    /// Plays the move on the level.
    pub fn perform_move_on_bottles(&self, bottles: &mut Vec<Bottle>)
        requires
            move_ok(fills_v(old(bottles)@), self@.0 as int, self@.1 as int),
            old(bottles)@[self@.1 as int].fills@.len() + top_amount(
                old(bottles)@[self@.0 as int].fills@,
            ) <= FULL_BOTTLE_COUNT,
        ensures
            fills_v(final(bottles)@) == poured(fills_v(old(bottles)@), self@.0 as int, self@.1 as int),
    {
        let mut source = bottles[self.0].duplicate();
        let mut destination = bottles[self.1].duplicate();
        destination.fill_from(&mut source);
        bottles.set(self.1, destination);
        bottles.set(self.0, source);
        proof {
            assert(fills_v(bottles@) =~= poured(
                fills_v(old(bottles)@),
                self@.0 as int,
                self@.1 as int,
            ));
        }
    }
}

/// Copies a level.
pub fn copy_level(bottles: &Vec<Bottle>) -> (r: Vec<Bottle>)
    ensures
        fills_v(r@) == fills_v(bottles@),
{
    let mut out: Vec<Bottle> = Vec::new();
    let mut i: usize = 0;
    while i < bottles.len()
        invariant
            i <= bottles@.len(),
            out@.len() == i,
            forall|k: int| 0 <= k < i ==> (#[trigger] out@[k]).fills@ == bottles@[k].fills@,
        decreases bottles@.len() - i,
    {
        out.push(bottles[i].duplicate());
        i = i + 1;
    }
    proof {
        assert(fills_v(out@) =~= fills_v(bottles@));
    }
    out
}

fn same_fills(a: &Vec<BottleColor>, b: &Vec<BottleColor>) -> (r: bool)
    ensures
        r == (a@ == b@),
{
    if a.len() != b.len() {
        return false;
    }
    let mut i: usize = 0;
    while i < a.len()
        invariant
            i <= a@.len(),
            a@.len() == b@.len(),
            forall|k: int| 0 <= k < i ==> a@[k] == b@[k],
        decreases a@.len() - i,
    {
        if a[i] != b[i] {
            return false;
        }
        i = i + 1;
    }
    proof {
        assert(a@ =~= b@);
    }
    true
}

/// Whether two levels hold the same layers, bottle by bottle.
pub fn same_level(a: &Vec<Bottle>, b: &Vec<Bottle>) -> (r: bool)
    ensures
        r == (fills_v(a@) == fills_v(b@)),
{
    if a.len() != b.len() {
        proof {
            assert(fills_v(a@).len() != fills_v(b@).len());
        }
        return false;
    }
    let mut i: usize = 0;
    while i < a.len()
        invariant
            i <= a@.len(),
            a@.len() == b@.len(),
            forall|k: int| 0 <= k < i ==> a@[k].fills@ == b@[k].fills@,
        decreases a@.len() - i,
    {
        if !same_fills(&a[i].fills, &b[i].fills) {
            proof {
                assert(fills_v(a@)[i as int] != fills_v(b@)[i as int]);
            }
            return false;
        }
        i = i + 1;
    }
    proof {
        assert(fills_v(a@) =~= fills_v(b@));
    }
    true
}

/// Whether the level is among `states`.
pub fn contains_level(states: &Vec<Vec<Bottle>>, s: &Vec<Bottle>) -> (r: bool)
    ensures
        r == levels_v(states@).contains(fills_v(s@)),
{
    let mut i: usize = 0;
    while i < states.len()
        invariant
            i <= states@.len(),
            forall|k: int| 0 <= k < i ==> fills_v(states@[k]@) != fills_v(s@),
        decreases states@.len() - i,
    {
        if same_level(&states[i], s) {
            proof {
                assert(levels_v(states@)[i as int] == fills_v(s@));
            }
            return true;
        }
        i = i + 1;
    }
    proof {
        if levels_v(states@).contains(fills_v(s@)) {
            let k = choose|k: int|
                0 <= k < levels_v(states@).len() && levels_v(states@)[k] == fills_v(s@);
            assert(fills_v(states@[k]@) == fills_v(s@));
        }
    }
    false
}

fn is_one_color(b: &Bottle) -> (r: bool)
    ensures
        r == one_color(b.fills@),
{
    if b.fills.len() == 0 {
        return false;
    }
    let first = b.fills[0];
    let mut i: usize = 0;
    while i < b.fills.len()
        invariant
            i <= b.fills@.len(),
            first == b.fills@[0],
            forall|k: int| 0 <= k < i ==> #[trigger] b.fills@[k] == first,
        decreases b.fills@.len() - i,
    {
        if b.fills[i] != first {
            return false;
        }
        i = i + 1;
    }
    true
}

proof fn lemma_div_mod_step(k: int, n: int, src: int, dst: int)
    requires
        n > 0,
        0 <= dst < n,
        0 <= src,
        k == src * n + dst + 1,
    ensures
        (k - 1) / n == src,
        (k - 1) % n == dst,
{
    vstd::arithmetic::div_mod::lemma_fundamental_div_mod_converse(k - 1, n, src, dst);
}

/// The moves the level offers whose resulting level was not visited, each
/// with the level it leads to, in the order source-major, destination-minor.
/// Moves are left out from a solved or empty bottle, into a solved bottle, and
/// from a single-coloured bottle into an empty one.
pub fn get_possible_moves(bottles: &Vec<Bottle>, visited_states: &Vec<Vec<Bottle>>) -> (r: Vec<
    (Move, Vec<Bottle>),
>)
    requires
        capacity_ok(fills_v(bottles@)),
    ensures
        r@.len() == all_candidates(fills_v(bottles@), levels_v(visited_states@)).len(),
        forall|k: int|
            0 <= k < r@.len() ==> {
                let (src, dst) = all_candidates(fills_v(bottles@), levels_v(visited_states@))[k];
                &&& (#[trigger] r@[k]).0@ == (src as usize, dst as usize)
                &&& move_ok(fills_v(bottles@), src, dst)
                &&& fills_v(r@[k].1@) == poured(fills_v(bottles@), src, dst)
            },
{
    let ghost s = fills_v(bottles@);
    let ghost vis = levels_v(visited_states@);
    let n = bottles.len();
    let mut possible_moves: Vec<(Move, Vec<Bottle>)> = Vec::new();
    let mut source_idx: usize = 0;
    while source_idx < n
        invariant
            n == bottles@.len(),
            s == fills_v(bottles@),
            vis == levels_v(visited_states@),
            capacity_ok(s),
            source_idx <= n,
            possible_moves@.len() == candidates_upto(s, vis, source_idx * n).len(),
            forall|k: int|
                0 <= k < possible_moves@.len() ==> {
                    let (src, dst) = candidates_upto(s, vis, source_idx * n)[k];
                    &&& (#[trigger] possible_moves@[k]).0@ == (src as usize, dst as usize)
                    &&& move_ok(s, src, dst)
                    &&& fills_v(possible_moves@[k].1@) == poured(s, src, dst)
                },
        decreases n - source_idx,
    {
        let mut destination_idx: usize = 0;
        while destination_idx < n
            invariant
                n == bottles@.len(),
                s == fills_v(bottles@),
                vis == levels_v(visited_states@),
                capacity_ok(s),
                source_idx < n,
                destination_idx <= n,
                possible_moves@.len() == candidates_upto(s, vis, source_idx * n + destination_idx).len(),
                forall|k: int|
                    0 <= k < possible_moves@.len() ==> {
                        let (src, dst) = candidates_upto(s, vis, source_idx * n + destination_idx)[k];
                        &&& (#[trigger] possible_moves@[k]).0@ == (src as usize, dst as usize)
                        &&& move_ok(s, src, dst)
                        &&& fills_v(possible_moves@[k].1@) == poured(s, src, dst)
                    },
            decreases n - destination_idx,
        {
            let ghost kk: int = source_idx * n + destination_idx + 1;
            let ghost prev = candidates_upto(s, vis, kk - 1);
            proof {
                lemma_div_mod_step(kk, n as int, source_idx as int, destination_idx as int);
                assert(s[source_idx as int] == bottles@[source_idx as int].fills@);
                assert(s[destination_idx as int] == bottles@[destination_idx as int].fills@);
            }
            let mut chosen = false;
            if source_idx != destination_idx {
                let source_bottle = &bottles[source_idx];
                let destination_bottle = &bottles[destination_idx];
                if !(source_bottle.is_solved() || source_bottle.is_empty()
                    || destination_bottle.is_solved()) && !(is_one_color(source_bottle)
                    && destination_bottle.is_empty()) && destination_bottle.can_fill_from(
                    source_bottle,
                ) {
                    let mut new_bottles = copy_level(bottles);
                    let move_to_try = Move(source_idx, destination_idx);
                    proof {
                        lemma_top_amount_bounds(s[source_idx as int]);
                    }
                    move_to_try.perform_move_on_bottles(&mut new_bottles);
                    if !contains_level(visited_states, &new_bottles) {
                        proof {
                            assert(candidate(s, vis, source_idx as int, destination_idx as int));
                        }
                        possible_moves.push((move_to_try, new_bottles));
                        chosen = true;
                    }
                }
            }
            proof {
                assert(chosen == candidate(s, vis, source_idx as int, destination_idx as int));
                assert(candidates_upto(s, vis, kk) == prev + if candidate(
                    s,
                    vis,
                    source_idx as int,
                    destination_idx as int,
                ) {
                    seq![(source_idx as int, destination_idx as int)]
                } else {
                    Seq::empty()
                });
            }
            destination_idx = destination_idx + 1;
        }
        proof {
            assert(source_idx * n + n == (source_idx + 1) * n) by (nonlinear_arith);
        }
        source_idx = source_idx + 1;
    }
    possible_moves
}

/// What a generated move satisfies: it is allowed in `s` and its level is the
/// one it leads to.
pub open spec fn entry_ok(s: Level, e: (Move, Vec<Bottle>)) -> bool {
    &&& move_ok(s, e.0@.0 as int, e.0@.1 as int)
    &&& fills_v(e.1@) == poured(s, e.0@.0 as int, e.0@.1 as int)
}

pub(crate) proof fn lemma_entries_ok(s: Level, visited: Seq<Level>, r: Seq<(Move, Vec<Bottle>)>)
    requires
        s.len() <= usize::MAX,
        r.len() == all_candidates(s, visited).len(),
        forall|k: int|
            0 <= k < r.len() ==> {
                let (src, dst) = all_candidates(s, visited)[k];
                &&& (#[trigger] r[k]).0@ == (src as usize, dst as usize)
                &&& move_ok(s, src, dst)
                &&& fills_v(r[k].1@) == poured(s, src, dst)
            },
    ensures
        forall|k: int| 0 <= k < r.len() ==> entry_ok(s, #[trigger] r[k]),
{
    assert forall|k: int| 0 <= k < r.len() implies entry_ok(s, #[trigger] r[k]) by {
        let (src, dst) = all_candidates(s, visited)[k];
        assert(r[k].0@ == (src as usize, dst as usize));
        assert(move_ok(s, src, dst));
    }
}

pub(crate) fn copy_moves(v: &Vec<Move>) -> (r: Vec<Move>)
    ensures
        r@ == v@,
{
    let mut out: Vec<Move> = Vec::new();
    let mut i: usize = 0;
    while i < v.len()
        invariant
            i <= v@.len(),
            out@ == v@.subrange(0, i as int),
        decreases v@.len() - i,
    {
        out.push(v[i]);
        proof {
            assert(out@ =~= v@.subrange(0, i + 1));
        }
        i = i + 1;
    }
    proof {
        assert(out@ =~= v@);
    }
    out
}

pub(crate) fn has_mystery_on_top(bottles: &Vec<Bottle>) -> (r: bool)
    ensures
        r == mystery_on_top(fills_v(bottles@)),
{
    let ghost s = fills_v(bottles@);
    let mut i: usize = 0;
    while i < bottles.len()
        invariant
            i <= bottles@.len(),
            s == fills_v(bottles@),
            forall|k: int|
                0 <= k < i ==> !((#[trigger] s[k]).len() > 0 && s[k].last() == BottleColor::Mystery),
        decreases bottles@.len() - i,
    {
        proof {
            assert(s[i as int] == bottles@[i as int].fills@);
        }
        match bottles[i].get_top_fill() {
            Some((_, top_color)) => {
                if top_color == BottleColor::Mystery {
                    proof {
                        let ii = i as int;
                        assert(s[ii].len() > 0 && s[ii].last() == BottleColor::Mystery);
                    }
                    return true;
                }
            },
            None => {},
        }
        i = i + 1;
    }
    false
}

/// The moves after `prefix` extend it by a sequence that is allowed from `s`
/// and ends where `goal` holds.
pub open spec fn extends_to(
    moves: Seq<Move>,
    prefix: Seq<Move>,
    s: Level,
    goal_mystery: bool,
    min_len: nat,
) -> bool {
    let rest = moves_v(moves.subrange(prefix.len() as int, moves.len() as int));
    &&& moves.len() >= prefix.len() + min_len
    &&& moves.subrange(0, prefix.len() as int) == prefix
    &&& valid_path(s, rest)
    &&& if goal_mystery {
        mystery_on_top(replay(s, rest))
    } else {
        all_done(replay(s, rest))
    }
}

pub(crate) proof fn lemma_extend_step(
    result: Seq<Move>,
    prefix: Seq<Move>,
    m: Move,
    s: Level,
    goal_mystery: bool,
    min_len: nat,
)
    requires
        move_ok(s, m@.0 as int, m@.1 as int),
        extends_to(result, prefix.push(m), poured(s, m@.0 as int, m@.1 as int), goal_mystery, 0),
    ensures
        extends_to(result, prefix, s, goal_mystery, 1),
{
    let p1 = prefix.push(m);
    let rest1 = moves_v(result.subrange(p1.len() as int, result.len() as int));
    let rest = moves_v(result.subrange(prefix.len() as int, result.len() as int));
    assert(result.subrange(0, p1.len() as int) == p1);
    assert(result[prefix.len() as int] == p1[prefix.len() as int]);
    assert(rest[0] == m@);
    assert(rest.drop_first() =~= rest1);
    assert(result.subrange(0, prefix.len() as int) =~= p1.subrange(0, prefix.len() as int));
    assert(p1.subrange(0, prefix.len() as int) =~= prefix);
}

/// The seen levels stay, in their order, at the front.
pub open spec fn grows(before: Seq<Vec<Bottle>>, after: Seq<Vec<Bottle>>) -> bool {
    after.len() >= before.len() && levels_v(after).subrange(0, before.len() as int) == levels_v(before)
}

pub proof fn lemma_grows_trans(a: Seq<Vec<Bottle>>, b: Seq<Vec<Bottle>>, c: Seq<Vec<Bottle>>)
    requires
        grows(a, b),
        grows(b, c),
    ensures
        grows(a, c),
{
    assert(levels_v(c).subrange(0, a.len() as int) =~= levels_v(c).subrange(0, b.len() as int).subrange(
        0,
        a.len() as int,
    ));
}

pub(crate) fn all_solved_or_empty(bottles: &Vec<Bottle>) -> (r: bool)
    ensures
        r == all_done(fills_v(bottles@)),
{
    let ghost s = fills_v(bottles@);
    let mut i: usize = 0;
    while i < bottles.len()
        invariant
            i <= bottles@.len(),
            s == fills_v(bottles@),
            forall|k: int| 0 <= k < i ==> solved(#[trigger] s[k]) || s[k].len() == 0,
        decreases bottles@.len() - i,
    {
        proof {
            assert(s[i as int] == bottles@[i as int].fills@);
        }
        if !(bottles[i].is_solved() || bottles[i].is_empty()) {
            proof {
                let ii = i as int;
                assert(!(solved(s[ii]) || s[ii].len() == 0));
            }
            return false;
        }
        i = i + 1;
    }
    true
}

/// The number of solved bottles.
pub open spec fn solved_count(s: Level) -> nat
    decreases s.len(),
{
    if s.len() == 0 {
        0
    } else {
        solved_count(s.drop_last()) + if solved(s.last()) {
            1nat
        } else {
            0nat
        }
    }
}

/// The number of bottles that hold a layer.
pub open spec fn non_empty_count(s: Level) -> nat
    decreases s.len(),
{
    if s.len() == 0 {
        0
    } else {
        non_empty_count(s.drop_last()) + if s.last().len() > 0 {
            1nat
        } else {
            0nat
        }
    }
}

/// `a` ranks before or with `b`: more solved bottles, then fewer bottles
/// holding a layer.
pub open spec fn ranks_before_or_with(a: Level, b: Level) -> bool {
    solved_count(a) > solved_count(b) || (solved_count(a) == solved_count(b) && non_empty_count(
        a,
    ) <= non_empty_count(b))
}

fn ranking(bottles: &Vec<Bottle>) -> (r: (usize, usize))
    ensures
        r.0 == solved_count(fills_v(bottles@)),
        r.1 == non_empty_count(fills_v(bottles@)),
{
    let ghost s = fills_v(bottles@);
    let mut solved_n: usize = 0;
    let mut non_empty: usize = 0;
    let mut i: usize = 0;
    while i < bottles.len()
        invariant
            i <= bottles@.len(),
            s == fills_v(bottles@),
            solved_n == solved_count(s.subrange(0, i as int)),
            non_empty == non_empty_count(s.subrange(0, i as int)),
            solved_n <= i,
            non_empty <= i,
        decreases bottles@.len() - i,
    {
        proof {
            assert(s.subrange(0, i + 1).drop_last() =~= s.subrange(0, i as int));
            assert(s[i as int] == bottles@[i as int].fills@);
        }
        if bottles[i].is_solved() {
            solved_n = solved_n + 1;
        }
        if !bottles[i].is_empty() {
            non_empty = non_empty + 1;
        }
        i = i + 1;
    }
    proof {
        assert(s.subrange(0, s.len() as int) =~= s);
    }
    (solved_n, non_empty)
}

/// `a` and `b` rank alike: as many solved bottles, and as many holding a
/// layer.
pub open spec fn same_rank(a: Level, b: Level) -> bool {
    solved_count(a) == solved_count(b) && non_empty_count(a) == non_empty_count(b)
}

/// `sorted` holds the items of `orig` at the positions `idx` gives, each
/// once, and items that rank alike keep their order from `orig`.
pub open spec fn stable_arrangement(
    orig: Seq<(Move, Vec<Bottle>)>,
    sorted: Seq<(Move, Vec<Bottle>)>,
    idx: Seq<int>,
) -> bool {
    &&& idx.len() == sorted.len() == orig.len()
    &&& forall|k: int| 0 <= k < idx.len() ==> 0 <= #[trigger] idx[k] < orig.len() && sorted[k] == orig[idx[k]]
    &&& forall|i: int, j: int| 0 <= i < j < idx.len() ==> #[trigger] idx[i] != #[trigger] idx[j]
    &&& forall|i: int, j: int|
        0 <= i < j < idx.len() && same_rank(fills_v(sorted[i].1@), fills_v(sorted[j].1@))
            ==> #[trigger] idx[i] < #[trigger] idx[j]
}

proof fn lemma_stable_insert(
    orig: Seq<(Move, Vec<Bottle>)>,
    before: Seq<(Move, Vec<Bottle>)>,
    before_keys: Seq<(usize, usize)>,
    before_idx: Seq<int>,
    after: Seq<(Move, Vec<Bottle>)>,
    idx: Seq<int>,
    pos: int,
    item: (Move, Vec<Bottle>),
    key: (usize, usize),
    taken: int,
)
    requires
        0 <= pos <= before.len(),
        0 <= taken < orig.len(),
        item == orig[taken],
        after == before.insert(pos, item),
        idx == before_idx.insert(pos, taken),
        before_keys.len() == before.len(),
        key.0 == solved_count(fills_v(item.1@)) && key.1 == non_empty_count(fills_v(item.1@)),
        forall|k: int|
            0 <= k < before.len() ==> (#[trigger] before_keys[k]).0 == solved_count(fills_v(before[k].1@))
                && before_keys[k].1 == non_empty_count(fills_v(before[k].1@)),
        forall|q: int|
            pos <= q < before.len() ==> !((#[trigger] before_keys[q]).0 > key.0 || (before_keys[q].0
                == key.0 && before_keys[q].1 <= key.1)),
        before_idx.len() == before.len(),
        forall|k: int| 0 <= k < before_idx.len() ==> 0 <= #[trigger] before_idx[k] < taken && before[k] == orig[before_idx[k]],
        forall|i: int, j: int| 0 <= i < j < before_idx.len() ==> #[trigger] before_idx[i] != #[trigger] before_idx[j],
        forall|i: int, j: int|
            0 <= i < j < before_idx.len() && same_rank(fills_v(before[i].1@), fills_v(before[j].1@))
                ==> #[trigger] before_idx[i] < #[trigger] before_idx[j],
    ensures
        idx.len() == after.len(),
        forall|k: int| 0 <= k < idx.len() ==> 0 <= #[trigger] idx[k] < taken + 1 && after[k] == orig[idx[k]],
        forall|i: int, j: int| 0 <= i < j < idx.len() ==> #[trigger] idx[i] != #[trigger] idx[j],
        forall|i: int, j: int|
            0 <= i < j < idx.len() && same_rank(fills_v(after[i].1@), fills_v(after[j].1@))
                ==> #[trigger] idx[i] < #[trigger] idx[j],
{
    assert forall|k: int| 0 <= k < idx.len() implies 0 <= #[trigger] idx[k] < taken + 1 && after[k] == orig[idx[k]] by {
        if k < pos {
            assert(idx[k] == before_idx[k] && after[k] == before[k]);
        } else if k > pos {
            assert(idx[k] == before_idx[k - 1] && after[k] == before[k - 1]);
        }
    }
    assert forall|i: int, j: int| 0 <= i < j < idx.len() implies #[trigger] idx[i] != #[trigger] idx[j] by {
        if i < pos && j > pos {
            assert(idx[i] == before_idx[i] && idx[j] == before_idx[j - 1]);
        } else if i < pos && j == pos {
            assert(idx[i] == before_idx[i]);
        } else if i == pos {
            assert(idx[j] == before_idx[j - 1]);
        } else if i > pos {
            assert(idx[i] == before_idx[i - 1] && idx[j] == before_idx[j - 1]);
        } else {
            assert(idx[i] == before_idx[i] && idx[j] == before_idx[j]);
        }
    }
    assert forall|i: int, j: int|
        0 <= i < j < idx.len() && same_rank(fills_v(after[i].1@), fills_v(after[j].1@))
            implies #[trigger] idx[i] < #[trigger] idx[j] by {
        if i < pos && j > pos {
            assert(idx[i] == before_idx[i] && idx[j] == before_idx[j - 1]);
            assert(after[i] == before[i] && after[j] == before[j - 1]);
        } else if i < pos && j == pos {
            assert(idx[i] == before_idx[i]);
        } else if i == pos {
            assert(after[j] == before[j - 1]);
            assert(before_keys[j - 1].0 == key.0 && before_keys[j - 1].1 == key.1);
        } else if i > pos {
            assert(idx[i] == before_idx[i - 1] && idx[j] == before_idx[j - 1]);
            assert(after[i] == before[i - 1] && after[j] == before[j - 1]);
        } else {
            assert(idx[i] == before_idx[i] && idx[j] == before_idx[j]);
            assert(after[i] == before[i] && after[j] == before[j]);
        }
    }
}

/// Orders the moves so that the levels they lead to rank first: more solved
/// bottles, then fewer bottles holding a layer; moves that rank alike keep
/// their order.
pub fn sort_moves_by_heuristic(possible_moves: &mut Vec<(Move, Vec<Bottle>)>)
    ensures
        final(possible_moves)@.to_multiset() == old(possible_moves)@.to_multiset(),
        final(possible_moves)@.len() == old(possible_moves)@.len(),
        forall|i: int, j: int|
            0 <= i < j < final(possible_moves)@.len() ==> ranks_before_or_with(
                fills_v((#[trigger] final(possible_moves)@[i]).1@),
                fills_v((#[trigger] final(possible_moves)@[j]).1@),
            ),
        exists|idx: Seq<int>| stable_arrangement(old(possible_moves)@, final(possible_moves)@, idx),
{
    let mut input: Vec<(Move, Vec<Bottle>)> = Vec::new();
    std::mem::swap(&mut input, possible_moves);
    let ghost orig = input@;
    assert(orig.len() == input.len());
    let mut out: Vec<(Move, Vec<Bottle>)> = Vec::new();
    let mut keys: Vec<(usize, usize)> = Vec::new();
    let mut taken: usize = 0;
    let ghost mut idx: Seq<int> = Seq::empty();
    proof {
        assert(out@ =~= orig.subrange(0, 0));
    }
    while input.len() > 0
        invariant
            taken + input@.len() == orig.len(),
            orig.len() <= usize::MAX,
            input@ == orig.subrange(taken as int, orig.len() as int),
            out@.to_multiset() == orig.subrange(0, taken as int).to_multiset(),
            out@.len() == taken,
            keys@.len() == out@.len(),
            forall|k: int|
                0 <= k < out@.len() ==> (#[trigger] keys@[k]).0 == solved_count(fills_v(out@[k].1@))
                    && keys@[k].1 == non_empty_count(fills_v(out@[k].1@)),
            forall|i: int, j: int|
                0 <= i < j < out@.len() ==> ranks_before_or_with(
                    fills_v((#[trigger] out@[i]).1@),
                    fills_v((#[trigger] out@[j]).1@),
                ),
            idx.len() == out@.len(),
            forall|k: int| 0 <= k < idx.len() ==> 0 <= #[trigger] idx[k] < taken && out@[k] == orig[idx[k]],
            forall|i: int, j: int| 0 <= i < j < idx.len() ==> #[trigger] idx[i] != #[trigger] idx[j],
            forall|i: int, j: int|
                0 <= i < j < idx.len() && same_rank(fills_v(out@[i].1@), fills_v(out@[j].1@))
                    ==> #[trigger] idx[i] < #[trigger] idx[j],
        decreases input@.len(),
    {
        let item = input.remove(0);
        proof {
            assert(item == orig[taken as int]);
        }
        let key = ranking(&item.1);
        let mut pos: usize = out.len();
        while pos > 0
            invariant
                pos <= out@.len(),
                keys@.len() == out@.len(),
                forall|q: int|
                    pos <= q < out@.len() ==> !((#[trigger] keys@[q]).0 > key.0 || (keys@[q].0
                        == key.0 && keys@[q].1 <= key.1)),
            ensures
                pos <= out@.len(),
                forall|q: int|
                    pos <= q < out@.len() ==> !((#[trigger] keys@[q]).0 > key.0 || (keys@[q].0
                        == key.0 && keys@[q].1 <= key.1)),
                pos > 0 ==> (keys@[pos - 1].0 > key.0 || (keys@[pos - 1].0 == key.0 && keys@[pos
                    - 1].1 <= key.1)),
            decreases pos,
        {
            let k = keys[pos - 1];
            if k.0 > key.0 || (k.0 == key.0 && k.1 <= key.1) {
                break;
            }
            pos = pos - 1;
        }
        let ghost before = out@;
        let ghost before_keys = keys@;
        let ghost before_idx = idx;
        out.insert(pos, item);
        keys.insert(pos, key);
        proof {
            idx = before_idx.insert(pos as int, taken as int);
            lemma_stable_insert(orig, before, before_keys, before_idx, out@, idx, pos as int, item, key, taken as int);
            vstd::seq_lib::to_multiset_insert(before, pos as int, item);
            assert(orig.subrange(0, taken + 1) =~= orig.subrange(0, taken as int).push(item));
            vstd::seq_lib::to_multiset_build(orig.subrange(0, taken as int), item);
            assert(input@ =~= orig.subrange(taken + 1, orig.len() as int));
            assert forall|k: int|
                0 <= k < out@.len() implies (#[trigger] keys@[k]).0 == solved_count(
                fills_v(out@[k].1@),
            ) && keys@[k].1 == non_empty_count(fills_v(out@[k].1@)) by {
                if k < pos {
                    assert(out@[k] == before[k]);
                    assert(keys@[k] == before_keys[k]);
                } else if k > pos {
                    assert(out@[k] == before[k - 1]);
                    assert(keys@[k] == before_keys[k - 1]);
                }
            }
            assert forall|i: int, j: int|
                0 <= i < j < out@.len() implies ranks_before_or_with(
                fills_v((#[trigger] out@[i]).1@),
                fills_v((#[trigger] out@[j]).1@),
            ) by {
                if i < pos && j > pos {
                    assert(out@[i] == before[i]);
                    assert(out@[j] == before[j - 1]);
                } else if i < pos && j == pos {
                    assert(out@[i] == before[i]);
                    assert(keys@[i] == before_keys[i]);
                    assert(keys@[pos - 1] == before_keys[pos - 1]);
                    if i < pos - 1 {
                        assert(out@[pos - 1] == before[pos - 1]);
                    }
                } else if i == pos {
                    assert(out@[j] == before[j - 1]);
                    assert(keys@[j] == before_keys[j - 1]);
                } else if i > pos {
                    assert(out@[i] == before[i - 1]);
                    assert(out@[j] == before[j - 1]);
                } else {
                    assert(out@[i] == before[i]);
                    assert(out@[j] == before[j]);
                }
            }
        }
        taken = taken + 1;
    }
    proof {
        assert(orig.subrange(0, taken as int) =~= orig);
        assert(stable_arrangement(orig, out@, idx));
    }
    std::mem::swap(&mut out, possible_moves);
}

/// Depth-first search from `bottles` for a sequence of moves after which
/// every bottle is solved or empty; the most promising moves are tried first,
/// and levels already visited are not entered again.
fn inner_solver(
    bottles: Vec<Bottle>,
    moves_so_far: Vec<Move>,
    visited_states: &mut Vec<Vec<Bottle>>,
) -> (r: Option<Vec<Move>>)
    requires
        capacity_ok(fills_v(bottles@)),
    ensures
        grows(old(visited_states)@, final(visited_states)@),
        r matches Some(moves) ==> extends_to(moves@, moves_so_far@, fills_v(bottles@), false, 0),
        !levels_v(old(visited_states)@).contains(fills_v(bottles@)) && all_done(fills_v(bottles@))
            ==> (r matches Some(moves) && moves@ == moves_so_far@),
        r is None ==> levels_v(final(visited_states)@).contains(fills_v(bottles@)),
        r is None ==> explored_from(
            levels_v(final(visited_states)@),
            old(visited_states)@.len() as int,
            old(visited_states)@.len() as int,
            false,
        ),
    decreases usize::MAX - old(visited_states)@.len(),
{
    let ghost s = fills_v(bottles@);
    let ghost entry = visited_states@;
    if contains_level(visited_states, &bottles) {
        proof {
            assert(levels_v(entry).subrange(0, entry.len() as int) =~= levels_v(entry));
        }
        return None;
    }
    let ghost n0 = entry.len() as int;
    visited_states.push(copy_level(&bottles));
    proof {
        assert(visited_states@.len() == visited_states.len());
        assert(levels_v(visited_states@).subrange(0, entry.len() as int) =~= levels_v(entry));
    }
    if all_solved_or_empty(&bottles) {
        proof {
            let rest = moves_v(moves_so_far@.subrange(
                moves_so_far@.len() as int,
                moves_so_far@.len() as int,
            ));
            assert(rest =~= Seq::<(usize, usize)>::empty());
            assert(moves_so_far@.subrange(0, moves_so_far@.len() as int) =~= moves_so_far@);
        }
        return Some(moves_so_far);
    }
    let ghost gen_seen = visited_states@;
    proof {
        assert(levels_v(visited_states@)[n0] == s);
    }
    let mut possible_moves = get_possible_moves(&bottles, visited_states);
    proof {
        assert(bottles@.len() == bottles.len());
        lemma_entries_ok(s, levels_v(visited_states@), possible_moves@);
    }
    let ghost unsorted = possible_moves@;
    sort_moves_by_heuristic(&mut possible_moves);
    proof {
        assert forall|k: int| 0 <= k < possible_moves@.len() implies entry_ok(
            s,
            #[trigger] possible_moves@[k],
        ) by {
            broadcast use vstd::seq_lib::group_to_multiset_ensures;

            let e = possible_moves@[k];
            assert(possible_moves@.contains(e));
            assert(possible_moves@.to_multiset().count(e) > 0);
            assert(unsorted.to_multiset().count(e) > 0);
            assert(unsorted.contains(e));
            let j = choose|j: int| 0 <= j < unsorted.len() && unsorted[j] == e;
            assert(entry_ok(s, unsorted[j]));
        }
    }
    let ghost all_sorted = possible_moves@;
    let mut remaining = possible_moves;
    let ghost mut processed: int = 0;
    proof {
        assert(remaining@ =~= all_sorted.subrange(0, all_sorted.len() as int));
        assert(levels_v(gen_seen).subrange(0, gen_seen.len() as int) =~= levels_v(gen_seen));
    }
    while remaining.len() > 0
        invariant
            s == fills_v(bottles@),
            capacity_ok(s),
            !all_done(s),
            entry == old(visited_states)@,
            grows(entry, visited_states@),
            visited_states@.len() > entry.len(),
            forall|k: int| 0 <= k < remaining@.len() ==> entry_ok(s, #[trigger] remaining@[k]),
            n0 == entry.len(),
            grows(gen_seen, visited_states@),
            gen_seen.len() == n0 + 1,
            levels_v(visited_states@)[n0] == s,
            0 <= processed <= all_sorted.len(),
            remaining@ == all_sorted.subrange(processed, all_sorted.len() as int),
            forall|k: int|
                0 <= k < processed ==> levels_v(visited_states@).contains(
                    fills_v((#[trigger] all_sorted[k]).1@),
                ),
            explored_from(levels_v(visited_states@), n0 + 1, n0 + 1, false),
        decreases remaining@.len(),
    {
        let ghost before = remaining@;
        let (m, new_state) = remaining.remove(0);
        proof {
            assert(before[0] == all_sorted[processed]);
            assert(remaining@ =~= all_sorted.subrange(processed + 1, all_sorted.len() as int));
        }
        proof {
            assert(entry_ok(s, before[0]));
            assert forall|k: int| 0 <= k < remaining@.len() implies entry_ok(
                s,
                #[trigger] remaining@[k],
            ) by {
                assert(remaining@[k] == before[k + 1]);
            }
            lemma_poured_keeps_capacity(s, m@.0 as int, m@.1 as int);
            assert(visited_states@.len() == visited_states.len());
        }
        let mut new_moves = copy_moves(&moves_so_far);
        new_moves.push(m);
        let ghost visited_before = visited_states@;
        match inner_solver(new_state, new_moves, visited_states) {
            Some(solution) => {
                proof {
                    lemma_extend_step(solution@, moves_so_far@, m, s, false, 0);
                    lemma_grows_trans(entry, visited_before, visited_states@);
                }
                return Some(solution);
            },
            None => {
                proof {
                    lemma_grows_trans(entry, visited_before, visited_states@);
                    lemma_grows_trans(gen_seen, visited_before, visited_states@);
                    let vb = levels_v(visited_before);
                    let va = levels_v(visited_states@);
                    lemma_explored_extend(vb, va, n0 + 1, n0 + 1, vb.len() as int, false);
                    assert(va[n0] == vb[n0]);
                    assert forall|k: int| 0 <= k < processed + 1 implies va.contains(
                        fills_v((#[trigger] all_sorted[k]).1@),
                    ) by {
                        if k < processed {
                            let j = choose|j: int| 0 <= j < vb.len() && vb[j] == fills_v(all_sorted[k].1@);
                            assert(va[j] == vb[j]);
                        }
                    }
                    processed = processed + 1;
                }
            },
        }
    }
    proof {
        let v = levels_v(visited_states@);
        let seen = levels_v(gen_seen);
        let c = all_candidates(s, seen);
        assert forall|i: int| 0 <= i < c.len() implies v.contains(
            poured(s, (#[trigger] c[i]).0, c[i].1),
        ) by {
            broadcast use vstd::seq_lib::group_to_multiset_ensures;

            let e = unsorted[i];
            assert(fills_v(e.1@) == poured(s, c[i].0, c[i].1));
            assert(unsorted.contains(e));
            assert(unsorted.to_multiset().count(e) > 0);
            assert(all_sorted.to_multiset().count(e) > 0);
            assert(all_sorted.contains(e));
            let k = choose|k: int| 0 <= k < all_sorted.len() && all_sorted[k] == e;
            assert(v.contains(fills_v(all_sorted[k].1@)));
        }
        assert(v.subrange(0, seen.len() as int) == seen);
        lemma_stays_from_candidates(s, seen, v);
        assert(explored_from(v, n0, n0, false));
    }
    None
}

/// Looks, depth first, for a sequence of moves after which every bottle is
/// solved or empty.
pub fn run_solver(bottles: &Vec<Bottle>) -> (r: Option<Vec<Move>>)
    requires
        capacity_ok(fills_v(bottles@)),
    ensures
        all_done(fills_v(bottles@)) ==> (r matches Some(moves) && moves@.len() == 0),
        r matches Some(moves) ==> valid_path(fills_v(bottles@), moves_v(moves@)) && all_done(
            replay(fills_v(bottles@), moves_v(moves@)),
        ),
        r is None ==> forall|moves: Seq<(usize, usize)>|
            valid_path(fills_v(bottles@), moves) ==> !all_done(
                #[trigger] replay(fills_v(bottles@), moves),
            ),
{
    let mut visited_states: Vec<Vec<Bottle>> = Vec::new();
    let start = copy_level(bottles);
    let no_moves: Vec<Move> = Vec::new();
    proof {
        assert(levels_v(visited_states@) =~= Seq::<Level>::empty());
    }
    match inner_solver(start, no_moves, &mut visited_states) {
        Some(moves) => {
            proof {
                assert(moves@.subrange(0, moves@.len() as int) =~= moves@);
            }
            Some(moves)
        },
        None => {
            proof {
                let v = levels_v(visited_states@);
                let x = fills_v(bottles@);
                assert forall|moves: Seq<(usize, usize)>|
                    valid_path(x, moves) implies !all_done(#[trigger] replay(x, moves)) by {
                    if all_done(replay(x, moves)) {
                        let k = choose|k: int| 0 <= k < v.len() && v[k] == x;
                        lemma_arranges_refl(x);
                        lemma_no_escape(v, 0, 0, false, x, k, moves);
                        assert(!passes_seen(x, moves, v, 0));
                        lemma_all_done_arranged(replay(x, moves), v[0]);
                    }
                }
            }
            None
        },
    }
}

} // verus!
