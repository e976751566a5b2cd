//! Discovery in the classic game: mystery layers, and the levels already
//! visited while looking for them.
use vstd::prelude::*;

use crate::classic::bottle::{Bottle, BottleColor};
use crate::classic::solver::{
    all_done, all_solved_or_empty, capacity_ok, contains_level, copy_level, copy_moves,
    entry_ok, extends_to, fills_v, get_possible_moves, grows, has_mystery_on_top,
    lemma_entries_ok, lemma_extend_step, lemma_grows_trans, lemma_poured_keeps_capacity,
    levels_v, move_ok, moves_v, mystery_on_top, poured, replay, valid_path, Level, Move,
    all_candidates,
};
use crate::classic::reach::{
    arranges, explored_from, lemma_arranges_refl, lemma_explored_extend, lemma_no_escape,
    lemma_stays_from_candidates, passes_seen, search_goal,
};

verus! {

/// Depth-first search from `current_state` for a move that brings a mystery
/// layer to the top of a bottle; levels already visited are not entered again.
fn inner_discovery_mode(
    current_state: Vec<Bottle>,
    current_moves: Vec<Move>,
    already_visited_states: &mut Vec<Vec<Bottle>>,
) -> (r: Option<Vec<Move>>)
    requires
        capacity_ok(fills_v(current_state@)),
    ensures
        grows(old(already_visited_states)@, final(already_visited_states)@),
        r matches Some(moves) ==> extends_to(moves@, current_moves@, fills_v(current_state@), true, 1),
        r is None ==> levels_v(final(already_visited_states)@).contains(fills_v(current_state@)),
        r is None ==> explored_from(
            levels_v(final(already_visited_states)@),
            old(already_visited_states)@.len() as int,
            (old(already_visited_states)@.len() + 1) as int,
            true,
        ),
        r is None && final(already_visited_states)@.len() > old(already_visited_states)@.len() ==> levels_v(
            final(already_visited_states)@,
        )[old(already_visited_states)@.len() as int] == fills_v(current_state@),
    decreases usize::MAX - old(already_visited_states)@.len(),
{
    let ghost s = fills_v(current_state@);
    let ghost entry = already_visited_states@;
    if contains_level(already_visited_states, &current_state) {
        proof {
            assert(levels_v(entry).subrange(0, entry.len() as int) =~= levels_v(entry));
        }
        return None;
    }
    let ghost n0 = entry.len() as int;
    already_visited_states.push(copy_level(&current_state));
    proof {
        assert(already_visited_states@.len() == already_visited_states.len());
        assert(levels_v(already_visited_states@).subrange(0, entry.len() as int) =~= levels_v(entry));
    }
    let ghost gen_seen = already_visited_states@;
    proof {
        assert(levels_v(already_visited_states@)[n0] == s);
    }
    let possible_moves = get_possible_moves(&current_state, already_visited_states);
    proof {
        assert(current_state@.len() == current_state.len());
        lemma_entries_ok(s, levels_v(already_visited_states@), possible_moves@);
    }
    let mut i: usize = 0;
    while i < possible_moves.len()
        invariant
            i <= possible_moves@.len(),
            s == fills_v(current_state@),
            entry == old(already_visited_states)@,
            grows(entry, already_visited_states@),
            forall|k: int| 0 <= k < possible_moves@.len() ==> entry_ok(s, #[trigger] possible_moves@[k]),
            forall|k: int| 0 <= k < i ==> !mystery_on_top(fills_v((#[trigger] possible_moves@[k]).1@)),
        decreases possible_moves@.len() - i,
    {
        if has_mystery_on_top(&possible_moves[i].1) {
            let m = possible_moves[i].0;
            let mut new_moves = copy_moves(&current_moves);
            new_moves.push(m);
            proof {
                assert(entry_ok(s, possible_moves@[i as int]));
                let rest = moves_v(new_moves@.subrange(
                    current_moves@.len() as int,
                    new_moves@.len() as int,
                ));
                assert(rest =~= seq![m@]);
                assert(rest.drop_first() =~= Seq::<(usize, usize)>::empty());
                assert(new_moves@.subrange(0, current_moves@.len() as int) =~= current_moves@);
                assert(rest[0] == m@);
                assert(replay(s, rest) == replay(
                    poured(s, m@.0 as int, m@.1 as int),
                    rest.drop_first(),
                ));
                assert(replay(s, rest) == fills_v(possible_moves@[i as int].1@));
                assert(valid_path(poured(s, m@.0 as int, m@.1 as int), rest.drop_first()));
                assert(move_ok(s, rest[0].0 as int, rest[0].1 as int));
                assert(valid_path(s, rest));
            }
            return Some(new_moves);
        }
        i = i + 1;
    }
    let ghost all_moves = possible_moves@;
    let mut remaining = possible_moves;
    let ghost mut processed: int = 0;
    proof {
        assert(remaining@ =~= all_moves.subrange(0, all_moves.len() as int));
        assert(levels_v(gen_seen).subrange(0, gen_seen.len() as int) =~= levels_v(gen_seen));
    }
    while remaining.len() > 0
        invariant
            s == fills_v(current_state@),
            capacity_ok(s),
            entry == old(already_visited_states)@,
            grows(entry, already_visited_states@),
            already_visited_states@.len() > entry.len(),
            forall|k: int| 0 <= k < remaining@.len() ==> entry_ok(s, #[trigger] remaining@[k]),
            n0 == entry.len(),
            grows(gen_seen, already_visited_states@),
            gen_seen.len() == n0 + 1,
            levels_v(already_visited_states@)[n0] == s,
            0 <= processed <= all_moves.len(),
            remaining@ == all_moves.subrange(processed, all_moves.len() as int),
            forall|k: int| 0 <= k < all_moves.len() ==> !mystery_on_top(fills_v((#[trigger] all_moves[k]).1@)),
            forall|k: int|
                0 <= k < processed ==> levels_v(already_visited_states@).contains(
                    fills_v((#[trigger] all_moves[k]).1@),
                ),
            explored_from(levels_v(already_visited_states@), n0 + 1, n0 + 1, true),
        decreases remaining@.len(),
    {
        let ghost before = remaining@;
        let (m, new_state) = remaining.remove(0);
        proof {
            assert(before[0] == all_moves[processed]);
            assert(remaining@ =~= all_moves.subrange(processed + 1, all_moves.len() as int));
        }
        proof {
            assert(entry_ok(s, before[0]));
            assert forall|k: int| 0 <= k < remaining@.len() implies entry_ok(
                s,
                #[trigger] remaining@[k],
            ) by {
                assert(remaining@[k] == before[k + 1]);
            }
            lemma_poured_keeps_capacity(s, m@.0 as int, m@.1 as int);
            assert(already_visited_states@.len() == already_visited_states.len());
        }
        let mut new_moves = copy_moves(&current_moves);
        new_moves.push(m);
        let ghost visited_before = already_visited_states@;
        match inner_discovery_mode(new_state, new_moves, already_visited_states) {
            Some(result) => {
                proof {
                    lemma_extend_step(result@, current_moves@, m, s, true, 1);
                    lemma_grows_trans(entry, visited_before, already_visited_states@);
                }
                return Some(result);
            },
            None => {
                proof {
                    lemma_grows_trans(entry, visited_before, already_visited_states@);
                    lemma_grows_trans(gen_seen, visited_before, already_visited_states@);
                    let vb = levels_v(visited_before);
                    let va = levels_v(already_visited_states@);
                    let m0 = vb.len() as int;
                    assert(!mystery_on_top(fills_v(all_moves[processed].1@)));
                    assert forall|k: int| m0 <= k < va.len() implies !search_goal(true, #[trigger] va[k]) by {
                        if k == m0 {
                            assert(va[k] == fills_v(new_state@));
                        }
                    }
                    lemma_explored_extend(vb, va, n0 + 1, n0 + 1, m0, true);
                    assert(va[n0] == vb[n0]);
                    assert forall|k: int| 0 <= k < processed + 1 implies va.contains(
                        fills_v((#[trigger] all_moves[k]).1@),
                    ) by {
                        if k < processed {
                            let j = choose|j: int| 0 <= j < vb.len() && vb[j] == fills_v(all_moves[k].1@);
                            assert(va[j] == vb[j]);
                        }
                    }
                    processed = processed + 1;
                }
            },
        }
    }
    proof {
        let v = levels_v(already_visited_states@);
        let seen = levels_v(gen_seen);
        let c = all_candidates(s, seen);
        assert forall|i: int| 0 <= i < c.len() implies v.contains(
            poured(s, (#[trigger] c[i]).0, c[i].1),
        ) by {
            assert(fills_v(all_moves[i].1@) == poured(s, c[i].0, c[i].1));
        }
        assert(v.subrange(0, seen.len() as int) == seen);
        lemma_stays_from_candidates(s, seen, v);
        assert(explored_from(v, n0, n0 + 1, true));
    }
    None
}

/// What a discovery search found.
pub enum DiscoverResult {
    /// No sequence of moves brings a mystery layer to the top.
    NoMove,
    /// These moves bring a mystery layer to the top.
    MoveToDiscover(Vec<Move>),
    /// Every bottle of the most revealed state is solved or empty.
    AlreadySolved,
}

/// Looks, depth first and skipping visited levels, for moves from the current
/// bottles after which a mystery layer lies on top of a bottle. Nothing is
/// left to discover when every bottle of the most revealed state is solved or
/// empty.
pub fn find_best_discovery_moves(
    current_bottles: &Vec<Bottle>,
    max_revealed_bottle_state: &Vec<Bottle>,
    already_visited_states: &mut Vec<Vec<Bottle>>,
) -> (r: DiscoverResult)
    requires
        capacity_ok(fills_v(current_bottles@)),
    ensures
        grows(old(already_visited_states)@, final(already_visited_states)@),
        all_done(fills_v(max_revealed_bottle_state@)) <==> r is AlreadySolved,
        r matches DiscoverResult::MoveToDiscover(moves) ==> {
            &&& moves@.len() > 0
            &&& valid_path(fills_v(current_bottles@), moves_v(moves@))
            &&& mystery_on_top(replay(fills_v(current_bottles@), moves_v(moves@)))
        },
        r is NoMove ==> forall|moves: Seq<(usize, usize)>|
            moves.len() > 0 && valid_path(fills_v(current_bottles@), moves) && mystery_on_top(
                #[trigger] replay(fills_v(current_bottles@), moves),
            ) ==> passes_seen(
                fills_v(current_bottles@),
                moves,
                levels_v(old(already_visited_states)@),
                old(already_visited_states)@.len() as int,
            ) || arranges(replay(fills_v(current_bottles@), moves), fills_v(current_bottles@)),
{
    if all_solved_or_empty(max_revealed_bottle_state) {
        proof {
            assert(levels_v(already_visited_states@).subrange(
                0,
                already_visited_states@.len() as int,
            ) =~= levels_v(already_visited_states@));
        }
        return DiscoverResult::AlreadySolved;
    }
    let start = copy_level(current_bottles);
    let no_moves: Vec<Move> = Vec::new();
    match inner_discovery_mode(start, no_moves, already_visited_states) {
        Some(moves) => {
            proof {
                assert(moves@.subrange(0, 0) =~= Seq::<Move>::empty());
                assert(moves@.subrange(0, moves@.len() as int) =~= moves@);
            }
            DiscoverResult::MoveToDiscover(moves)
        },
        None => {
            proof {
                let v = levels_v(already_visited_states@);
                let old_v = levels_v(old(already_visited_states)@);
                let n0 = old_v.len() as int;
                let x = fills_v(current_bottles@);
                assert forall|moves: Seq<(usize, usize)>|
                    moves.len() > 0 && valid_path(x, moves) && mystery_on_top(#[trigger] replay(x, moves))
                        implies passes_seen(x, moves, old_v, n0) || arranges(replay(x, moves), x) by {
                    let k = choose|k: int| 0 <= k < v.len() && v[k] == x;
                    lemma_arranges_refl(x);
                    lemma_no_escape(v, n0, n0 + 1, true, x, k, moves);
                    if passes_seen(x, moves, v, n0) {
                        let (i, j) = choose|i: int, j: int|
                            0 <= i <= moves.len() && 0 <= j < n0 && #[trigger] arranges(
                                replay(x, moves.take(i)),
                                v[j],
                            );
                        assert(v[j] == old_v[j]);
                        assert(arranges(replay(x, moves.take(i)), old_v[j]));
                    }
                }
            }
            DiscoverResult::NoMove
        },
    }
}

/// How many layers of a bottle are `Mystery`.
pub open spec fn mystery_count(f: Seq<BottleColor>) -> nat
    decreases f.len(),
{
    if f.len() == 0 {
        0
    } else {
        mystery_count(f.drop_last()) + if f.last() == BottleColor::Mystery {
            1nat
        } else {
            0nat
        }
    }
}

/// How many mystery layers all bottles hold together.
pub open spec fn total_mystery(s: Level) -> nat
    decreases s.len(),
{
    if s.len() == 0 {
        0
    } else {
        total_mystery(s.drop_last()) + mystery_count(s.last())
    }
}

/// How many layers all bottles hold together.
pub open spec fn layer_total(s: Level) -> nat
    decreases s.len(),
{
    if s.len() == 0 {
        0
    } else {
        layer_total(s.drop_last()) + s.last().len()
    }
}

proof fn lemma_mystery_bound(f: Seq<BottleColor>)
    ensures
        mystery_count(f) <= f.len(),
    decreases f.len(),
{
    if f.len() > 0 {
        lemma_mystery_bound(f.drop_last());
    }
}

proof fn lemma_total_bound(s: Level)
    ensures
        total_mystery(s) <= layer_total(s),
    decreases s.len(),
{
    if s.len() > 0 {
        lemma_total_bound(s.drop_last());
        lemma_mystery_bound(s.last());
    }
}

proof fn lemma_layer_total_prefix(s: Level, i: int)
    requires
        0 <= i <= s.len(),
    ensures
        layer_total(s.subrange(0, i)) <= layer_total(s),
    decreases s.len() - i,
{
    if i < s.len() {
        lemma_layer_total_prefix(s, i + 1);
        assert(s.subrange(0, i + 1).drop_last() =~= s.subrange(0, i));
    } else {
        assert(s.subrange(0, i) =~= s);
    }
}

/// How many mystery layers all bottles hold together.
pub fn count_total_mystery_colors(bottles: &Vec<Bottle>) -> (r: usize)
    requires
        layer_total(fills_v(bottles@)) <= usize::MAX,
    ensures
        r == total_mystery(fills_v(bottles@)),
{
    let ghost s = fills_v(bottles@);
    let mut total: usize = 0;
    let mut i: usize = 0;
    while i < bottles.len()
        invariant
            i <= bottles@.len(),
            s == fills_v(bottles@),
            layer_total(s) <= usize::MAX,
            total == total_mystery(s.subrange(0, i as int)),
        decreases bottles@.len() - i,
    {
        let ghost f = bottles@[i as int].fills@;
        proof {
            assert(s.subrange(0, i + 1).drop_last() =~= s.subrange(0, i as int));
            assert(s[i as int] == f);
            lemma_total_bound(s.subrange(0, i + 1));
            lemma_layer_total_prefix(s, i + 1);
        }
        let fills = bottles[i].get_fills();
        let mut count: usize = 0;
        let mut j: usize = 0;
        while j < fills.len()
            invariant
                j <= fills@.len(),
                fills@ == f,
                count == mystery_count(f.subrange(0, j as int)),
                count <= j,
            decreases fills@.len() - j,
        {
            proof {
                assert(f.subrange(0, j + 1).drop_last() =~= f.subrange(0, j as int));
            }
            if fills[j] == BottleColor::Mystery {
                count = count + 1;
            }
            j = j + 1;
        }
        proof {
            assert(f.subrange(0, f.len() as int) =~= f);
        }
        total = total + count;
        i = i + 1;
    }
    proof {
        assert(s.subrange(0, s.len() as int) =~= s);
    }
    total
}

/// A level with its mystery layers replaced by the revealed colours, over the
/// bottles and layers that both have.
pub open spec fn revealed_level(state: Level, revealed: Level) -> Level {
    Seq::new(
        if state.len() <= revealed.len() {
            state.len()
        } else {
            revealed.len()
        },
        |i: int|
            Seq::new(
                if state[i].len() <= revealed[i].len() {
                    state[i].len()
                } else {
                    revealed[i].len()
                },
                |j: int|
                    if state[i][j] == BottleColor::Mystery {
                        revealed[i][j]
                    } else {
                        state[i][j]
                    },
            ),
    )
}

fn reveal_level(state: &Vec<Bottle>, revealed: &Vec<Bottle>) -> (r: Vec<Bottle>)
    ensures
        fills_v(r@) == revealed_level(fills_v(state@), fills_v(revealed@)),
{
    let ghost target = revealed_level(fills_v(state@), fills_v(revealed@));
    let n = if state.len() <= revealed.len() {
        state.len()
    } else {
        revealed.len()
    };
    let mut out: Vec<Bottle> = Vec::new();
    let mut i: usize = 0;
    while i < n
        invariant
            i <= n,
            n == target.len(),
            n <= state@.len(),
            n <= revealed@.len(),
            target == revealed_level(fills_v(state@), fills_v(revealed@)),
            out@.len() == i,
            forall|k: int| 0 <= k < i ==> (#[trigger] out@[k]).fills@ == target[k],
        decreases n - i,
    {
        let a = state[i].get_fills();
        let b = revealed[i].get_fills();
        let m = if a.len() <= b.len() {
            a.len()
        } else {
            b.len()
        };
        let mut fills: Vec<BottleColor> = Vec::new();
        let mut j: usize = 0;
        proof {
            assert(fills_v(state@)[i as int] == a@);
            assert(fills_v(revealed@)[i as int] == b@);
        }
        while j < m
            invariant
                j <= m,
                m <= a@.len(),
                m <= b@.len(),
                m == target[i as int].len(),
                target == revealed_level(fills_v(state@), fills_v(revealed@)),
                fills_v(state@)[i as int] == a@,
                fills_v(revealed@)[i as int] == b@,
                i < n,
                n == target.len(),
                fills@ == target[i as int].subrange(0, j as int),
            decreases m - j,
        {
            let c = if a[j] == BottleColor::Mystery {
                b[j]
            } else {
                a[j]
            };
            fills.push(c);
            proof {
                assert(fills@ =~= target[i as int].subrange(0, j + 1));
            }
            j = j + 1;
        }
        proof {
            assert(fills@ =~= target[i as int]);
        }
        out.push(Bottle::from_fills(fills));
        i = i + 1;
    }
    proof {
        assert(fills_v(out@) =~= target);
    }
    out
}

/// Replaces the visited levels by the same levels with the mystery layers
/// revealed; each resulting level is kept once, in the order of first
/// appearance. Then checks whether one of them is now solved, and gives back
/// the first such level: the solution reached among the visited levels.
pub fn reveal_mystery_colors_in_already_visited(
    max_revealed_bottle_state: &Vec<Bottle>,
    already_visited_states: &mut Vec<Vec<Bottle>>,
) -> (r: Option<Vec<Bottle>>)
    ensures
        match r {
            Some(l) => exists|k: int|
                0 <= k < final(already_visited_states)@.len() && levels_v(final(already_visited_states)@)[k]
                    == fills_v(l@) && all_done(fills_v(l@)) && forall|j: int|
                    0 <= j < k ==> !all_done(#[trigger] levels_v(final(already_visited_states)@)[j]),
            None => forall|k: int|
                0 <= k < final(already_visited_states)@.len() ==> !all_done(
                    #[trigger] levels_v(final(already_visited_states)@)[k],
                ),
        },
        levels_v(final(already_visited_states)@).no_duplicates(),
        forall|x: Level|
            levels_v(final(already_visited_states)@).contains(x) <==> exists|k: int|
                0 <= k < old(already_visited_states)@.len() && x == revealed_level(
                    fills_v(#[trigger] old(already_visited_states)@[k]@),
                    fills_v(max_revealed_bottle_state@),
                ),
{
    let ghost m = fills_v(max_revealed_bottle_state@);
    let mut states: Vec<Vec<Bottle>> = Vec::new();
    std::mem::swap(&mut states, already_visited_states);
    let ghost orig = states@;
    let mut out: Vec<Vec<Bottle>> = Vec::new();
    let mut i: usize = 0;
    while i < states.len()
        invariant
            i <= states@.len(),
            states@ == orig,
            m == fills_v(max_revealed_bottle_state@),
            levels_v(out@).no_duplicates(),
            forall|x: Level|
                levels_v(out@).contains(x) <==> exists|k: int|
                    0 <= k < i && x == revealed_level(fills_v(#[trigger] orig[k]@), m),
        decreases states@.len() - i,
    {
        let new_state = reveal_level(&states[i], max_revealed_bottle_state);
        let ghost before = levels_v(out@);
        let ghost x_new = fills_v(new_state@);
        if !contains_level(&out, &new_state) {
            out.push(new_state);
            proof {
                assert(levels_v(out@) =~= before.push(x_new));
                assert forall|a: int, b: int|
                    0 <= a < b < levels_v(out@).len() implies levels_v(out@)[a] != levels_v(
                    out@,
                )[b] by {
                    if b == before.len() {
                        assert(before.contains(levels_v(out@)[a]));
                    }
                }
            }
        }
        proof {
            assert forall|x: Level|
                levels_v(out@).contains(x) <==> exists|k: int|
                    0 <= k < i + 1 && x == revealed_level(fills_v(#[trigger] orig[k]@), m) by {
                if levels_v(out@).contains(x) && !before.contains(x) {
                    let j = choose|j: int| 0 <= j < levels_v(out@).len() && levels_v(out@)[j] == x;
                    if j < before.len() {
                        assert(before[j] == x);
                    }
                    assert(x == x_new);
                    assert(x == revealed_level(fills_v(orig[i as int]@), m));
                }
                if before.contains(x) {
                    let j = choose|j: int| 0 <= j < before.len() && before[j] == x;
                    assert(levels_v(out@)[j] == x);
                }
                if exists|k: int| 0 <= k < i + 1 && x == revealed_level(fills_v(#[trigger] orig[k]@), m) {
                    let k = choose|k: int| 0 <= k < i + 1 && x == revealed_level(fills_v(#[trigger] orig[k]@), m);
                    if k == i {
                        assert(x == x_new);
                        if !before.contains(x) {
                            assert(levels_v(out@)[before.len() as int] == x);
                        } else {
                            let j = choose|j: int| 0 <= j < before.len() && before[j] == x;
                            assert(levels_v(out@)[j] == x);
                        }
                    } else {
                        assert(before.contains(x));
                        let j = choose|j: int| 0 <= j < before.len() && before[j] == x;
                        assert(levels_v(out@)[j] == x);
                    }
                }
            }
        }
        i = i + 1;
    }
    let mut solved: Option<Vec<Bottle>> = None;
    let mut k: usize = 0;
    while k < out.len()
        invariant_except_break
            solved is None,
        invariant
            k <= out@.len(),
            forall|j: int| 0 <= j < k ==> !all_done(#[trigger] levels_v(out@)[j]),
        ensures
            match solved {
                Some(l) => k < out@.len() && levels_v(out@)[k as int] == fills_v(l@) && all_done(
                    fills_v(l@),
                ),
                None => k == out@.len(),
            },
            forall|j: int| 0 <= j < k ==> !all_done(#[trigger] levels_v(out@)[j]),
        decreases out@.len() - k,
    {
        if all_solved_or_empty(&out[k]) {
            solved = Some(copy_level(&out[k]));
            break;
        }
        k = k + 1;
    }
    std::mem::swap(&mut out, already_visited_states);
    solved
}

/// The revealed layers of a bottle after comparing with the current bottle:
/// each mystery layer takes the current colour at its height.
pub open spec fn improved_layers(rv: Seq<BottleColor>, cur: Seq<BottleColor>) -> Seq<BottleColor> {
    Seq::new(
        rv.len(),
        |j: int|
            if j < cur.len() && rv[j] == BottleColor::Mystery {
                cur[j]
            } else {
                rv[j]
            },
    )
}

/// Improves the most revealed state with what the current bottles show, over
/// the bottles that both have.
pub fn improve_best_revealed_state(
    initial_revealed_bottle_state: &mut Vec<Bottle>,
    current_bottles: &Vec<Bottle>,
)
    ensures
        final(initial_revealed_bottle_state)@.len() == old(initial_revealed_bottle_state)@.len(),
        forall|i: int|
            0 <= i < old(initial_revealed_bottle_state)@.len() ==> (#[trigger] final(initial_revealed_bottle_state)@[i]).fills@ == if i < current_bottles@.len() {
                improved_layers(old(initial_revealed_bottle_state)@[i].fills@, current_bottles@[i].fills@)
            } else {
                old(initial_revealed_bottle_state)@[i].fills@
            },
{
    let ghost orig = initial_revealed_bottle_state@;
    let n = if initial_revealed_bottle_state.len() <= current_bottles.len() {
        initial_revealed_bottle_state.len()
    } else {
        current_bottles.len()
    };
    let mut i: usize = 0;
    while i < n
        invariant
            i <= n,
            n <= orig.len(),
            n <= current_bottles@.len(),
            n == orig.len() || n == current_bottles@.len(),
            initial_revealed_bottle_state@.len() == orig.len(),
            forall|k: int|
                0 <= k < i ==> (#[trigger] initial_revealed_bottle_state@[k]).fills@ == improved_layers(
                    orig[k].fills@,
                    current_bottles@[k].fills@,
                ),
            forall|k: int| i <= k < orig.len() ==> (#[trigger] initial_revealed_bottle_state@[k]) == orig[k],
        decreases n - i,
    {
        let rv = initial_revealed_bottle_state[i].get_fills();
        let cur = current_bottles[i].get_fills();
        let mut fills: Vec<BottleColor> = Vec::new();
        let mut j: usize = 0;
        while j < rv.len()
            invariant
                j <= rv@.len(),
                fills@ == improved_layers(rv@, cur@).subrange(0, j as int),
            decreases rv@.len() - j,
        {
            let c = if j < cur.len() && rv[j] == BottleColor::Mystery {
                cur[j]
            } else {
                rv[j]
            };
            fills.push(c);
            proof {
                assert(fills@ =~= improved_layers(rv@, cur@).subrange(0, j + 1));
            }
            j = j + 1;
        }
        proof {
            assert(fills@ =~= improved_layers(rv@, cur@));
        }
        initial_revealed_bottle_state.set(i, Bottle::from_fills(fills));
        i = i + 1;
    }
}

/// Improving a revealed bottle never adds a mystery layer.
pub proof fn lemma_improving_adds_no_mystery(rv: Seq<BottleColor>, cur: Seq<BottleColor>)
    ensures
        mystery_count(improved_layers(rv, cur)) <= mystery_count(rv),
        improved_layers(rv, cur).len() == rv.len(),
    decreases rv.len(),
{
    if rv.len() > 0 {
        let t = improved_layers(rv, cur);
        lemma_improving_adds_no_mystery(rv.drop_last(), cur);
        assert(t.drop_last() =~= improved_layers(rv.drop_last(), cur));
    }
}

} // verus!
