//! Replaying a recorded level: finding it in the manifest, solving it from the
//! state seen at its start, and where the window that shows it puts each
//! bottle. The window has a title band, then up to seven bottles to a row,
//! each 54 by 150 pixels, 14 pixels apart across and 18 down.
use vstd::prelude::*;

use crate::bottle::Bottle;
use crate::capture::{DiscoveryCaptureManifest, DiscoveryLevelCapture};
use crate::position::Pos;
use crate::rules::{all_done, state_v, unlock_solved};
use crate::solver::{
    level_fits, moves_v, replay, run_solver_with_progress, search_exhausted, solver_start, valid_path,
    Move, MoveView, SearchGoal, SearchObserver, StateFilter,
};
use crate::bottle::BottleView;
use crate::reach::plain_level;

verus! {

/// The position in the manifest of the first level numbered `level_id`, if
/// there is one.
pub fn find_level(manifest: &DiscoveryCaptureManifest, level_id: u64) -> (r: Option<usize>)
    ensures
        match r {
            Some(i) => i < manifest.levels@.len() && manifest.levels@[i as int].id == level_id
                && forall|j: int| 0 <= j < i ==> #[trigger] manifest.levels@[j].id != level_id,
            None => forall|j: int|
                0 <= j < manifest.levels@.len() ==> #[trigger] manifest.levels@[j].id != level_id,
        },
{
    let mut i: usize = 0;
    while i < manifest.levels.len()
        invariant
            i <= manifest.levels@.len(),
            forall|j: int| 0 <= j < i ==> #[trigger] manifest.levels@[j].id != level_id,
        decreases manifest.levels@.len() - i,
    {
        if manifest.levels[i].id == level_id {
            return Some(i);
        }
        i = i + 1;
    }
    None
}

/// Bottles to a row: as many as there are, between one and seven.
pub open spec fn replay_columns(n: nat) -> nat {
    if n < 1 {
        1
    } else if n > 7 {
        7
    } else {
        n
    }
}

/// Rows of bottles: `n` divided by the columns, rounded up.
pub open spec fn replay_rows(n: nat) -> nat {
    if n == 0 {
        0
    } else if n <= 7 {
        1
    } else {
        ((n + 6) / 7) as nat
    }
}

/// The width the bottles need: 18 pixels on each side.
pub open spec fn replay_width(n: nat) -> int {
    36 + replay_columns(n) * 54 + (replay_columns(n) - 1) * 14
}

/// The height the title and the bottles need: 68 pixels of title, 24 above
/// and below.
pub open spec fn replay_height(n: nat) -> int {
    116 + replay_rows(n) * 150 + (if replay_rows(n) > 0 {
        replay_rows(n) - 1
    } else {
        0
    }) * 18
}

proof fn lemma_rows_bound(n: nat, i: int)
    requires
        0 <= i < n,
    ensures
        i / (replay_columns(n) as int) < replay_rows(n),
        i % (replay_columns(n) as int) < 7,
{
    if n <= 7 {
        assert(i / (n as int) == 0) by (nonlinear_arith)
            requires
                0 <= i < n,
        ;
    }
}

/// The window's size for `bottle_count` bottles: the size they need, at least
/// 360 by 280 pixels.
pub fn preview_size(bottle_count: usize) -> (r: (usize, usize))
    requires
        replay_height(bottle_count as nat) <= usize::MAX,
    ensures
        r.0 == (if replay_width(bottle_count as nat) > 360 {
            replay_width(bottle_count as nat)
        } else {
            360
        }),
        r.1 == (if replay_height(bottle_count as nat) > 280 {
            replay_height(bottle_count as nat)
        } else {
            280
        }),
{
    let n = bottle_count;
    let columns: usize = if n < 1 {
        1
    } else if n > 7 {
        7
    } else {
        n
    };
    let rows: usize = if n == 0 {
        0
    } else if n <= 7 {
        1
    } else {
        n / 7 + if n % 7 == 0 {
            0
        } else {
            1
        }
    };
    assert(rows == replay_rows(n as nat));
    let width = 36 + columns * 54 + (columns - 1) * 14;
    let gaps: usize = if rows > 0 {
        rows - 1
    } else {
        0
    };
    let height = 116 + rows * 150 + gaps * 18;
    (if width > 360 {
        width
    } else {
        360
    }, if height > 280 {
        height
    } else {
        280
    })
}

/// Whether the window for `bottle_count` bottles is at most `i32::MAX` pixels
/// high.
pub fn replay_fits(bottle_count: usize) -> (r: bool)
    ensures
        r == (replay_height(bottle_count as nat) <= i32::MAX),
{
    let n = bottle_count as u128;
    let rows: u128 = if n == 0 {
        0
    } else if n <= 7 {
        1
    } else {
        n / 7 + if n % 7 == 0 {
            0
        } else {
            1
        }
    };
    assert(rows == replay_rows(bottle_count as nat));
    let gaps: u128 = if rows > 0 {
        rows - 1
    } else {
        0
    };
    116 + rows * 150 + gaps * 18 <= i32::MAX as u128
}

/// `p` is the top left corner of bottle `i` of `n`.
pub open spec fn is_replay_origin(p: Pos, n: nat, i: int) -> bool {
    &&& p.0 == 18 + (i % (replay_columns(n) as int)) * 68
    &&& p.1 == 86 + (i / (replay_columns(n) as int)) * 168
}

/// The top left corner of each of `bottle_count` bottles, row by row.
pub fn replay_bottle_origins(bottle_count: usize) -> (r: Vec<Pos>)
    requires
        replay_height(bottle_count as nat) <= i32::MAX,
    ensures
        r@.len() == bottle_count,
        forall|i: int| 0 <= i < bottle_count ==> is_replay_origin(#[trigger] r@[i], bottle_count as nat, i),
{
    let n = bottle_count;
    let columns: usize = if n < 1 {
        1
    } else if n > 7 {
        7
    } else {
        n
    };
    let mut out: Vec<Pos> = Vec::new();
    let mut i: usize = 0;
    while i < n
        invariant
            n == bottle_count,
            columns == replay_columns(n as nat),
            replay_height(n as nat) <= i32::MAX,
            i <= n,
            out@.len() == i,
            forall|k: int| 0 <= k < i ==> is_replay_origin(#[trigger] out@[k], n as nat, k),
        decreases n - i,
    {
        proof {
            lemma_rows_bound(n as nat, i as int);
        }
        let column = (i % columns) as i32;
        let row = (i / columns) as i32;
        out.push(Pos(18 + column * 68, 86 + row * 168));
        i = i + 1;
    }
    out
}

/// The level the solver starts from for the bottles `initial`, with the
/// colours `resolved` the level turned out to hold.
pub open spec fn replay_start(resolved: Seq<Bottle>, initial: Seq<Bottle>) -> Seq<
    crate::bottle::BottleView,
> {
    unlock_solved(solver_start(resolved, initial))
}

/// `moves` solve the level from `s`.
pub open spec fn solves_from(s: Seq<crate::bottle::BottleView>, moves: Seq<Move>) -> bool {
    valid_path(s, moves_v(moves), StateFilter::Any) && all_done(replay(s, moves_v(moves)))
}

/// Solves a recorded level: from the bottles seen at its start, with the
/// colours it turned out to hold; where no solution is found that way, from
/// the resolved bottles themselves. Each explored state is reported to
/// `on_progress`.
pub fn solve_recorded_level<O: SearchObserver>(
    resolved: &Vec<Bottle>,
    expected: &Vec<Bottle>,
    on_progress: &mut O,
) -> (r: Option<Vec<Move>>)
    requires
        level_fits(state_v(resolved@)),
    ensures
        (all_done(replay_start(resolved@, expected@)) || all_done(
            replay_start(resolved@, resolved@),
        )) ==> r is Some,
        r matches Some(moves) ==> solves_from(replay_start(resolved@, expected@), moves@)
            || solves_from(replay_start(resolved@, resolved@), moves@),
        r matches Some(moves) ==> (solves_from(replay_start(resolved@, expected@), moves@) && plain_level(
            solver_start(resolved@, expected@),
        ) ==> forall|ms: Seq<MoveView>|
            #![trigger replay(replay_start(resolved@, expected@), ms)]
            valid_path(replay_start(resolved@, expected@), ms, StateFilter::Any) && all_done(
                replay(replay_start(resolved@, expected@), ms),
            ) ==> moves@.len() <= ms.len()),
        r is None ==> exists|explored: Seq<(Seq<BottleView>, nat)>|
            search_exhausted(explored, replay_start(resolved@, expected@), SearchGoal::AllSolved, StateFilter::Any),
        r is None ==> exists|explored: Seq<(Seq<BottleView>, nat)>|
            search_exhausted(explored, replay_start(resolved@, resolved@), SearchGoal::AllSolved, StateFilter::Any),
        r is None && plain_level(solver_start(resolved@, expected@)) ==> forall|ms: Seq<MoveView>|
            #![trigger replay(replay_start(resolved@, expected@), ms)]
            valid_path(replay_start(resolved@, expected@), ms, StateFilter::Any) ==> !all_done(
                replay(replay_start(resolved@, expected@), ms),
            ),
        r is None && plain_level(solver_start(resolved@, resolved@)) ==> forall|ms: Seq<MoveView>|
            #![trigger replay(replay_start(resolved@, resolved@), ms)]
            valid_path(replay_start(resolved@, resolved@), ms, StateFilter::Any) ==> !all_done(
                replay(replay_start(resolved@, resolved@), ms),
            ),
{
    let first = run_solver_with_progress(resolved, expected, on_progress);
    if first.is_some() {
        return first;
    }
    let second = run_solver_with_progress(resolved, resolved, on_progress);
    proof {
        if second is None {
            let t = unlock_solved(solver_start(resolved@, resolved@));
            assert(t == replay_start(resolved@, resolved@));
            assert(exists|explored: Seq<(Seq<BottleView>, nat)>|
                search_exhausted(explored, t, SearchGoal::AllSolved, StateFilter::Any));
        }
    }
    second
}

} // verus!
