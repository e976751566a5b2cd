//! One step of the automatic player: given the phase, the time and what the
//! screen shows, the phase that follows and the commands to run on the device.
use vstd::prelude::*;

use crate::bottle::{v_count, v_solved, Bottle, BottleView};
use crate::discovery::{
    count_hidden_bottles, count_total_mystery_colors, current_after, find_best_discovery_moves,
    find_best_hidden_unlock_moves, hidden_requirements, improve_best_revealed_state,
    improve_current_and_initial_bottles_with_revealed_state, initial_after,
    lemma_improving_keeps_fit, lemma_layer_total_fits, locked_count, mystery_on_top,
    revealed_after, solves_requirement, total_mystery, DiscoverResult,
};
use crate::color::{
    color_distance_sq, next_level_button_color, no_thank_you_rewards_color, retry_button_pos,
    spec_color_distance_sq, start_button_pos, Bgr, BottleColor, COLOR_DISTANCE_THRESHOLD_SQ,
};
use crate::player::{
    after, app_state_ok, gives, phase_trigger, is_final_solve, is_hidden_discover, is_hidden_execute,
    is_mystery_discover, is_mystery_execute, is_solving, later, move_satisfies_hidden_requirement,
    unlocks_hidden, next_level_button_positions, next_state,
    no_thank_you_positions, observation_ok, AppState, Command, Observation, PlayerError,
    StepResult, BOTTLE_DETECTION_RETRIES, BOTTLE_DETECTION_RETRY_DELAY, NEXT_LEVEL_WAIT,
    START_WAIT, DISCOVERY_MOVE_DELAY, POST_DETECTION_WAIT, HIDDEN_REVEAL_DETECTION_DELAY,
    MOVE_DELAY, NO_THANK_YOU_REWARDS_WAIT,
};
use crate::position::Pos;
use crate::rules::{all_done, move_ok, state_v, unlock_solved};
use crate::solver::{
    copy_bottles, filter_ok, level_fits, moves_v, replay, run_solver_with_progress, solver_start,
    valid_path, Move, MoveView, SearchObserver, StateFilter,
};

verus! {

/// The detection of an observation, by the views of the bottles.
pub open spec fn seen(d: Option<(Vec<Bottle>, Vec<BottleColor>)>) -> Option<
    (Seq<BottleView>, Seq<BottleColor>),
> {
    match d {
        Some(x) => Some((state_v(x.0@), x.1@)),
        None => None,
    }
}

/// The game was restarted and the player waits for the start button.
pub open spec fn restarted(r: StepResult, now: u64) -> bool {
    &&& gives(r, seq![Command::RestartApp])
    &&& next_state(r) == AppState::WaitingToPressStart { trigger_at: later(now, START_WAIT) }
}

/// The pixel shows the next-level button.
pub open spec fn shows_next_level(p: Bgr) -> bool {
    spec_color_distance_sq(p, (0x39u8, 0xceu8, 0xb2u8)) <= 2500
}

/// Where to press for the next level: the first position whose pixel shows the
/// button, or the first position when none does.
pub open spec fn next_level_choice(px: Seq<Bgr>) -> Pos {
    if px.len() > 0 && shows_next_level(px[0]) {
        Pos(184, 604)
    } else if px.len() > 1 && shows_next_level(px[1]) {
        Pos(184, 675)
    } else {
        Pos(184, 604)
    }
}

/// The pixel shows the reward popup.
pub open spec fn shows_no_thank_you(p: Bgr) -> bool {
    spec_color_distance_sq(p, (0xb1u8, 0xdcu8, 0xfbu8)) < 2500
}

/// Some pixel at the positions of the reward popup shows it.
pub open spec fn rewards_shown(px: Seq<Bgr>) -> bool {
    exists|i: int| 0 <= i < 2 && i < px.len() && shows_no_thank_you(#[trigger] px[i])
}

/// Where to press for the next level, given the pixels at
/// `next_level_button_positions()`.
pub fn next_level_button(pixels: &Vec<Bgr>) -> (r: Pos)
    ensures
        r == next_level_choice(pixels@),
{
    let positions = next_level_button_positions();
    let target = next_level_button_color();
    let mut i: usize = 0;
    while i < positions.len() && i < pixels.len()
        invariant
            i <= 2,
            positions@ == seq![Pos(184, 604), Pos(184, 675)],
            target == (0x39u8, 0xceu8, 0xb2u8),
            forall|k: int| 0 <= k < i ==> k < pixels@.len() && !shows_next_level(#[trigger] pixels@[k]),
        decreases 2 - i,
    {
        if color_distance_sq(&pixels[i], &target) <= COLOR_DISTANCE_THRESHOLD_SQ {
            return positions[i];
        }
        i = i + 1;
    }
    positions[0]
}

/// Whether the reward popup shows, given the pixels at
/// `no_thank_you_positions()`.
pub fn rewards_popup_shown(pixels: &Vec<Bgr>) -> (r: bool)
    ensures
        r == rewards_shown(pixels@),
{
    let positions = no_thank_you_positions();
    let target = no_thank_you_rewards_color();
    let mut i: usize = 0;
    while i < positions.len() && i < pixels.len()
        invariant
            i <= 2,
            positions@.len() == 2,
            target == (0xb1u8, 0xdcu8, 0xfbu8),
            forall|k: int| 0 <= k < i ==> !shows_no_thank_you(#[trigger] pixels@[k]),
        decreases 2 - i,
    {
        if color_distance_sq(&pixels[i], &target) < COLOR_DISTANCE_THRESHOLD_SQ {
            proof {
                assert(shows_no_thank_you(pixels@[i as int]));
            }
            return true;
        }
        i = i + 1;
    }
    false
}

/// How long to wait after a move before looking again: longer when the move
/// solves a colour that a hidden bottle waits for.
pub open spec fn reveal_delay(cur: Seq<BottleView>, m: MoveView) -> u64 {
    if unlocks_hidden(cur, m) {
        HIDDEN_REVEAL_DETECTION_DELAY
    } else {
        DISCOVERY_MOVE_DELAY
    }
}

/// After the detection, the player solves a level without mystery layers and
/// hidden bottles right away, discovers mystery colours first when there are
/// some, and hidden bottles otherwise.
pub open spec fn plan_spec(now: u64, b: Seq<BottleView>, kc: Seq<BottleColor>, r: StepResult) -> bool {
    let m = total_mystery(b);
    let h = locked_count(b);
    &&& gives(r, Seq::empty())
    &&& if m == 0 && h == 0 {
        is_solving(next_state(r), b, b, kc, false)
    } else if m > 0 {
        is_mystery_discover(next_state(r), now, b, kc, b, Seq::empty(), false, BOTTLE_DETECTION_RETRIES)
    } else {
        is_hidden_discover(
            next_state(r),
            now,
            b,
            kc,
            b,
            Seq::empty(),
            false,
            false,
            BOTTLE_DETECTION_RETRIES,
        )
    }
}

/// The solver ran on the most revealed state and the state at the level's
/// start: its moves are played next, after the retry button was pressed when
/// asked, and on a plain level no sequence of moves solves it in fewer; with
/// no solution the player stops, after a search that explored every level it
/// could reach, and then, on a plain level, no sequence of moves solves it.
pub open spec fn solving_spec(
    now: u64,
    max: Seq<Bottle>,
    init: Seq<Bottle>,
    kc: Seq<BottleColor>,
    retry: bool,
    r: StepResult,
) -> bool {
    let s0 = unlock_solved(solver_start(max, init));
    &&& r matches Err(e) ==> e == PlayerError::NoSolution
    &&& r matches Ok(x) ==> {
        &&& x.1@ == if retry {
            seq![Command::Click(Pos(324, 57))]
        } else {
            Seq::empty()
        }
        &&& x.0 matches AppState::ExecuteFinalSolveMoves {
            next_move_at,
            planned_moves,
            performed_moves,
            known_colors,
        }
        &&& next_move_at == later(now, MOVE_DELAY)
        &&& performed_moves == 0
        &&& known_colors@ == kc
        &&& valid_path(s0, moves_v(planned_moves@), StateFilter::Any)
        &&& all_done(replay(s0, moves_v(planned_moves@)))
        &&& crate::reach::plain_level(solver_start(max, init)) ==> forall|ms: Seq<MoveView>|
            #![trigger replay(s0, ms)]
            valid_path(s0, ms, StateFilter::Any) && all_done(replay(s0, ms)) ==> planned_moves@.len()
                <= ms.len()
    }
    &&& all_done(s0) ==> (r matches Ok(x) && x.0 matches AppState::ExecuteFinalSolveMoves {
        planned_moves,
        ..
    } && planned_moves@.len() == 0)
    &&& r is Err && crate::reach::plain_level(solver_start(max, init)) ==> forall|ms: Seq<MoveView>|
        #![trigger replay(s0, ms)]
        valid_path(s0, ms, StateFilter::Any) ==> !all_done(replay(s0, ms))
    &&& r is Err ==> exists|explored: Seq<(Seq<BottleView>, nat)>|
        crate::solver::search_exhausted(explored, s0, crate::solver::SearchGoal::AllSolved, StateFilter::Any)
}

/// The next move of the plan is played, after waiting longer when it solves a
/// colour that a hidden bottle waits for in the bottles detected; once all are
/// played, the player looks for the reward popup.
pub open spec fn final_spec(
    now: u64,
    planned: Seq<Move>,
    performed: usize,
    kc: Seq<BottleColor>,
    d: Option<(Seq<BottleView>, Seq<BottleColor>)>,
    r: StepResult,
) -> bool {
    if performed >= planned.len() {
        gives(r, Seq::empty()) && next_state(r) == AppState::CheckForRewards {
            trigger_at: later(now, NO_THANK_YOU_REWARDS_WAIT),
        }
    } else {
        let m = planned[performed as int];
        let wait = match d {
            Some(x) => unlocks_hidden(x.0, m@),
            None => false,
        };
        let colors = match d {
            Some(x) => x.1,
            None => kc,
        };
        &&& gives(r, seq![Command::PerformMove(m)])
        &&& is_final_solve(
            next_state(r),
            later(
                now,
                if wait {
                    HIDDEN_REVEAL_DETECTION_DELAY
                } else {
                    MOVE_DELAY
                },
            ),
            planned,
            (performed + 1) as usize,
            colors,
        )
    }
}

/// Hidden-bottle discovery with nothing that must be decided first: the
/// search for a short sequence of moves that solve a colour a hidden bottle
/// waits for.
/// When such a colour is solved already the player waits for the reveal; a
/// found sequence is executed; otherwise the level is retried once, and after
/// that the player goes back to mystery discovery or retries again.
pub open spec fn hidden_search_spec(
    now: u64,
    cur: Seq<BottleView>,
    max: Seq<BottleView>,
    kc: Seq<BottleColor>,
    init: Seq<BottleView>,
    cm: Seq<Move>,
    force: bool,
    retried: bool,
    r: StepResult,
) -> bool {
    let reqs = hidden_requirements(cur);
    let s0 = unlock_solved(cur);
    let next = next_state(r);
    if reqs.is_empty() || solves_requirement(cur, reqs) {
        gives(r, Seq::empty()) && is_hidden_discover(
            next,
            later(now, DISCOVERY_MOVE_DELAY),
            max,
            kc,
            init,
            cm,
            force,
            retried,
            BOTTLE_DETECTION_RETRIES,
        )
    } else if next is HiddenExecuteDiscoverMove {
        let ms = next->HiddenExecuteDiscoverMove_moves_to_execute@;
        &&& gives(r, Seq::empty())
        &&& is_hidden_execute(
            next,
            now,
            max,
            init,
            kc,
            ms,
            cm,
            force,
            retried,
            BOTTLE_DETECTION_RETRIES,
        )
        &&& valid_path(s0, moves_v(ms), StateFilter::Any)
        &&& ms.len() > 0
        &&& solves_requirement(replay(s0, moves_v(ms)), reqs)
    } else if retried && total_mystery(max) > 0 {
        gives(r, Seq::empty()) && is_mystery_discover(
            next,
            now,
            init,
            kc,
            max,
            Seq::empty(),
            true,
            BOTTLE_DETECTION_RETRIES,
        )
    } else {
        gives(r, seq![Command::Click(Pos(324, 57))]) && is_hidden_discover(
            next,
            later(now, DISCOVERY_MOVE_DELAY),
            max,
            kc,
            init,
            Seq::empty(),
            force,
            !retried,
            BOTTLE_DETECTION_RETRIES,
        )
    }
}

/// Hidden-bottle discovery on the detected bottles: the current and initial
/// bottles are improved with the most revealed state, then the most revealed
/// state with them. With no hidden bottle left the player discovers mystery
/// colours or, with none, presses retry and solves; while mystery colours
/// remain and hidden discovery is not forced it discovers them first;
/// otherwise it searches as `hidden_search_spec` says.
pub open spec fn hidden_scan_spec(
    now: u64,
    max: Seq<BottleView>,
    init: Seq<BottleView>,
    cm: Seq<Move>,
    force: bool,
    retried: bool,
    cur: Seq<BottleView>,
    kc: Seq<BottleColor>,
    r: StepResult,
) -> bool {
    let cur1 = current_after(cur, max);
    let init1 = initial_after(init, max);
    let max1 = revealed_after(max, init1, cur1);
    let m = total_mystery(max1);
    let h = locked_count(max1);
    if m > 0 && (h == 0 || !force) {
        gives(r, Seq::empty()) && is_mystery_discover(
            next_state(r),
            now,
            init1,
            kc,
            max1,
            Seq::empty(),
            false,
            BOTTLE_DETECTION_RETRIES,
        )
    } else if h == 0 {
        gives(r, seq![Command::Click(Pos(324, 57))]) && is_solving(
            next_state(r),
            max1,
            init1,
            kc,
            false,
        )
    } else {
        hidden_search_spec(now, cur1, max1, kc, init1, cm, force, retried, r)
    }
}

/// Every bottle of the level is solved or empty.
pub open spec fn all_clear(s: Seq<BottleView>) -> bool {
    forall|i: int| 0 <= i < s.len() ==> v_solved(#[trigger] s[i]) || v_count(s[i]) == 0
}

/// Mystery discovery on the detected bottles: the most revealed state is
/// improved with them, then the current and initial bottles with it. With no
/// mystery layer left the player turns to the hidden bottles or solves, and
/// presses retry after solving; otherwise it searches for a short sequence of
/// moves that put a mystery layer on top, through states that keep hidden bottles
/// hidden. A level already clear goes on to the rewards, or to the hidden
/// bottles; with no such moves the level is retried once, and after that
/// hidden discovery is forced.
pub open spec fn mystery_scan_spec(
    now: u64,
    init: Seq<BottleView>,
    max: Seq<BottleView>,
    cm: Seq<Move>,
    retried: bool,
    cur: Seq<BottleView>,
    kc: Seq<BottleColor>,
    r: StepResult,
) -> bool {
    let max1 = revealed_after(max, init, cur);
    let cur1 = current_after(cur, max1);
    let init1 = initial_after(init, max1);
    let m = total_mystery(max1);
    let h = locked_count(max1);
    let next = next_state(r);
    if (m == 0 || all_clear(max1)) && h > 0 {
        gives(r, Seq::empty()) && is_hidden_discover(
            next,
            now,
            max1,
            kc,
            init1,
            cm,
            false,
            false,
            BOTTLE_DETECTION_RETRIES,
        )
    } else if m == 0 {
        gives(r, Seq::empty()) && is_solving(next, max1, init1, kc, true)
    } else if all_clear(max1) {
        gives(r, Seq::empty()) && next == AppState::CheckForRewards {
            trigger_at: later(now, NEXT_LEVEL_WAIT),
        }
    } else if next is MysteryExecuteDiscoverMove {
        let ms = next->MysteryExecuteDiscoverMove_moves_to_execute@;
        let s0 = unlock_solved(cur1);
        &&& gives(r, Seq::empty())
        &&& is_mystery_execute(next, now, ms, init1, kc, max1, cm, retried, BOTTLE_DETECTION_RETRIES)
        &&& filter_ok(StateFilter::KeepHiddenCount, cur1, s0)
        &&& valid_path(s0, moves_v(ms), StateFilter::KeepHiddenCount)
        &&& ms.len() > 0
        &&& mystery_on_top(replay(s0, moves_v(ms)))
    } else if retried {
        gives(r, Seq::empty()) && is_hidden_discover(
            next,
            now,
            max1,
            kc,
            init1,
            Seq::empty(),
            true,
            false,
            BOTTLE_DETECTION_RETRIES,
        )
    } else {
        gives(r, seq![Command::Click(Pos(324, 57))]) && is_mystery_discover(
            next,
            later(now, DISCOVERY_MOVE_DELAY),
            init1,
            kc,
            max1,
            Seq::empty(),
            true,
            BOTTLE_DETECTION_RETRIES,
        )
    }
}

/// A discovery move is played: the first planned move, when it can be played
/// on the bottles detected; the player stops when it cannot.
pub open spec fn execute_move_ok(cur: Seq<BottleView>, ms: Seq<Move>, r: StepResult) -> bool {
    &&& ms.len() > 0
    &&& move_ok(cur, ms[0]@.0 as int, ms[0]@.2 as int)
    &&& gives(r, seq![Command::PerformMove(ms[0])])
}

/// Executing hidden-bottle discovery moves on the detected bottles: the most
/// revealed state is improved with them; with no move left the player scans
/// again, otherwise it plays the next move and waits for it.
pub open spec fn hidden_execute_spec(
    now: u64,
    max: Seq<BottleView>,
    init: Seq<BottleView>,
    kc: Seq<BottleColor>,
    ms: Seq<Move>,
    cm: Seq<Move>,
    force: bool,
    retried: bool,
    rr: u8,
    d: Option<(Seq<BottleView>, Seq<BottleColor>)>,
    r: StepResult,
) -> bool {
    match d {
        None => if rr == 0 {
            r == Err::<(AppState, Vec<Command>), PlayerError>(PlayerError::DetectionFailed)
        } else {
            gives(r, Seq::empty()) && is_hidden_execute(
                next_state(r),
                later(now, BOTTLE_DETECTION_RETRY_DELAY),
                max,
                init,
                kc,
                ms,
                cm,
                force,
                retried,
                (rr - 1) as u8,
            )
        },
        Some(x) => {
            let cur = x.0;
            let max1 = revealed_after(max, init, cur);
            if ms.len() == 0 {
                gives(r, Seq::empty()) && is_hidden_discover(
                    next_state(r),
                    now,
                    max1,
                    x.1,
                    init,
                    cm,
                    force,
                    retried,
                    BOTTLE_DETECTION_RETRIES,
                )
            } else if !move_ok(cur, ms[0]@.0 as int, ms[0]@.2 as int) {
                r == Err::<(AppState, Vec<Command>), PlayerError>(PlayerError::MoveNotPossible)
            } else {
                &&& execute_move_ok(cur, ms, r)
                &&& is_hidden_execute(
                    next_state(r),
                    later(now, reveal_delay(cur, ms[0]@)),
                    max1,
                    init,
                    x.1,
                    ms.drop_first(),
                    cm.push(ms[0]),
                    force,
                    retried,
                    rr,
                )
            }
        },
    }
}

/// Executing mystery discovery moves on the detected bottles: with no move
/// left the player scans again, otherwise it plays the next move and waits
/// for it.
pub open spec fn mystery_execute_spec(
    now: u64,
    ms: Seq<Move>,
    init: Seq<BottleView>,
    kc: Seq<BottleColor>,
    max: Seq<BottleView>,
    cm: Seq<Move>,
    retried: bool,
    rr: u8,
    d: Option<(Seq<BottleView>, Seq<BottleColor>)>,
    r: StepResult,
) -> bool {
    match d {
        None => if rr == 0 {
            r == Err::<(AppState, Vec<Command>), PlayerError>(PlayerError::DetectionFailed)
        } else {
            gives(r, Seq::empty()) && is_mystery_execute(
                next_state(r),
                later(now, BOTTLE_DETECTION_RETRY_DELAY),
                ms,
                init,
                kc,
                max,
                cm,
                retried,
                (rr - 1) as u8,
            )
        },
        Some(x) => {
            let cur = x.0;
            if ms.len() == 0 {
                gives(r, Seq::empty()) && is_mystery_discover(
                    next_state(r),
                    now,
                    init,
                    x.1,
                    max,
                    cm,
                    retried,
                    BOTTLE_DETECTION_RETRIES,
                )
            } else if !move_ok(cur, ms[0]@.0 as int, ms[0]@.2 as int) {
                r == Err::<(AppState, Vec<Command>), PlayerError>(PlayerError::MoveNotPossible)
            } else {
                &&& execute_move_ok(cur, ms, r)
                &&& is_mystery_execute(
                    next_state(r),
                    later(now, reveal_delay(cur, ms[0]@)),
                    ms.drop_first(),
                    init,
                    x.1,
                    max,
                    cm.push(ms[0]),
                    retried,
                    rr,
                )
            }
        },
    }
}

/// The phase acts at `now`: its time has come, the solver always runs at
/// once, and the final moves end at once when all were played.
pub open spec fn due(s: AppState, now: u64) -> bool {
    match s {
        AppState::Solving { .. } => true,
        AppState::ExecuteFinalSolveMoves { next_move_at, planned_moves, performed_moves, .. } => {
            performed_moves >= planned_moves@.len() || now >= next_move_at
        },
        _ => now >= phase_trigger(s)->0,
    }
}

/// The phase waits for the bottles detected, with these colours known.
pub open spec fn is_awaiting(s: AppState, t: u64, b: Seq<BottleView>, kc: Seq<BottleColor>) -> bool {
    &&& s matches AppState::AwaitPostDetectionPlan { trigger_at, detected_bottles, known_colors }
    &&& trigger_at == t
    &&& state_v(detected_bottles@) == b
    &&& known_colors@ == kc
}

/// What one step of the player does. A phase whose time has not come stays
/// as it is and does nothing. Otherwise: the start button is pressed and the
/// bottles are detected after the next-level wait; the next-level button is
/// pressed where it shows, then the retry button; a detection that failed is
/// tried again a second later while retries remain, and then the game is
/// restarted; a detection leads to the plan of `plan_spec`; the discovery
/// phases do as their specs say; the solver runs; the final moves are played
/// one by one; the reward popup is declined when it shows, before the next
/// level.
pub open spec fn step_spec(s: AppState, now: u64, obs: Observation, r: StepResult) -> bool {
    let d = seen(obs.detection);
    if !due(s, now) {
        gives(r, Seq::empty()) && next_state(r) == s
    } else {
        match s {
            AppState::WaitingToPressStart { .. } => {
                &&& gives(r, seq![Command::Click(Pos(186, 605))])
                &&& next_state(r) == AppState::DetectAndPlan {
                    trigger_at: later(now, NEXT_LEVEL_WAIT),
                    retries_remaining: BOTTLE_DETECTION_RETRIES,
                }
            },
            AppState::ClickNextLevel { .. } => {
                &&& gives(r, seq![Command::Click(next_level_choice(obs.next_level_pixels@))])
                &&& next_state(r) == AppState::ClickRetryOnNewLevel {
                    trigger_at: later(now, NEXT_LEVEL_WAIT),
                }
            },
            AppState::ClickRetryOnNewLevel { .. } => {
                &&& gives(r, seq![Command::Click(Pos(324, 57))])
                &&& next_state(r) == AppState::DetectAndPlan {
                    trigger_at: later(now, DISCOVERY_MOVE_DELAY),
                    retries_remaining: BOTTLE_DETECTION_RETRIES,
                }
            },
            AppState::CheckForRewards { .. } => {
                &&& gives(
                    r,
                    if rewards_shown(obs.no_thank_you_pixels@) {
                        seq![Command::Click(Pos(177, 738))]
                    } else {
                        Seq::empty()
                    },
                )
                &&& next_state(r) == AppState::ClickNextLevel {
                    trigger_at: later(now, NEXT_LEVEL_WAIT),
                }
            },
            AppState::DetectAndPlan { retries_remaining, .. } => match d {
                Some(x) => gives(r, Seq::empty()) && is_awaiting(
                    next_state(r),
                    later(now, POST_DETECTION_WAIT),
                    x.0,
                    x.1,
                ),
                None => if retries_remaining == 0 {
                    restarted(r, now)
                } else {
                    gives(r, Seq::empty()) && next_state(r) == AppState::DetectAndPlan {
                        trigger_at: later(now, BOTTLE_DETECTION_RETRY_DELAY),
                        retries_remaining: (retries_remaining - 1) as u8,
                    }
                },
            },
            AppState::AwaitPostDetectionPlan { detected_bottles, known_colors, .. } => plan_spec(
                now,
                state_v(detected_bottles@),
                known_colors@,
                r,
            ),
            AppState::HiddenDiscoverBottles {
                max_revealed_bottle_state,
                known_colors,
                initial_state,
                current_moves,
                force_hidden_discovery,
                hidden_level_retried,
                retries_remaining,
                ..
            } => match d {
                None => if retries_remaining == 0 {
                    restarted(r, now)
                } else {
                    gives(r, Seq::empty()) && is_hidden_discover(
                        next_state(r),
                        later(now, BOTTLE_DETECTION_RETRY_DELAY),
                        state_v(max_revealed_bottle_state@),
                        known_colors@,
                        state_v(initial_state@),
                        current_moves@,
                        force_hidden_discovery,
                        hidden_level_retried,
                        (retries_remaining - 1) as u8,
                    )
                },
                Some(x) => hidden_scan_spec(
                    now,
                    state_v(max_revealed_bottle_state@),
                    state_v(initial_state@),
                    current_moves@,
                    force_hidden_discovery,
                    hidden_level_retried,
                    x.0,
                    x.1,
                    r,
                ),
            },
            AppState::HiddenExecuteDiscoverMove {
                max_revealed_bottle_state,
                initial_state,
                known_colors,
                moves_to_execute,
                current_moves,
                force_hidden_discovery,
                hidden_level_retried,
                retries_remaining,
                ..
            } => hidden_execute_spec(
                now,
                state_v(max_revealed_bottle_state@),
                state_v(initial_state@),
                known_colors@,
                moves_to_execute@,
                current_moves@,
                force_hidden_discovery,
                hidden_level_retried,
                retries_remaining,
                d,
                r,
            ),
            AppState::MysteryDiscoverColors {
                initial_state,
                known_colors,
                max_revealed_bottle_state,
                current_moves,
                mystery_level_retried,
                retries_remaining,
                ..
            } => match d {
                None => if retries_remaining == 0 {
                    restarted(r, now)
                } else {
                    gives(r, Seq::empty()) && is_mystery_discover(
                        next_state(r),
                        later(now, BOTTLE_DETECTION_RETRY_DELAY),
                        state_v(initial_state@),
                        known_colors@,
                        state_v(max_revealed_bottle_state@),
                        current_moves@,
                        mystery_level_retried,
                        (retries_remaining - 1) as u8,
                    )
                },
                Some(x) => mystery_scan_spec(
                    now,
                    state_v(initial_state@),
                    state_v(max_revealed_bottle_state@),
                    current_moves@,
                    mystery_level_retried,
                    x.0,
                    x.1,
                    r,
                ),
            },
            AppState::MysteryExecuteDiscoverMove {
                moves_to_execute,
                initial_state,
                known_colors,
                max_revealed_bottle_state,
                current_moves,
                mystery_level_retried,
                retries_remaining,
                ..
            } => mystery_execute_spec(
                now,
                moves_to_execute@,
                state_v(initial_state@),
                known_colors@,
                state_v(max_revealed_bottle_state@),
                current_moves@,
                mystery_level_retried,
                retries_remaining,
                d,
                r,
            ),
            AppState::Solving {
                max_revealed_bottle_state,
                initial_state,
                known_colors,
                retry_after_solve,
            } => solving_spec(
                now,
                max_revealed_bottle_state@,
                initial_state@,
                known_colors@,
                retry_after_solve,
                r,
            ),
            AppState::ExecuteFinalSolveMoves {
                planned_moves,
                performed_moves,
                known_colors,
                ..
            } => final_spec(now, planned_moves@, performed_moves, known_colors@, d, r),
        }
    }
}

fn no_commands() -> (r: Vec<Command>)
    ensures
        r@ == Seq::<Command>::empty(),
{
    Vec::new()
}

fn one_command(c: Command) -> (r: Vec<Command>)
    ensures
        r@ == seq![c],
{
    let mut v = Vec::new();
    v.push(c);
    proof {
        assert(v@ =~= seq![c]);
    }
    v
}

fn restart(now: u64) -> (r: StepResult)
    ensures
        restarted(r, now),
{
    Ok(
        (
            AppState::WaitingToPressStart { trigger_at: after(now, START_WAIT) },
            one_command(Command::RestartApp),
        ),
    )
}

fn plan_step(now: u64, detected: Vec<Bottle>, known_colors: Vec<BottleColor>) -> (r: StepResult)
    requires
        level_fits(state_v(detected@)),
    ensures
        plan_spec(now, state_v(detected@), known_colors@, r),
        r matches Ok(x) ==> app_state_ok(x.0),
{
    proof {
        lemma_layer_total_fits(state_v(detected@));
    }
    let mystery_count = count_total_mystery_colors(&detected);
    let hidden_count = count_hidden_bottles(&detected);
    if mystery_count == 0 && hidden_count == 0 {
        let max = copy_bottles(&detected);
        Ok(
            (
                AppState::Solving {
                    max_revealed_bottle_state: max,
                    initial_state: detected,
                    known_colors,
                    retry_after_solve: false,
                },
                no_commands(),
            ),
        )
    } else if mystery_count > 0 {
        let initial_state = copy_bottles(&detected);
        Ok(
            (
                AppState::MysteryDiscoverColors {
                    trigger_at: now,
                    initial_state,
                    known_colors,
                    max_revealed_bottle_state: detected,
                    current_moves: Vec::new(),
                    mystery_level_retried: false,
                    retries_remaining: BOTTLE_DETECTION_RETRIES,
                },
                no_commands(),
            ),
        )
    } else {
        let max = copy_bottles(&detected);
        Ok(
            (
                AppState::HiddenDiscoverBottles {
                    trigger_at: now,
                    max_revealed_bottle_state: max,
                    known_colors,
                    initial_state: detected,
                    current_moves: Vec::new(),
                    force_hidden_discovery: false,
                    hidden_level_retried: false,
                    retries_remaining: BOTTLE_DETECTION_RETRIES,
                },
                no_commands(),
            ),
        )
    }
}

fn solving_step<O: SearchObserver>(
    now: u64,
    max: Vec<Bottle>,
    initial_state: Vec<Bottle>,
    known_colors: Vec<BottleColor>,
    retry_after_solve: bool,
    observer: &mut O,
) -> (r: StepResult)
    requires
        level_fits(state_v(max@)),
    ensures
        solving_spec(now, max@, initial_state@, known_colors@, retry_after_solve, r),
{
    match run_solver_with_progress(&max, &initial_state, observer) {
        Some(solution) => {
            let commands = if retry_after_solve {
                one_command(Command::Click(retry_button_pos()))
            } else {
                no_commands()
            };
            Ok(
                (
                    AppState::ExecuteFinalSolveMoves {
                        next_move_at: after(now, MOVE_DELAY),
                        planned_moves: solution,
                        performed_moves: 0,
                        known_colors,
                    },
                    commands,
                ),
            )
        },
        None => Err(PlayerError::NoSolution),
    }
}

fn final_moves_step(
    now: u64,
    planned_moves: Vec<Move>,
    performed_moves: usize,
    known_colors: Vec<BottleColor>,
    detection: Option<(Vec<Bottle>, Vec<BottleColor>)>,
) -> (r: StepResult)
    requires
        detection matches Some(d) ==> level_fits(state_v(d.0@)),
    ensures
        final_spec(now, planned_moves@, performed_moves, known_colors@, seen(detection), r),
{
    if performed_moves >= planned_moves.len() {
        return Ok(
            (
                AppState::CheckForRewards { trigger_at: after(now, NO_THANK_YOU_REWARDS_WAIT) },
                no_commands(),
            ),
        );
    }
    let next = planned_moves[performed_moves];
    let (use_hidden_reveal_delay, colors) = match detection {
        Some((current_bottles, seen_colors)) => (
            move_satisfies_hidden_requirement(&current_bottles, &next),
            seen_colors,
        ),
        None => (false, known_colors),
    };
    let delay = if use_hidden_reveal_delay {
        HIDDEN_REVEAL_DETECTION_DELAY
    } else {
        MOVE_DELAY
    };
    Ok(
        (
            AppState::ExecuteFinalSolveMoves {
                next_move_at: after(now, delay),
                planned_moves,
                performed_moves: performed_moves + 1,
                known_colors: colors,
            },
            one_command(Command::PerformMove(next)),
        ),
    )
}

fn hidden_discover_step(
    now: u64,
    max: Vec<Bottle>,
    known_colors: Vec<BottleColor>,
    initial_state: Vec<Bottle>,
    current_moves: Vec<Move>,
    force: bool,
    retried: bool,
    retries_remaining: u8,
    detection: Option<(Vec<Bottle>, Vec<BottleColor>)>,
) -> (r: StepResult)
    requires
        level_fits(state_v(max@)),
        level_fits(state_v(initial_state@)),
        detection matches Some(d) ==> level_fits(state_v(d.0@)),
    ensures
        match seen(detection) {
            None => if retries_remaining == 0 {
                restarted(r, now)
            } else {
                gives(r, Seq::empty()) && is_hidden_discover(
                    next_state(r),
                    later(now, BOTTLE_DETECTION_RETRY_DELAY),
                    state_v(max@),
                    known_colors@,
                    state_v(initial_state@),
                    current_moves@,
                    force,
                    retried,
                    (retries_remaining - 1) as u8,
                )
            },
            Some(d) => hidden_scan_spec(
                now,
                state_v(max@),
                state_v(initial_state@),
                current_moves@,
                force,
                retried,
                d.0,
                d.1,
                r,
            ),
        },
        r matches Ok(x) ==> app_state_ok(x.0),
{
    match detection {
        None => {
            if retries_remaining == 0 {
                return restart(now);
            }
            Ok(
                (
                    AppState::HiddenDiscoverBottles {
                        trigger_at: after(now, BOTTLE_DETECTION_RETRY_DELAY),
                        max_revealed_bottle_state: max,
                        known_colors,
                        initial_state,
                        current_moves,
                        force_hidden_discovery: force,
                        hidden_level_retried: retried,
                        retries_remaining: retries_remaining - 1,
                    },
                    no_commands(),
                ),
            )
        },
        Some((current, seen_colors)) => {
            let ghost max0 = state_v(max@);
            let ghost init0 = state_v(initial_state@);
            let ghost cur0 = state_v(current@);
            let mut max = max;
            let mut initial_state = initial_state;
            let mut current = current;
            improve_current_and_initial_bottles_with_revealed_state(
                &mut current,
                &mut initial_state,
                &max,
            );
            proof {
                lemma_improving_keeps_fit(max0, init0, cur0);
            }
            improve_best_revealed_state(&mut max, &initial_state, &current);
            proof {
                lemma_improving_keeps_fit(max0, state_v(initial_state@), state_v(current@));
                lemma_layer_total_fits(state_v(max@));
            }
            let mystery_count = count_total_mystery_colors(&max);
            let hidden_count = count_hidden_bottles(&max);
            if mystery_count > 0 && (hidden_count == 0 || !force) {
                return Ok(
                    (
                        AppState::MysteryDiscoverColors {
                            trigger_at: now,
                            initial_state,
                            known_colors: seen_colors,
                            max_revealed_bottle_state: max,
                            current_moves: Vec::new(),
                            mystery_level_retried: false,
                            retries_remaining: BOTTLE_DETECTION_RETRIES,
                        },
                        no_commands(),
                    ),
                );
            }
            if hidden_count == 0 {
                return Ok(
                    (
                        AppState::Solving {
                            max_revealed_bottle_state: max,
                            initial_state,
                            known_colors: seen_colors,
                            retry_after_solve: false,
                        },
                        one_command(Command::Click(retry_button_pos())),
                    ),
                );
            }
            match find_best_hidden_unlock_moves(&current) {
                DiscoverResult::MoveToDiscover(best_moves) => Ok(
                    (
                        AppState::HiddenExecuteDiscoverMove {
                            trigger_at: now,
                            max_revealed_bottle_state: max,
                            initial_state,
                            known_colors: seen_colors,
                            moves_to_execute: best_moves,
                            current_moves,
                            force_hidden_discovery: force,
                            hidden_level_retried: retried,
                            retries_remaining: BOTTLE_DETECTION_RETRIES,
                        },
                        no_commands(),
                    ),
                ),
                DiscoverResult::NoMove => {
                    if retried && mystery_count > 0 {
                        Ok(
                            (
                                AppState::MysteryDiscoverColors {
                                    trigger_at: now,
                                    initial_state,
                                    known_colors: seen_colors,
                                    max_revealed_bottle_state: max,
                                    current_moves: Vec::new(),
                                    mystery_level_retried: true,
                                    retries_remaining: BOTTLE_DETECTION_RETRIES,
                                },
                                no_commands(),
                            ),
                        )
                    } else {
                        Ok(
                            (
                                AppState::HiddenDiscoverBottles {
                                    trigger_at: after(now, DISCOVERY_MOVE_DELAY),
                                    max_revealed_bottle_state: max,
                                    known_colors: seen_colors,
                                    initial_state,
                                    current_moves: Vec::new(),
                                    force_hidden_discovery: force,
                                    hidden_level_retried: !retried,
                                    retries_remaining: BOTTLE_DETECTION_RETRIES,
                                },
                                one_command(Command::Click(retry_button_pos())),
                            ),
                        )
                    }
                },
                DiscoverResult::AlreadySolved => Ok(
                    (
                        AppState::HiddenDiscoverBottles {
                            trigger_at: after(now, DISCOVERY_MOVE_DELAY),
                            max_revealed_bottle_state: max,
                            known_colors: seen_colors,
                            initial_state,
                            current_moves,
                            force_hidden_discovery: force,
                            hidden_level_retried: retried,
                            retries_remaining: BOTTLE_DETECTION_RETRIES,
                        },
                        no_commands(),
                    ),
                ),
            }
        },
    }
}

fn mystery_discover_step(
    now: u64,
    initial_state: Vec<Bottle>,
    known_colors: Vec<BottleColor>,
    max: Vec<Bottle>,
    current_moves: Vec<Move>,
    retried: bool,
    retries_remaining: u8,
    detection: Option<(Vec<Bottle>, Vec<BottleColor>)>,
) -> (r: StepResult)
    requires
        level_fits(state_v(max@)),
        level_fits(state_v(initial_state@)),
        detection matches Some(d) ==> level_fits(state_v(d.0@)),
    ensures
        match seen(detection) {
            None => if retries_remaining == 0 {
                restarted(r, now)
            } else {
                gives(r, Seq::empty()) && is_mystery_discover(
                    next_state(r),
                    later(now, BOTTLE_DETECTION_RETRY_DELAY),
                    state_v(initial_state@),
                    known_colors@,
                    state_v(max@),
                    current_moves@,
                    retried,
                    (retries_remaining - 1) as u8,
                )
            },
            Some(d) => mystery_scan_spec(
                now,
                state_v(initial_state@),
                state_v(max@),
                current_moves@,
                retried,
                d.0,
                d.1,
                r,
            ),
        },
        r matches Ok(x) ==> app_state_ok(x.0),
{
    match detection {
        None => {
            if retries_remaining == 0 {
                return restart(now);
            }
            Ok(
                (
                    AppState::MysteryDiscoverColors {
                        trigger_at: after(now, BOTTLE_DETECTION_RETRY_DELAY),
                        initial_state,
                        known_colors,
                        max_revealed_bottle_state: max,
                        current_moves,
                        mystery_level_retried: retried,
                        retries_remaining: retries_remaining - 1,
                    },
                    no_commands(),
                ),
            )
        },
        Some((current, seen_colors)) => {
            let ghost max0 = state_v(max@);
            let ghost init0 = state_v(initial_state@);
            let ghost cur0 = state_v(current@);
            let mut max = max;
            let mut initial_state = initial_state;
            let mut current = current;
            improve_best_revealed_state(&mut max, &initial_state, &current);
            proof {
                lemma_improving_keeps_fit(max0, init0, cur0);
            }
            improve_current_and_initial_bottles_with_revealed_state(
                &mut current,
                &mut initial_state,
                &max,
            );
            proof {
                lemma_improving_keeps_fit(state_v(max@), init0, cur0);
                lemma_layer_total_fits(state_v(max@));
            }
            let mystery_count = count_total_mystery_colors(&max);
            if mystery_count == 0 {
                let hidden_count = count_hidden_bottles(&max);
                if hidden_count > 0 {
                    return Ok(
                        (
                            AppState::HiddenDiscoverBottles {
                                trigger_at: now,
                                max_revealed_bottle_state: max,
                                known_colors: seen_colors,
                                initial_state,
                                current_moves,
                                force_hidden_discovery: false,
                                hidden_level_retried: false,
                                retries_remaining: BOTTLE_DETECTION_RETRIES,
                            },
                            no_commands(),
                        ),
                    );
                }
                return Ok(
                    (
                        AppState::Solving {
                            max_revealed_bottle_state: max,
                            initial_state,
                            known_colors: seen_colors,
                            retry_after_solve: true,
                        },
                        no_commands(),
                    ),
                );
            }
            match find_best_discovery_moves(&current, &max) {
                DiscoverResult::MoveToDiscover(best_moves) => Ok(
                    (
                        AppState::MysteryExecuteDiscoverMove {
                            trigger_at: now,
                            moves_to_execute: best_moves,
                            initial_state,
                            known_colors: seen_colors,
                            max_revealed_bottle_state: max,
                            current_moves,
                            mystery_level_retried: retried,
                            retries_remaining: BOTTLE_DETECTION_RETRIES,
                        },
                        no_commands(),
                    ),
                ),
                DiscoverResult::NoMove => {
                    if retried {
                        Ok(
                            (
                                AppState::HiddenDiscoverBottles {
                                    trigger_at: now,
                                    max_revealed_bottle_state: max,
                                    known_colors: seen_colors,
                                    initial_state,
                                    current_moves: Vec::new(),
                                    force_hidden_discovery: true,
                                    hidden_level_retried: false,
                                    retries_remaining: BOTTLE_DETECTION_RETRIES,
                                },
                                no_commands(),
                            ),
                        )
                    } else {
                        Ok(
                            (
                                AppState::MysteryDiscoverColors {
                                    trigger_at: after(now, DISCOVERY_MOVE_DELAY),
                                    initial_state,
                                    known_colors: seen_colors,
                                    max_revealed_bottle_state: max,
                                    current_moves: Vec::new(),
                                    mystery_level_retried: true,
                                    retries_remaining: BOTTLE_DETECTION_RETRIES,
                                },
                                one_command(Command::Click(retry_button_pos())),
                            ),
                        )
                    }
                },
                DiscoverResult::AlreadySolved => {
                    let hidden_count = count_hidden_bottles(&max);
                    if hidden_count > 0 {
                        Ok(
                            (
                                AppState::HiddenDiscoverBottles {
                                    trigger_at: now,
                                    max_revealed_bottle_state: max,
                                    known_colors: seen_colors,
                                    initial_state,
                                    current_moves,
                                    force_hidden_discovery: false,
                                    hidden_level_retried: false,
                                    retries_remaining: BOTTLE_DETECTION_RETRIES,
                                },
                                no_commands(),
                            ),
                        )
                    } else {
                        Ok(
                            (
                                AppState::CheckForRewards {
                                    trigger_at: after(now, NEXT_LEVEL_WAIT),
                                },
                                no_commands(),
                            ),
                        )
                    }
                },
            }
        },
    }
}

fn hidden_execute_step(
    now: u64,
    max: Vec<Bottle>,
    initial_state: Vec<Bottle>,
    known_colors: Vec<BottleColor>,
    moves_to_execute: Vec<Move>,
    current_moves: Vec<Move>,
    force: bool,
    retried: bool,
    retries_remaining: u8,
    detection: Option<(Vec<Bottle>, Vec<BottleColor>)>,
) -> (r: StepResult)
    requires
        level_fits(state_v(max@)),
        level_fits(state_v(initial_state@)),
        detection matches Some(d) ==> level_fits(state_v(d.0@)),
    ensures
        hidden_execute_spec(
            now,
            state_v(max@),
            state_v(initial_state@),
            known_colors@,
            moves_to_execute@,
            current_moves@,
            force,
            retried,
            retries_remaining,
            seen(detection),
            r,
        ),
        r matches Ok(x) ==> app_state_ok(x.0),
{
    match detection {
        None => {
            if retries_remaining == 0 {
                return Err(PlayerError::DetectionFailed);
            }
            Ok(
                (
                    AppState::HiddenExecuteDiscoverMove {
                        trigger_at: after(now, BOTTLE_DETECTION_RETRY_DELAY),
                        max_revealed_bottle_state: max,
                        initial_state,
                        known_colors,
                        moves_to_execute,
                        current_moves,
                        force_hidden_discovery: force,
                        hidden_level_retried: retried,
                        retries_remaining: retries_remaining - 1,
                    },
                    no_commands(),
                ),
            )
        },
        Some((current, seen_colors)) => {
            let ghost max0 = state_v(max@);
            let mut max = max;
            improve_best_revealed_state(&mut max, &initial_state, &current);
            proof {
                lemma_improving_keeps_fit(max0, state_v(initial_state@), state_v(current@));
            }
            if moves_to_execute.len() == 0 {
                return Ok(
                    (
                        AppState::HiddenDiscoverBottles {
                            trigger_at: now,
                            max_revealed_bottle_state: max,
                            known_colors: seen_colors,
                            initial_state,
                            current_moves,
                            force_hidden_discovery: force,
                            hidden_level_retried: retried,
                            retries_remaining: BOTTLE_DETECTION_RETRIES,
                        },
                        no_commands(),
                    ),
                );
            }
            let ghost ms0 = moves_to_execute@;
            let mut moves_to_execute = moves_to_execute;
            let next_move = moves_to_execute.remove(0);
            proof {
                assert(moves_to_execute@ =~= ms0.drop_first());
            }
            let reveal_wait_needed = move_satisfies_hidden_requirement(&current, &next_move);
            if !next_move.can_perform_on_bottles(&current) {
                return Err(PlayerError::MoveNotPossible);
            }
            let mut current_moves = current_moves;
            current_moves.push(next_move);
            let delay = if reveal_wait_needed {
                HIDDEN_REVEAL_DETECTION_DELAY
            } else {
                DISCOVERY_MOVE_DELAY
            };
            Ok(
                (
                    AppState::HiddenExecuteDiscoverMove {
                        trigger_at: after(now, delay),
                        max_revealed_bottle_state: max,
                        initial_state,
                        known_colors: seen_colors,
                        moves_to_execute,
                        current_moves,
                        force_hidden_discovery: force,
                        hidden_level_retried: retried,
                        retries_remaining,
                    },
                    one_command(Command::PerformMove(next_move)),
                ),
            )
        },
    }
}

fn mystery_execute_step(
    now: u64,
    moves_to_execute: Vec<Move>,
    initial_state: Vec<Bottle>,
    known_colors: Vec<BottleColor>,
    max: Vec<Bottle>,
    current_moves: Vec<Move>,
    retried: bool,
    retries_remaining: u8,
    detection: Option<(Vec<Bottle>, Vec<BottleColor>)>,
) -> (r: StepResult)
    requires
        level_fits(state_v(max@)),
        level_fits(state_v(initial_state@)),
        detection matches Some(d) ==> level_fits(state_v(d.0@)),
    ensures
        mystery_execute_spec(
            now,
            moves_to_execute@,
            state_v(initial_state@),
            known_colors@,
            state_v(max@),
            current_moves@,
            retried,
            retries_remaining,
            seen(detection),
            r,
        ),
        r matches Ok(x) ==> app_state_ok(x.0),
{
    match detection {
        None => {
            if retries_remaining == 0 {
                return Err(PlayerError::DetectionFailed);
            }
            Ok(
                (
                    AppState::MysteryExecuteDiscoverMove {
                        trigger_at: after(now, BOTTLE_DETECTION_RETRY_DELAY),
                        moves_to_execute,
                        initial_state,
                        known_colors,
                        max_revealed_bottle_state: max,
                        current_moves,
                        mystery_level_retried: retried,
                        retries_remaining: retries_remaining - 1,
                    },
                    no_commands(),
                ),
            )
        },
        Some((current, seen_colors)) => {
            if moves_to_execute.len() == 0 {
                return Ok(
                    (
                        AppState::MysteryDiscoverColors {
                            trigger_at: now,
                            initial_state,
                            known_colors: seen_colors,
                            max_revealed_bottle_state: max,
                            current_moves,
                            mystery_level_retried: retried,
                            retries_remaining: BOTTLE_DETECTION_RETRIES,
                        },
                        no_commands(),
                    ),
                );
            }
            let ghost ms0 = moves_to_execute@;
            let mut moves_to_execute = moves_to_execute;
            let next_move = moves_to_execute.remove(0);
            proof {
                assert(moves_to_execute@ =~= ms0.drop_first());
            }
            let reveal_wait_needed = move_satisfies_hidden_requirement(&current, &next_move);
            if !next_move.can_perform_on_bottles(&current) {
                return Err(PlayerError::MoveNotPossible);
            }
            let mut current_moves = current_moves;
            current_moves.push(next_move);
            let delay = if reveal_wait_needed {
                HIDDEN_REVEAL_DETECTION_DELAY
            } else {
                DISCOVERY_MOVE_DELAY
            };
            Ok(
                (
                    AppState::MysteryExecuteDiscoverMove {
                        trigger_at: after(now, delay),
                        moves_to_execute,
                        initial_state,
                        known_colors: seen_colors,
                        max_revealed_bottle_state: max,
                        current_moves,
                        mystery_level_retried: retried,
                        retries_remaining,
                    },
                    one_command(Command::PerformMove(next_move)),
                ),
            )
        },
    }
}

impl AppState {
    /// Whether the phase acts at `now`.
    pub fn is_due(&self, now: u64) -> (r: bool)
        ensures
            r == due(*self, now),
    {
        match self {
            AppState::WaitingToPressStart { trigger_at } => now >= *trigger_at,
            AppState::ClickNextLevel { trigger_at } => now >= *trigger_at,
            AppState::ClickRetryOnNewLevel { trigger_at } => now >= *trigger_at,
            AppState::CheckForRewards { trigger_at } => now >= *trigger_at,
            AppState::DetectAndPlan { trigger_at, .. } => now >= *trigger_at,
            AppState::AwaitPostDetectionPlan { trigger_at, .. } => now >= *trigger_at,
            AppState::HiddenDiscoverBottles { trigger_at, .. } => now >= *trigger_at,
            AppState::HiddenExecuteDiscoverMove { trigger_at, .. } => now >= *trigger_at,
            AppState::MysteryDiscoverColors { trigger_at, .. } => now >= *trigger_at,
            AppState::MysteryExecuteDiscoverMove { trigger_at, .. } => now >= *trigger_at,
            AppState::Solving { .. } => true,
            AppState::ExecuteFinalSolveMoves { next_move_at, planned_moves, performed_moves, .. } => {
                *performed_moves >= planned_moves.len() || now >= *next_move_at
            },
        }
    }
}

/// One step of the player at time `now`, given what the screen shows: the
/// phase that follows and the commands to run, in order, or why the player
/// stops. The solver, when it runs, reports its progress to `observer`. Every
/// level that the phase that follows carries fits the solver's limits.
pub fn step<O: SearchObserver>(state: AppState, now: u64, obs: Observation, observer: &mut O) -> (r:
    StepResult)
    requires
        app_state_ok(state),
        observation_ok(obs),
    ensures
        step_spec(state, now, obs, r),
        r matches Ok(x) ==> app_state_ok(x.0),
{
    if !state.is_due(now) {
        return Ok((state, no_commands()));
    }
    let Observation { detection, next_level_pixels, no_thank_you_pixels } = obs;
    match state {
        AppState::WaitingToPressStart { .. } => Ok(
            (
                AppState::DetectAndPlan {
                    trigger_at: after(now, NEXT_LEVEL_WAIT),
                    retries_remaining: BOTTLE_DETECTION_RETRIES,
                },
                one_command(Command::Click(start_button_pos())),
            ),
        ),
        AppState::ClickNextLevel { .. } => {
            let button_pos = next_level_button(&next_level_pixels);
            Ok(
                (
                    AppState::ClickRetryOnNewLevel { trigger_at: after(now, NEXT_LEVEL_WAIT) },
                    one_command(Command::Click(button_pos)),
                ),
            )
        },
        AppState::ClickRetryOnNewLevel { .. } => Ok(
            (
                AppState::DetectAndPlan {
                    trigger_at: after(now, DISCOVERY_MOVE_DELAY),
                    retries_remaining: BOTTLE_DETECTION_RETRIES,
                },
                one_command(Command::Click(retry_button_pos())),
            ),
        ),
        AppState::CheckForRewards { .. } => {
            let commands = if rewards_popup_shown(&no_thank_you_pixels) {
                let positions = no_thank_you_positions();
                one_command(Command::Click(positions[0]))
            } else {
                no_commands()
            };
            Ok((AppState::ClickNextLevel { trigger_at: after(now, NEXT_LEVEL_WAIT) }, commands))
        },
        AppState::DetectAndPlan { retries_remaining, .. } => match detection {
            Some((detected_bottles, known_colors)) => Ok(
                (
                    AppState::AwaitPostDetectionPlan {
                        trigger_at: after(now, POST_DETECTION_WAIT),
                        detected_bottles,
                        known_colors,
                    },
                    no_commands(),
                ),
            ),
            None => {
                if retries_remaining == 0 {
                    return restart(now);
                }
                Ok(
                    (
                        AppState::DetectAndPlan {
                            trigger_at: after(now, BOTTLE_DETECTION_RETRY_DELAY),
                            retries_remaining: retries_remaining - 1,
                        },
                        no_commands(),
                    ),
                )
            },
        },
        AppState::AwaitPostDetectionPlan { detected_bottles, known_colors, .. } => plan_step(
            now,
            detected_bottles,
            known_colors,
        ),
        AppState::HiddenDiscoverBottles {
            max_revealed_bottle_state,
            known_colors,
            initial_state,
            current_moves,
            force_hidden_discovery,
            hidden_level_retried,
            retries_remaining,
            ..
        } => hidden_discover_step(
            now,
            max_revealed_bottle_state,
            known_colors,
            initial_state,
            current_moves,
            force_hidden_discovery,
            hidden_level_retried,
            retries_remaining,
            detection,
        ),
        AppState::HiddenExecuteDiscoverMove {
            max_revealed_bottle_state,
            initial_state,
            known_colors,
            moves_to_execute,
            current_moves,
            force_hidden_discovery,
            hidden_level_retried,
            retries_remaining,
            ..
        } => hidden_execute_step(
            now,
            max_revealed_bottle_state,
            initial_state,
            known_colors,
            moves_to_execute,
            current_moves,
            force_hidden_discovery,
            hidden_level_retried,
            retries_remaining,
            detection,
        ),
        AppState::MysteryDiscoverColors {
            initial_state,
            known_colors,
            max_revealed_bottle_state,
            current_moves,
            mystery_level_retried,
            retries_remaining,
            ..
        } => mystery_discover_step(
            now,
            initial_state,
            known_colors,
            max_revealed_bottle_state,
            current_moves,
            mystery_level_retried,
            retries_remaining,
            detection,
        ),
        AppState::MysteryExecuteDiscoverMove {
            moves_to_execute,
            initial_state,
            known_colors,
            max_revealed_bottle_state,
            current_moves,
            mystery_level_retried,
            retries_remaining,
            ..
        } => mystery_execute_step(
            now,
            moves_to_execute,
            initial_state,
            known_colors,
            max_revealed_bottle_state,
            current_moves,
            mystery_level_retried,
            retries_remaining,
            detection,
        ),
        AppState::Solving {
            max_revealed_bottle_state,
            initial_state,
            known_colors,
            retry_after_solve,
        } => solving_step(
            now,
            max_revealed_bottle_state,
            initial_state,
            known_colors,
            retry_after_solve,
            observer,
        ),
        AppState::ExecuteFinalSolveMoves {
            planned_moves,
            performed_moves,
            known_colors,
            ..
        } => final_moves_step(now, planned_moves, performed_moves, known_colors, detection),
    }
}

} // verus!
