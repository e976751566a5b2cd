//! The decisions of the automatic player: the phases it goes through for a
//! level, what it does in each when the phase is due, and what it shows of
//! them. Times are milliseconds on a clock that only goes forward.
use vstd::prelude::*;

use crate::bottle::{Bottle, BottleView};
use crate::color::{retry_button_pos, start_button_pos, Bgr, BottleColor};
use crate::discovery::{
    collect_hidden_requirements, count_hidden_bottles, count_total_mystery_colors,
    current_after, find_best_discovery_moves, find_best_hidden_unlock_moves, hidden_requirements,
    improve_best_revealed_state, improve_current_and_initial_bottles_with_revealed_state,
    initial_after, layer_total, lemma_improving_keeps_fit, lemma_layer_total_fits, locked_count,
    mystery_on_top, revealed_after, solves_requirement, total_mystery, DiscoverResult,
};
use crate::position::Pos;
use crate::rules::{apply_move, move_ok, state_v, unlock_solved};
use crate::solver::{
    copy_bottles, filter_ok, level_fits, moves_v, replay, valid_path, Move, MoveView, StateFilter,
};
use crate::text::{decimal, push_decimal, push_str};

verus! {

pub const START_WAIT: u64 = 10_000;
pub const NEXT_LEVEL_WAIT: u64 = 6_000;
pub const NO_THANK_YOU_REWARDS_WAIT: u64 = 15_000;
pub const BOTTLE_DETECTION_RETRY_DELAY: u64 = 1_000;
pub const BOTTLE_DETECTION_RETRIES: u8 = 3;
pub const POST_DETECTION_WAIT: u64 = 1_000;
pub const MOVE_DELAY: u64 = 3_000;
pub const DISCOVERY_MOVE_DELAY: u64 = 5_500;
pub const HIDDEN_REVEAL_DETECTION_DELAY: u64 = 5_500;

/// The phase the player is in.
#[derive(Debug)]
pub enum AppState {
    WaitingToPressStart { trigger_at: u64 },
    ClickNextLevel { trigger_at: u64 },
    ClickRetryOnNewLevel { trigger_at: u64 },
    CheckForRewards { trigger_at: u64 },
    DetectAndPlan { trigger_at: u64, retries_remaining: u8 },
    AwaitPostDetectionPlan {
        trigger_at: u64,
        detected_bottles: Vec<Bottle>,
        known_colors: Vec<BottleColor>,
    },
    HiddenDiscoverBottles {
        trigger_at: u64,
        max_revealed_bottle_state: Vec<Bottle>,
        known_colors: Vec<BottleColor>,
        initial_state: Vec<Bottle>,
        current_moves: Vec<Move>,
        force_hidden_discovery: bool,
        hidden_level_retried: bool,
        retries_remaining: u8,
    },
    HiddenExecuteDiscoverMove {
        trigger_at: u64,
        max_revealed_bottle_state: Vec<Bottle>,
        initial_state: Vec<Bottle>,
        known_colors: Vec<BottleColor>,
        moves_to_execute: Vec<Move>,
        current_moves: Vec<Move>,
        force_hidden_discovery: bool,
        hidden_level_retried: bool,
        retries_remaining: u8,
    },
    MysteryDiscoverColors {
        trigger_at: u64,
        initial_state: Vec<Bottle>,
        known_colors: Vec<BottleColor>,
        max_revealed_bottle_state: Vec<Bottle>,
        current_moves: Vec<Move>,
        mystery_level_retried: bool,
        retries_remaining: u8,
    },
    MysteryExecuteDiscoverMove {
        trigger_at: u64,
        moves_to_execute: Vec<Move>,
        initial_state: Vec<Bottle>,
        known_colors: Vec<BottleColor>,
        max_revealed_bottle_state: Vec<Bottle>,
        current_moves: Vec<Move>,
        mystery_level_retried: bool,
        retries_remaining: u8,
    },
    /// The solver is to run on these states; the retry button is clicked after
    /// it when `retry_after_solve` holds.
    Solving {
        max_revealed_bottle_state: Vec<Bottle>,
        initial_state: Vec<Bottle>,
        known_colors: Vec<BottleColor>,
        retry_after_solve: bool,
    },
    ExecuteFinalSolveMoves {
        next_move_at: u64,
        planned_moves: Vec<Move>,
        performed_moves: usize,
        known_colors: Vec<BottleColor>,
    },
}

/// What the player shows of its phase.
pub struct OverlaySnapshot<'a> {
    pub phase: String,
    pub detail: String,
    pub until_ready: Option<u64>,
    pub motion_status: Option<String>,
    pub discovery_hidden: Option<usize>,
    pub discovery_total_slots: Option<usize>,
    pub discovery_depth: Option<usize>,
    pub discovery_queue: Option<usize>,
    pub solve_moves: &'a [Move],
    pub solve_performed_moves: usize,
    pub solve_current_move_index: usize,
}

/// How long until `trigger_at`, if it lies ahead.
pub open spec fn spec_remaining(trigger_at: u64, now: u64) -> Option<u64> {
    if trigger_at > now {
        Some((trigger_at - now) as u64)
    } else {
        None
    }
}

/// How long until `trigger_at`, if it lies ahead.
pub fn remaining_until(trigger_at: u64, now: u64) -> (r: Option<u64>)
    ensures
        r == spec_remaining(trigger_at, now),
{
    if trigger_at > now {
        Some(trigger_at - now)
    } else {
        None
    }
}

/// Every level the phase carries fits the solver's limits.
pub open spec fn app_state_ok(s: AppState) -> bool {
    match s {
        AppState::AwaitPostDetectionPlan { detected_bottles, .. } => level_fits(
            state_v(detected_bottles@),
        ),
        AppState::HiddenDiscoverBottles { max_revealed_bottle_state, initial_state, .. } => {
            level_fits(state_v(max_revealed_bottle_state@)) && level_fits(state_v(initial_state@))
        },
        AppState::HiddenExecuteDiscoverMove { max_revealed_bottle_state, initial_state, .. } => {
            level_fits(state_v(max_revealed_bottle_state@)) && level_fits(state_v(initial_state@))
        },
        AppState::MysteryDiscoverColors { max_revealed_bottle_state, initial_state, .. } => {
            level_fits(state_v(max_revealed_bottle_state@)) && level_fits(state_v(initial_state@))
        },
        AppState::MysteryExecuteDiscoverMove { max_revealed_bottle_state, initial_state, .. } => {
            level_fits(state_v(max_revealed_bottle_state@)) && level_fits(state_v(initial_state@))
        },
        AppState::Solving { max_revealed_bottle_state, .. } => level_fits(
            state_v(max_revealed_bottle_state@),
        ),
        _ => true,
    }
}

/// The name of a phase.
pub open spec fn phase_name(s: AppState) -> Seq<char> {
    match s {
        AppState::WaitingToPressStart { .. } => "WaitingToPressStart"@,
        AppState::ClickNextLevel { .. } => "ClickNextLevel"@,
        AppState::ClickRetryOnNewLevel { .. } => "ClickRetryOnNewLevel"@,
        AppState::CheckForRewards { .. } => "CheckForRewards"@,
        AppState::DetectAndPlan { .. } => "DetectAndPlan"@,
        AppState::AwaitPostDetectionPlan { .. } => "AwaitPostDetectionPlan"@,
        AppState::HiddenDiscoverBottles { .. } => "HiddenDiscoverBottles"@,
        AppState::HiddenExecuteDiscoverMove { .. } => "HiddenExecuteDiscoverMove"@,
        AppState::MysteryDiscoverColors { .. } => "MysteryDiscoverColors"@,
        AppState::MysteryExecuteDiscoverMove { .. } => "MysteryExecuteDiscoverMove"@,
        AppState::Solving { .. } => "Solving"@,
        AppState::ExecuteFinalSolveMoves { .. } => "ExecuteFinalSolveMoves"@,
    }
}

fn text(s: &str) -> (r: String)
    ensures
        r@ == s@,
{
    let mut out = String::new();
    push_str(&mut out, s);
    proof {
        assert(out@ =~= s@);
    }
    out
}

impl AppState {
    /// The name of the phase.
    pub fn get_name(&self) -> (r: String)
        ensures
            r@ == phase_name(*self),
    {
        match self {
            AppState::WaitingToPressStart { .. } => text("WaitingToPressStart"),
            AppState::ClickNextLevel { .. } => text("ClickNextLevel"),
            AppState::ClickRetryOnNewLevel { .. } => text("ClickRetryOnNewLevel"),
            AppState::CheckForRewards { .. } => text("CheckForRewards"),
            AppState::DetectAndPlan { .. } => text("DetectAndPlan"),
            AppState::AwaitPostDetectionPlan { .. } => text("AwaitPostDetectionPlan"),
            AppState::HiddenDiscoverBottles { .. } => text("HiddenDiscoverBottles"),
            AppState::HiddenExecuteDiscoverMove { .. } => text("HiddenExecuteDiscoverMove"),
            AppState::MysteryDiscoverColors { .. } => text("MysteryDiscoverColors"),
            AppState::MysteryExecuteDiscoverMove { .. } => text("MysteryExecuteDiscoverMove"),
            AppState::Solving { .. } => text("Solving"),
            AppState::ExecuteFinalSolveMoves { .. } => text("ExecuteFinalSolveMoves"),
        }
    }
}

/// The line that tells what a phase is doing.
pub open spec fn phase_detail(s: AppState) -> Seq<char> {
    match s {
        AppState::WaitingToPressStart { .. } => "Preparing initial level start tap"@,
        AppState::ClickRetryOnNewLevel { .. } => "Preparing retry tap for new level start"@,
        AppState::ClickNextLevel { .. } => "Waiting to advance to the next level"@,
        AppState::CheckForRewards { .. } => "Looking for reward popup"@,
        AppState::DetectAndPlan { retries_remaining, .. } => if retries_remaining
            == BOTTLE_DETECTION_RETRIES {
            "Detecting bottle layout and planning"@
        } else {
            "Retrying bottle detection ("@ + decimal(retries_remaining as nat) + " retries left)"@
        },
        AppState::AwaitPostDetectionPlan { .. } => "Reviewing detected bottles before planning"@,
        AppState::HiddenDiscoverBottles { .. } => "Scanning bottles to unlock hidden slots"@,
        AppState::HiddenExecuteDiscoverMove { .. } => "Executing hidden-slot unlock sequence"@,
        AppState::MysteryDiscoverColors { .. } => "Scanning bottles to reveal mystery colors"@,
        AppState::MysteryExecuteDiscoverMove { .. } => "Executing discovery sequence"@,
        AppState::Solving { .. } => "Searching for a solution"@,
        AppState::ExecuteFinalSolveMoves { planned_moves, performed_moves, .. } => {
            let shown = if performed_moves + 1 <= planned_moves@.len() {
                performed_moves + 1
            } else {
                planned_moves@.len() as int
            };
            "Running solver move "@ + decimal(shown as nat) + " of "@ + decimal(
                planned_moves@.len(),
            )
        },
    }
}

/// When the phase acts next, for the phases that wait.
pub open spec fn phase_trigger(s: AppState) -> Option<u64> {
    match s {
        AppState::WaitingToPressStart { trigger_at } => Some(trigger_at),
        AppState::ClickNextLevel { trigger_at } => Some(trigger_at),
        AppState::ClickRetryOnNewLevel { trigger_at } => Some(trigger_at),
        AppState::CheckForRewards { trigger_at } => Some(trigger_at),
        AppState::DetectAndPlan { trigger_at, .. } => Some(trigger_at),
        AppState::AwaitPostDetectionPlan { trigger_at, .. } => Some(trigger_at),
        AppState::HiddenDiscoverBottles { trigger_at, .. } => Some(trigger_at),
        AppState::HiddenExecuteDiscoverMove { trigger_at, .. } => Some(trigger_at),
        AppState::MysteryDiscoverColors { trigger_at, .. } => Some(trigger_at),
        AppState::MysteryExecuteDiscoverMove { trigger_at, .. } => Some(trigger_at),
        AppState::Solving { .. } => None,
        AppState::ExecuteFinalSolveMoves { next_move_at, .. } => Some(next_move_at),
    }
}

/// Builds what the player shows of its phase: the phase's name, a line on what
/// it does, how long until it acts, for discovery how many mystery layers are
/// left among how many slots, how many moves were made and how many remain to
/// execute, and for the final moves the plan and how far it got.
pub fn build_overlay_snapshot<'a>(app_state: &'a AppState, now: u64) -> (r: OverlaySnapshot<'a>)
    requires
        app_state_ok(*app_state),
    ensures
        r.phase@ == phase_name(*app_state),
        r.detail@ == phase_detail(*app_state),
        r.until_ready == match phase_trigger(*app_state) {
            Some(t) => spec_remaining(t, now),
            None => None,
        },
        r.motion_status is None,
        r.discovery_hidden == match *app_state {
            AppState::MysteryDiscoverColors { max_revealed_bottle_state, .. } => Some(
                total_mystery(state_v(max_revealed_bottle_state@)) as usize,
            ),
            AppState::MysteryExecuteDiscoverMove { max_revealed_bottle_state, .. } => Some(
                total_mystery(state_v(max_revealed_bottle_state@)) as usize,
            ),
            _ => None::<usize>,
        },
        r.discovery_total_slots == match *app_state {
            AppState::MysteryDiscoverColors { max_revealed_bottle_state, .. } => Some(
                (max_revealed_bottle_state@.len() * 4) as usize,
            ),
            AppState::MysteryExecuteDiscoverMove { max_revealed_bottle_state, .. } => Some(
                (max_revealed_bottle_state@.len() * 4) as usize,
            ),
            _ => None::<usize>,
        },
        r.discovery_depth == match *app_state {
            AppState::HiddenDiscoverBottles { current_moves, .. } => Some(current_moves@.len() as usize),
            AppState::HiddenExecuteDiscoverMove { current_moves, .. } => Some(current_moves@.len() as usize),
            AppState::MysteryDiscoverColors { current_moves, .. } => Some(current_moves@.len() as usize),
            AppState::MysteryExecuteDiscoverMove { current_moves, .. } => Some(current_moves@.len() as usize),
            _ => None::<usize>,
        },
        r.discovery_queue == match *app_state {
            AppState::HiddenDiscoverBottles { .. } => Some(0usize),
            AppState::HiddenExecuteDiscoverMove { moves_to_execute, .. } => Some(moves_to_execute@.len() as usize),
            AppState::MysteryDiscoverColors { .. } => Some(0usize),
            AppState::MysteryExecuteDiscoverMove { moves_to_execute, .. } => Some(moves_to_execute@.len() as usize),
            _ => None::<usize>,
        },
        r.solve_moves@ == match *app_state {
            AppState::ExecuteFinalSolveMoves { planned_moves, .. } => planned_moves@,
            _ => Seq::<Move>::empty(),
        },
        r.solve_performed_moves == match *app_state {
            AppState::ExecuteFinalSolveMoves { performed_moves, .. } => performed_moves,
            _ => 0usize,
        },
        r.solve_current_move_index == r.solve_performed_moves,
{
    let phase = app_state.get_name();
    let empty: &[Move] = &[];
    match app_state {
        AppState::WaitingToPressStart { trigger_at } => OverlaySnapshot {
            phase,
            detail: text("Preparing initial level start tap"),
            until_ready: remaining_until(*trigger_at, now),
            motion_status: None,
            discovery_hidden: None,
            discovery_total_slots: None,
            discovery_depth: None,
            discovery_queue: None,
            solve_moves: empty,
            solve_performed_moves: 0,
            solve_current_move_index: 0,
        },
        AppState::ClickRetryOnNewLevel { trigger_at } => OverlaySnapshot {
            phase,
            detail: text("Preparing retry tap for new level start"),
            until_ready: remaining_until(*trigger_at, now),
            motion_status: None,
            discovery_hidden: None,
            discovery_total_slots: None,
            discovery_depth: None,
            discovery_queue: None,
            solve_moves: empty,
            solve_performed_moves: 0,
            solve_current_move_index: 0,
        },
        AppState::ClickNextLevel { trigger_at } => OverlaySnapshot {
            phase,
            detail: text("Waiting to advance to the next level"),
            until_ready: remaining_until(*trigger_at, now),
            motion_status: None,
            discovery_hidden: None,
            discovery_total_slots: None,
            discovery_depth: None,
            discovery_queue: None,
            solve_moves: empty,
            solve_performed_moves: 0,
            solve_current_move_index: 0,
        },
        AppState::CheckForRewards { trigger_at } => OverlaySnapshot {
            phase,
            detail: text("Looking for reward popup"),
            until_ready: remaining_until(*trigger_at, now),
            motion_status: None,
            discovery_hidden: None,
            discovery_total_slots: None,
            discovery_depth: None,
            discovery_queue: None,
            solve_moves: empty,
            solve_performed_moves: 0,
            solve_current_move_index: 0,
        },
        AppState::DetectAndPlan { trigger_at, retries_remaining } => {
            let detail = if *retries_remaining == BOTTLE_DETECTION_RETRIES {
                text("Detecting bottle layout and planning")
            } else {
                let mut d = String::new();
                push_str(&mut d, "Retrying bottle detection (");
                push_decimal(&mut d, *retries_remaining as u64);
                push_str(&mut d, " retries left)");
                d
            };
            proof {
                if *retries_remaining != BOTTLE_DETECTION_RETRIES {
                    assert(detail@ =~= phase_detail(*app_state));
                }
            }
            OverlaySnapshot {
                phase,
                detail,
                until_ready: remaining_until(*trigger_at, now),
                motion_status: None,
                discovery_hidden: None,
                discovery_total_slots: None,
                discovery_depth: None,
                discovery_queue: None,
                solve_moves: empty,
                solve_performed_moves: 0,
                solve_current_move_index: 0,
            }
        },
        AppState::AwaitPostDetectionPlan { trigger_at, .. } => OverlaySnapshot {
            phase,
            detail: text("Reviewing detected bottles before planning"),
            until_ready: remaining_until(*trigger_at, now),
            motion_status: None,
            discovery_hidden: None,
            discovery_total_slots: None,
            discovery_depth: None,
            discovery_queue: None,
            solve_moves: empty,
            solve_performed_moves: 0,
            solve_current_move_index: 0,
        },
        AppState::HiddenDiscoverBottles { trigger_at, current_moves, .. } => OverlaySnapshot {
            phase,
            detail: text("Scanning bottles to unlock hidden slots"),
            until_ready: remaining_until(*trigger_at, now),
            motion_status: None,
            discovery_hidden: None,
            discovery_total_slots: None,
            discovery_depth: Some(current_moves.len()),
            discovery_queue: Some(0),
            solve_moves: empty,
            solve_performed_moves: 0,
            solve_current_move_index: 0,
        },
        AppState::HiddenExecuteDiscoverMove { trigger_at, moves_to_execute, current_moves, .. } => {
            OverlaySnapshot {
                phase,
                detail: text("Executing hidden-slot unlock sequence"),
                until_ready: remaining_until(*trigger_at, now),
                motion_status: None,
                discovery_hidden: None,
                discovery_total_slots: None,
                discovery_depth: Some(current_moves.len()),
                discovery_queue: Some(moves_to_execute.len()),
                solve_moves: empty,
                solve_performed_moves: 0,
                solve_current_move_index: 0,
            }
        },
        AppState::MysteryDiscoverColors {
            trigger_at,
            max_revealed_bottle_state,
            current_moves,
            ..
        } => {
            proof {
                crate::discovery::lemma_layer_total_fits(state_v(max_revealed_bottle_state@));
            }
            OverlaySnapshot {
                phase,
                detail: text("Scanning bottles to reveal mystery colors"),
                until_ready: remaining_until(*trigger_at, now),
                motion_status: None,
                discovery_hidden: Some(
                    crate::discovery::count_total_mystery_colors(max_revealed_bottle_state),
                ),
                discovery_total_slots: Some(max_revealed_bottle_state.len() * 4),
                discovery_depth: Some(current_moves.len()),
                discovery_queue: Some(0),
                solve_moves: empty,
                solve_performed_moves: 0,
                solve_current_move_index: 0,
            }
        },
        AppState::MysteryExecuteDiscoverMove {
            trigger_at,
            moves_to_execute,
            max_revealed_bottle_state,
            current_moves,
            ..
        } => {
            proof {
                crate::discovery::lemma_layer_total_fits(state_v(max_revealed_bottle_state@));
            }
            OverlaySnapshot {
                phase,
                detail: text("Executing discovery sequence"),
                until_ready: remaining_until(*trigger_at, now),
                motion_status: None,
                discovery_hidden: Some(
                    crate::discovery::count_total_mystery_colors(max_revealed_bottle_state),
                ),
                discovery_total_slots: Some(max_revealed_bottle_state.len() * 4),
                discovery_depth: Some(current_moves.len()),
                discovery_queue: Some(moves_to_execute.len()),
                solve_moves: empty,
                solve_performed_moves: 0,
                solve_current_move_index: 0,
            }
        },
        AppState::Solving { .. } => OverlaySnapshot {
            phase,
            detail: text("Searching for a solution"),
            until_ready: None,
            motion_status: None,
            discovery_hidden: None,
            discovery_total_slots: None,
            discovery_depth: None,
            discovery_queue: None,
            solve_moves: empty,
            solve_performed_moves: 0,
            solve_current_move_index: 0,
        },
        AppState::ExecuteFinalSolveMoves { next_move_at, planned_moves, performed_moves, .. } => {
            let total = planned_moves.len();
            let shown = if *performed_moves < total {
                *performed_moves + 1
            } else {
                total
            };
            let mut detail = String::new();
            push_str(&mut detail, "Running solver move ");
            push_decimal(&mut detail, shown as u64);
            push_str(&mut detail, " of ");
            push_decimal(&mut detail, total as u64);
            proof {
                assert(detail@ =~= phase_detail(*app_state));
            }
            OverlaySnapshot {
                phase,
                detail,
                until_ready: remaining_until(*next_move_at, now),
                motion_status: None,
                discovery_hidden: None,
                discovery_total_slots: None,
                discovery_depth: None,
                discovery_queue: None,
                solve_moves: planned_moves.as_slice(),
                solve_performed_moves: *performed_moves,
                solve_current_move_index: *performed_moves,
            }
        },
    }
}

/// Where the next-level button may be, in the order in which they are tried.
pub fn next_level_button_positions() -> (r: Vec<Pos>)
    ensures
        r@ == seq![Pos(184, 604), Pos(184, 675)],
{
    let v = vec![Pos(184, 604), Pos(184, 675)];
    proof {
        assert(v@ =~= seq![Pos(184, 604), Pos(184, 675)]);
    }
    v
}

/// Where the button that declines a reward may be.
pub fn no_thank_you_positions() -> (r: Vec<Pos>)
    ensures
        r@ == seq![Pos(177, 738), Pos(187, 737)],
{
    let v = vec![Pos(177, 738), Pos(187, 737)];
    proof {
        assert(v@ =~= seq![Pos(177, 738), Pos(187, 737)]);
    }
    v
}

/// `now + delay`, staying at the end of the clock.
pub open spec fn later(now: u64, delay: u64) -> u64 {
    if now + delay <= u64::MAX {
        (now + delay) as u64
    } else {
        u64::MAX
    }
}

pub(crate) fn after(now: u64, delay: u64) -> (r: u64)
    ensures
        r == later(now, delay),
{
    now.saturating_add(delay)
}

/// Playing the move on the level solves a bottle in a colour that a hidden
/// bottle waits for.
pub open spec fn unlocks_hidden(s: Seq<BottleView>, m: MoveView) -> bool {
    let reqs = hidden_requirements(s);
    &&& !reqs.is_empty()
    &&& move_ok(s, m.0 as int, m.2 as int)
    &&& solves_requirement(apply_move(s, m.0 as int, m.2 as int), reqs)
}

/// Whether playing `mv` solves a bottle in a colour that a hidden bottle waits
/// for; the player then waits longer for the reveal.
pub fn move_satisfies_hidden_requirement(current_bottles: &Vec<Bottle>, mv: &Move) -> (r: bool)
    requires
        level_fits(state_v(current_bottles@)),
    ensures
        r == unlocks_hidden(state_v(current_bottles@), mv@),
{
    let ghost s = state_v(current_bottles@);
    let hidden_requirements = collect_hidden_requirements(current_bottles);
    proof {
        assert(hidden_requirements@.to_set() =~= crate::discovery::hidden_requirements(s));
        if hidden_requirements.len() > 0 {
            assert(crate::discovery::hidden_requirements(s).contains(hidden_requirements@[0]));
        } else {
            assert(crate::discovery::hidden_requirements(s) =~= Set::<BottleColor>::empty());
        }
    }
    if hidden_requirements.len() == 0 || !mv.can_perform_on_bottles(current_bottles) {
        return false;
    }
    let mut simulated = copy_bottles(current_bottles);
    proof {
        crate::bottle::lemma_top_run_bounds(s[mv.src()].0);
        assert(state_v(simulated@)[mv.dst()] == simulated@[mv.dst()]@);
        assert(state_v(simulated@)[mv.src()] == simulated@[mv.src()]@);
    }
    mv.perform_move_on_bottles(&mut simulated);
    let found = crate::discovery::any_solved_in_list(&simulated, &hidden_requirements);
    proof {
        let t = apply_move(s, mv.src(), mv.dst());
        if found {
            let i = choose|i: int|
                0 <= i < simulated@.len() && (#[trigger] crate::bottle::v_solved_color(t[i])) is Some
                    && hidden_requirements@.contains(crate::bottle::v_solved_color(t[i])->0);
            assert(solves_requirement(t, crate::discovery::hidden_requirements(s)));
        } else {
            if solves_requirement(t, crate::discovery::hidden_requirements(s)) {
                let i = choose|i: int|
                    0 <= i < t.len() && (#[trigger] crate::bottle::v_solved_color(t[i])) is Some
                        && crate::discovery::hidden_requirements(s).contains(
                        crate::bottle::v_solved_color(t[i])->0,
                    );
                assert(hidden_requirements@.contains(crate::bottle::v_solved_color(t[i])->0));
            }
        }
    }
    found
}

/// What the player does outside: click at a position, restart the game, or
/// play a move on the device.
#[derive(Debug, Clone, Copy, PartialEq, Eq)]
pub enum Command {
    Click(Pos),
    RestartApp,
    PerformMove(Move),
}

/// Why the player stops.
#[derive(Debug, Clone, Copy, PartialEq, Eq, Structural)]
pub enum PlayerError {
    /// The bottles could not be detected while moves were being executed.
    DetectionFailed,
    /// A planned move cannot be played on the bottles detected.
    MoveNotPossible,
    /// The solver found no solution.
    NoSolution,
}

/// What the player sees before it acts: the bottles detected, with the colours
/// known after the detection, when the phase asked for a detection and it
/// succeeded; the pixels at `next_level_button_positions()` and at
/// `no_thank_you_positions()`, in their order.
pub struct Observation {
    pub detection: Option<(Vec<Bottle>, Vec<BottleColor>)>,
    pub next_level_pixels: Vec<Bgr>,
    pub no_thank_you_pixels: Vec<Bgr>,
}

/// The detected bottles fit the solver's limits.
pub open spec fn observation_ok(obs: Observation) -> bool {
    obs.detection matches Some(d) ==> level_fits(state_v(d.0@))
}

/// The phase acts now and needs the bottles detected first; it detects with a
/// fresh set of known colours when it starts a level.
pub open spec fn spec_needs_detection(s: AppState, now: u64) -> bool {
    match s {
        AppState::DetectAndPlan { trigger_at, .. } => now >= trigger_at,
        AppState::HiddenDiscoverBottles { trigger_at, .. } => now >= trigger_at,
        AppState::HiddenExecuteDiscoverMove { trigger_at, .. } => now >= trigger_at,
        AppState::MysteryDiscoverColors { trigger_at, .. } => now >= trigger_at,
        AppState::MysteryExecuteDiscoverMove { trigger_at, .. } => now >= trigger_at,
        AppState::ExecuteFinalSolveMoves { next_move_at, planned_moves, performed_moves, .. } => {
            now >= next_move_at && performed_moves < planned_moves@.len()
        },
        _ => false,
    }
}

impl AppState {
    /// Whether the phase acts at `now` and needs the bottles detected first.
    pub fn needs_detection(&self, now: u64) -> (r: bool)
        ensures
            r == spec_needs_detection(*self, now),
    {
        match self {
            AppState::DetectAndPlan { trigger_at, .. } => now >= *trigger_at,
            AppState::HiddenDiscoverBottles { trigger_at, .. } => now >= *trigger_at,
            AppState::HiddenExecuteDiscoverMove { trigger_at, .. } => now >= *trigger_at,
            AppState::MysteryDiscoverColors { trigger_at, .. } => now >= *trigger_at,
            AppState::MysteryExecuteDiscoverMove { trigger_at, .. } => now >= *trigger_at,
            AppState::ExecuteFinalSolveMoves { next_move_at, planned_moves, performed_moves, .. } => {
                now >= *next_move_at && *performed_moves < planned_moves.len()
            },
            _ => false,
        }
    }

    /// The colours known so far in the level, for the next detection; none
    /// when the phase starts a level.
    pub fn known_colors(&self) -> (r: Vec<BottleColor>)
        ensures
            r@ == match *self {
                AppState::AwaitPostDetectionPlan { known_colors, .. } => known_colors@,
                AppState::HiddenDiscoverBottles { known_colors, .. } => known_colors@,
                AppState::HiddenExecuteDiscoverMove { known_colors, .. } => known_colors@,
                AppState::MysteryDiscoverColors { known_colors, .. } => known_colors@,
                AppState::MysteryExecuteDiscoverMove { known_colors, .. } => known_colors@,
                AppState::Solving { known_colors, .. } => known_colors@,
                AppState::ExecuteFinalSolveMoves { known_colors, .. } => known_colors@,
                _ => Seq::<BottleColor>::empty(),
            },
    {
        match self {
            AppState::AwaitPostDetectionPlan { known_colors, .. } => copy_colors(known_colors),
            AppState::HiddenDiscoverBottles { known_colors, .. } => copy_colors(known_colors),
            AppState::HiddenExecuteDiscoverMove { known_colors, .. } => copy_colors(known_colors),
            AppState::MysteryDiscoverColors { known_colors, .. } => copy_colors(known_colors),
            AppState::MysteryExecuteDiscoverMove { known_colors, .. } => copy_colors(known_colors),
            AppState::Solving { known_colors, .. } => copy_colors(known_colors),
            AppState::ExecuteFinalSolveMoves { known_colors, .. } => copy_colors(known_colors),
            _ => Vec::new(),
        }
    }
}

fn copy_colors(v: &Vec<BottleColor>) -> (r: Vec<BottleColor>)
    ensures
        r@ == v@,
{
    let mut out: Vec<BottleColor> = Vec::new();
    let mut i: usize = 0;
    while i < v.len()
        invariant
            i <= v@.len(),
            out@ == v@.subrange(0, i as int),
        decreases v@.len() - i,
    {
        out.push(v[i]);
        proof {
            assert(out@ =~= v@.subrange(0, i + 1));
        }
        i = i + 1;
    }
    proof {
        assert(out@ =~= v@);
    }
    out
}

/// The result of a step, by the phase it leads to and the commands to run.
pub type StepResult = Result<(AppState, Vec<Command>), PlayerError>;

pub open spec fn gives(r: StepResult, cmds: Seq<Command>) -> bool {
    r matches Ok(x) && x.1@ == cmds
}

pub open spec fn next_state(r: StepResult) -> AppState {
    r->Ok_0.0
}

pub open spec fn is_hidden_discover(
    s: AppState,
    t: u64,
    max: Seq<BottleView>,
    kc: Seq<BottleColor>,
    init: Seq<BottleView>,
    cm: Seq<Move>,
    force: bool,
    retried: bool,
    rr: u8,
) -> bool {
    &&& s matches AppState::HiddenDiscoverBottles {
        trigger_at,
        max_revealed_bottle_state,
        known_colors,
        initial_state,
        current_moves,
        force_hidden_discovery,
        hidden_level_retried,
        retries_remaining,
    }
    &&& trigger_at == t
    &&& state_v(max_revealed_bottle_state@) == max
    &&& known_colors@ == kc
    &&& state_v(initial_state@) == init
    &&& current_moves@ == cm
    &&& force_hidden_discovery == force
    &&& hidden_level_retried == retried
    &&& retries_remaining == rr
}

pub open spec fn is_mystery_discover(
    s: AppState,
    t: u64,
    init: Seq<BottleView>,
    kc: Seq<BottleColor>,
    max: Seq<BottleView>,
    cm: Seq<Move>,
    retried: bool,
    rr: u8,
) -> bool {
    &&& s matches AppState::MysteryDiscoverColors {
        trigger_at,
        initial_state,
        known_colors,
        max_revealed_bottle_state,
        current_moves,
        mystery_level_retried,
        retries_remaining,
    }
    &&& trigger_at == t
    &&& state_v(initial_state@) == init
    &&& known_colors@ == kc
    &&& state_v(max_revealed_bottle_state@) == max
    &&& current_moves@ == cm
    &&& mystery_level_retried == retried
    &&& retries_remaining == rr
}

pub open spec fn is_hidden_execute(
    s: AppState,
    t: u64,
    max: Seq<BottleView>,
    init: Seq<BottleView>,
    kc: Seq<BottleColor>,
    ms: Seq<Move>,
    cm: Seq<Move>,
    force: bool,
    retried: bool,
    rr: u8,
) -> bool {
    &&& s matches AppState::HiddenExecuteDiscoverMove {
        trigger_at,
        max_revealed_bottle_state,
        initial_state,
        known_colors,
        moves_to_execute,
        current_moves,
        force_hidden_discovery,
        hidden_level_retried,
        retries_remaining,
    }
    &&& trigger_at == t
    &&& state_v(max_revealed_bottle_state@) == max
    &&& state_v(initial_state@) == init
    &&& known_colors@ == kc
    &&& moves_to_execute@ == ms
    &&& current_moves@ == cm
    &&& force_hidden_discovery == force
    &&& hidden_level_retried == retried
    &&& retries_remaining == rr
}

pub open spec fn is_mystery_execute(
    s: AppState,
    t: u64,
    ms: Seq<Move>,
    init: Seq<BottleView>,
    kc: Seq<BottleColor>,
    max: Seq<BottleView>,
    cm: Seq<Move>,
    retried: bool,
    rr: u8,
) -> bool {
    &&& s matches AppState::MysteryExecuteDiscoverMove {
        trigger_at,
        moves_to_execute,
        initial_state,
        known_colors,
        max_revealed_bottle_state,
        current_moves,
        mystery_level_retried,
        retries_remaining,
    }
    &&& trigger_at == t
    &&& moves_to_execute@ == ms
    &&& state_v(initial_state@) == init
    &&& known_colors@ == kc
    &&& state_v(max_revealed_bottle_state@) == max
    &&& current_moves@ == cm
    &&& mystery_level_retried == retried
    &&& retries_remaining == rr
}

pub open spec fn is_solving(
    s: AppState,
    max: Seq<BottleView>,
    init: Seq<BottleView>,
    kc: Seq<BottleColor>,
    retry_after: bool,
) -> bool {
    &&& s matches AppState::Solving {
        max_revealed_bottle_state,
        initial_state,
        known_colors,
        retry_after_solve,
    }
    &&& state_v(max_revealed_bottle_state@) == max
    &&& state_v(initial_state@) == init
    &&& known_colors@ == kc
    &&& retry_after_solve == retry_after
}

pub open spec fn is_final_solve(
    s: AppState,
    t: u64,
    planned: Seq<Move>,
    performed: usize,
    kc: Seq<BottleColor>,
) -> bool {
    &&& s matches AppState::ExecuteFinalSolveMoves {
        next_move_at,
        planned_moves,
        performed_moves,
        known_colors,
    }
    &&& next_move_at == t
    &&& planned_moves@ == planned
    &&& performed_moves == performed
    &&& known_colors@ == kc
}

} // verus!
