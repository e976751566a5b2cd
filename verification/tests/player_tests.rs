use water_sort::autoplay::{next_level_button, rewards_popup_shown, step};
use water_sort::color::{next_level_button_color, no_thank_you_rewards_color, BottleColor};
use water_sort::notation::TestUtils;
use water_sort::player::{
    build_overlay_snapshot, move_satisfies_hidden_requirement, AppState, Command, Observation,
    PlayerError,
};
use water_sort::position::Pos;
use water_sort::solver::{run_solver, NoProgress};

fn nothing_seen() -> Observation {
    Observation { detection: None, next_level_pixels: Vec::new(), no_thank_you_pixels: Vec::new() }
}

fn seen(sequence: &str) -> Observation {
    Observation {
        detection: Some((TestUtils::parse_bottles_sequence(sequence), Vec::new())),
        next_level_pixels: Vec::new(),
        no_thank_you_pixels: Vec::new(),
    }
}

#[test]
fn step_waits_until_the_phase_is_due() {
    let state = AppState::WaitingToPressStart { trigger_at: 100 };
    let (next, commands) = step(state, 50, nothing_seen(), &mut NoProgress).unwrap();
    assert!(matches!(next, AppState::WaitingToPressStart { trigger_at: 100 }));
    assert!(commands.is_empty());
}

#[test]
fn step_presses_start_and_schedules_detection() {
    let state = AppState::WaitingToPressStart { trigger_at: 100 };
    let (next, commands) = step(state, 100, nothing_seen(), &mut NoProgress).unwrap();
    assert!(matches!(next, AppState::DetectAndPlan { trigger_at: 6100, retries_remaining: 3 }));
    assert_eq!(commands, vec![Command::Click(Pos(186, 605))]);
}

#[test]
fn step_retries_failed_detection_then_restarts() {
    let state = AppState::DetectAndPlan { trigger_at: 0, retries_remaining: 2 };
    let (next, commands) = step(state, 10, nothing_seen(), &mut NoProgress).unwrap();
    assert!(matches!(next, AppState::DetectAndPlan { trigger_at: 1010, retries_remaining: 1 }));
    assert!(commands.is_empty());

    let state = AppState::DetectAndPlan { trigger_at: 0, retries_remaining: 0 };
    let (next, commands) = step(state, 10, nothing_seen(), &mut NoProgress).unwrap();
    assert!(matches!(next, AppState::WaitingToPressStart { trigger_at: 10010 }));
    assert_eq!(commands, vec![Command::RestartApp]);
}

#[test]
fn step_plans_a_plain_level_by_solving_it() {
    let state = AppState::DetectAndPlan { trigger_at: 0, retries_remaining: 3 };
    let (next, _) = step(state, 0, seen("RRGG GGRR EEEE EEEE"), &mut NoProgress).unwrap();
    assert!(matches!(next, AppState::AwaitPostDetectionPlan { trigger_at: 1000, .. }));

    let (next, commands) = step(next, 1000, nothing_seen(), &mut NoProgress).unwrap();
    assert!(matches!(next, AppState::Solving { retry_after_solve: false, .. }));
    assert!(commands.is_empty());

    let (next, commands) = step(next, 1000, nothing_seen(), &mut NoProgress).unwrap();
    assert!(commands.is_empty());
    match &next {
        AppState::ExecuteFinalSolveMoves { next_move_at, planned_moves, performed_moves, .. } => {
            assert_eq!(*next_move_at, 4000);
            assert_eq!(*performed_moves, 0);
            assert!(!planned_moves.is_empty());
        }
        _ => panic!("expected the final moves"),
    }

    let (next, commands) = step(next, 4000, nothing_seen(), &mut NoProgress).unwrap();
    assert_eq!(commands.len(), 1);
    assert!(matches!(commands[0], Command::PerformMove(_)));
    assert!(matches!(
        next,
        AppState::ExecuteFinalSolveMoves { next_move_at: 7000, performed_moves: 1, .. }
    ));
}

#[test]
fn step_starts_mystery_discovery_when_mystery_layers_show() {
    let state = AppState::AwaitPostDetectionPlan {
        trigger_at: 0,
        detected_bottles: TestUtils::parse_bottles_sequence("?RGG GGRR RRGG EEEE"),
        known_colors: vec![BottleColor::red()],
    };
    let (next, commands) = step(state, 5, nothing_seen(), &mut NoProgress).unwrap();
    assert!(commands.is_empty());
    match next {
        AppState::MysteryDiscoverColors {
            trigger_at,
            known_colors,
            current_moves,
            mystery_level_retried,
            retries_remaining,
            ..
        } => {
            assert_eq!(trigger_at, 5);
            assert_eq!(known_colors, vec![BottleColor::red()]);
            assert!(current_moves.is_empty());
            assert!(!mystery_level_retried);
            assert_eq!(retries_remaining, 3);
        }
        _ => panic!("expected mystery discovery"),
    }
}

#[test]
fn step_starts_hidden_discovery_when_a_bottle_is_hidden() {
    let state = AppState::AwaitPostDetectionPlan {
        trigger_at: 0,
        detected_bottles: TestUtils::parse_bottles_sequence("!R RRGG GGRR RRGG EEEE"),
        known_colors: Vec::new(),
    };
    let (next, _) = step(state, 5, nothing_seen(), &mut NoProgress).unwrap();
    assert!(matches!(
        next,
        AppState::HiddenDiscoverBottles {
            trigger_at: 5,
            force_hidden_discovery: false,
            hidden_level_retried: false,
            retries_remaining: 3,
            ..
        }
    ));
}

#[test]
fn step_finishes_the_plan_and_looks_for_rewards() {
    let state = AppState::ExecuteFinalSolveMoves {
        next_move_at: 500,
        planned_moves: Vec::new(),
        performed_moves: 0,
        known_colors: Vec::new(),
    };
    let (next, commands) = step(state, 10, nothing_seen(), &mut NoProgress).unwrap();
    assert!(matches!(next, AppState::CheckForRewards { trigger_at: 15010 }));
    assert!(commands.is_empty());
}

#[test]
fn step_declines_rewards_and_presses_next_level_where_shown() {
    let mut obs = nothing_seen();
    obs.no_thank_you_pixels = vec![(0, 0, 0), no_thank_you_rewards_color()];
    let (next, commands) =
        step(AppState::CheckForRewards { trigger_at: 0 }, 0, obs, &mut NoProgress).unwrap();
    assert_eq!(commands, vec![Command::Click(Pos(177, 738))]);
    assert!(matches!(next, AppState::ClickNextLevel { trigger_at: 6000 }));

    let (_, commands) =
        step(AppState::CheckForRewards { trigger_at: 0 }, 0, nothing_seen(), &mut NoProgress)
            .unwrap();
    assert!(commands.is_empty());

    let mut obs = nothing_seen();
    obs.next_level_pixels = vec![(0, 0, 0), next_level_button_color()];
    let (next, commands) = step(next, 6000, obs, &mut NoProgress).unwrap();
    assert_eq!(commands, vec![Command::Click(Pos(184, 675))]);
    assert!(matches!(next, AppState::ClickRetryOnNewLevel { trigger_at: 12000 }));

    let (next, commands) = step(next, 12000, nothing_seen(), &mut NoProgress).unwrap();
    assert_eq!(commands, vec![Command::Click(Pos(324, 57))]);
    assert!(matches!(next, AppState::DetectAndPlan { trigger_at: 17500, retries_remaining: 3 }));
}

#[test]
fn next_level_button_falls_back_to_the_first_position() {
    assert_eq!(next_level_button(&Vec::new()), Pos(184, 604));
    assert_eq!(next_level_button(&vec![(0, 0, 0), (0, 0, 0)]), Pos(184, 604));
    assert_eq!(next_level_button(&vec![next_level_button_color()]), Pos(184, 604));
    assert!(!rewards_popup_shown(&vec![(0, 0, 0)]));
    assert!(rewards_popup_shown(&vec![no_thank_you_rewards_color()]));
}

#[test]
fn step_stops_when_a_discovery_move_cannot_be_played() {
    let level = TestUtils::parse_bottles_sequence("RRGG GGRR EEEE EEEE");
    let plan = run_solver(&level, &level).unwrap();
    let state = AppState::MysteryExecuteDiscoverMove {
        trigger_at: 0,
        moves_to_execute: plan,
        initial_state: level.clone(),
        known_colors: Vec::new(),
        max_revealed_bottle_state: level,
        current_moves: Vec::new(),
        mystery_level_retried: false,
        retries_remaining: 3,
    };
    let result = step(state, 0, seen("RRRR GGGG"), &mut NoProgress);
    assert!(matches!(result, Err(PlayerError::MoveNotPossible)));
}

#[test]
fn step_plays_a_discovery_move_and_remembers_it() {
    let level = TestUtils::parse_bottles_sequence("RRGG GGRR EEEE EEEE");
    let plan = run_solver(&level, &level).unwrap();
    let first = plan[0];
    let state = AppState::MysteryExecuteDiscoverMove {
        trigger_at: 0,
        moves_to_execute: plan.clone(),
        initial_state: level.clone(),
        known_colors: Vec::new(),
        max_revealed_bottle_state: level,
        current_moves: Vec::new(),
        mystery_level_retried: false,
        retries_remaining: 2,
    };
    let (next, commands) =
        step(state, 100, seen("RRGG GGRR EEEE EEEE"), &mut NoProgress).unwrap();
    assert_eq!(commands, vec![Command::PerformMove(first)]);
    match next {
        AppState::MysteryExecuteDiscoverMove {
            trigger_at,
            moves_to_execute,
            current_moves,
            retries_remaining,
            ..
        } => {
            assert_eq!(trigger_at, 5600);
            assert_eq!(moves_to_execute.len(), plan.len() - 1);
            assert_eq!(current_moves, vec![first]);
            assert_eq!(retries_remaining, 2);
        }
        _ => panic!("expected the next discovery move"),
    }
}

#[test]
fn step_fails_when_detection_fails_while_executing_without_retries() {
    let state = AppState::HiddenExecuteDiscoverMove {
        trigger_at: 0,
        max_revealed_bottle_state: Vec::new(),
        initial_state: Vec::new(),
        known_colors: Vec::new(),
        moves_to_execute: Vec::new(),
        current_moves: Vec::new(),
        force_hidden_discovery: false,
        hidden_level_retried: false,
        retries_remaining: 0,
    };
    let result = step(state, 0, nothing_seen(), &mut NoProgress);
    assert!(matches!(result, Err(PlayerError::DetectionFailed)));
}

#[test]
fn hidden_requirement_move_waits_for_the_reveal() {
    let level = TestUtils::parse_bottles_sequence("!R RRRE REEE EEEE");
    let plan = run_solver(&level, &level).unwrap();
    assert_eq!(plan.len(), 1);
    assert!(move_satisfies_hidden_requirement(&level, &plan[0]));

    let plain = TestUtils::parse_bottles_sequence("RRGG GGRR EEEE EEEE");
    let plain_plan = run_solver(&plain, &plain).unwrap();
    assert!(!move_satisfies_hidden_requirement(&plain, &plain_plan[0]));
}

#[test]
fn overlay_names_the_phase_and_counts_down() {
    let state = AppState::DetectAndPlan { trigger_at: 1500, retries_remaining: 3 };
    let snapshot = build_overlay_snapshot(&state, 1000);
    assert_eq!(snapshot.phase, "DetectAndPlan");
    assert_eq!(snapshot.detail, "Detecting bottle layout and planning");
    assert_eq!(snapshot.until_ready, Some(500));
}
