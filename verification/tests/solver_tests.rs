use water_sort::bottle::HiddenRequirement;
use water_sort::color::BottleColor;
use water_sort::notation::TestUtils;
use water_sort::solver::{
    build_solver_initial_bottle_state, find_shortest_move_sequence, get_possible_moves,
    run_solver, run_solver_with_progress, sort_moves_by_heuristic,
    unlock_hidden_bottles_with_solved_colors, NoProgress, ProgressHistory, SearchGoal, StateFilter,
};

#[test]
fn clears_hidden_requirement_when_required_color_is_solved() {
    let mut bottles = TestUtils::parse_bottles_sequence("!R RRRR EEEE EEEE");

    unlock_hidden_bottles_with_solved_colors(&mut bottles);

    assert!(!bottles[0].is_hidden_and_locked());
    assert_eq!(
        bottles[0].hidden_requirement_state(),
        HiddenRequirement::Unlocked(BottleColor::red())
    );
}

#[test]
fn solver_can_finish_when_unlocking_hidden_empty_bottle() {
    let bottles = TestUtils::parse_bottles_sequence("!R RRRR G GGG EEEE EEEE EEEE EEEE");

    let solution = find_shortest_move_sequence(
        bottles,
        StateFilter::Any,
        &SearchGoal::AllSolved,
        &mut NoProgress,
    );

    assert!(solution.is_some());
    assert_eq!(solution.expect("solver should return a solution").len(), 1);
}

#[test]
fn solver_solves_simple_level() {
    let bottles = TestUtils::parse_bottles_sequence("RRGG GGRR EEEE EEEE");
    let moves = run_solver(&bottles, &bottles).expect("level has a solution");
    let mut state = bottles.clone();
    for m in &moves {
        assert!(m.can_perform_on_bottles(&state));
        m.perform_move_on_bottles(&mut state);
    }
    assert!(state
        .iter()
        .all(|b| b.is_solved() || (b.is_empty() && !b.is_hidden_and_locked())));
}

#[test]
fn solved_level_needs_no_moves() {
    let bottles = TestUtils::parse_bottles_sequence("RRRR GGGG EEEE");
    assert_eq!(run_solver(&bottles, &bottles), Some(vec![]));
}

#[test]
fn initial_state_keeps_start_marks_and_relocks() {
    let initial = TestUtils::parse_bottles_sequence("R??? !O");
    let revealed = TestUtils::parse_bottles_sequence("RGBY !O,RRRR");
    let built = build_solver_initial_bottle_state(&revealed, &initial);
    assert_eq!(built.len(), 2);
    assert_eq!(
        built[0].get_fills(),
        vec![
            BottleColor::yellow(),
            BottleColor::blue(),
            BottleColor::green(),
            BottleColor::red()
        ]
    );
    // Layers that were mystery layers at the start pour one at a time.
    assert_eq!(built[0].get_top_fill(), Some((1, BottleColor::red())));
    assert_eq!(
        built[1].hidden_requirement_state(),
        HiddenRequirement::Locked(BottleColor::orange())
    );
}

#[test]
fn possible_moves_skip_visited_states() {
    let bottles = TestUtils::parse_bottles_sequence("RRGG EEEE");
    let all = get_possible_moves(&bottles, &Vec::new());
    assert_eq!(all.len(), 1);
    assert_eq!(all[0].0.source_index(), 0);
    assert_eq!(all[0].0.destination_index(), 1);
    let visited = vec![all[0].1.clone()];
    assert!(get_possible_moves(&bottles, &visited).is_empty());
}

#[test]
fn heuristic_puts_solving_moves_first() {
    let bottles = TestUtils::parse_bottles_sequence("RRRG GGGR EEEE");
    let mut moves = get_possible_moves(&bottles, &Vec::new());
    sort_moves_by_heuristic(&mut moves);
    let solved_first = moves[0].1.iter().filter(|b| b.is_solved()).count();
    for (_, state) in &moves {
        assert!(state.iter().filter(|b| b.is_solved()).count() <= solved_first);
    }
}

#[test]
fn solver_reveals_once_before_searching() {
    // The revealed hidden bottle holds RRRR; at the start it is hidden again
    // and revealed once, by the solved GGGG, so the bottle hidden behind red
    // stays hidden. Pouring GGGG into the empty bottle would reveal it and
    // finish the level, but the generator leaves out moves from solved
    // bottles and no other move is allowed, so the search gives up.
    let initial = TestUtils::parse_bottles_sequence("GGGG !G !R EEEE");
    let revealed = TestUtils::parse_bottles_sequence("GGGG !G,RRRR !R EEEE");
    assert!(run_solver(&revealed, &initial).is_none());
}

#[test]
fn solver_gives_up_only_when_no_way_is_left() {
    let stuck = TestUtils::parse_bottles_sequence("RGRG GRGR");
    assert!(find_shortest_move_sequence(
        stuck,
        StateFilter::Any,
        &SearchGoal::AllSolved,
        &mut NoProgress
    )
    .is_none());

    let open = TestUtils::parse_bottles_sequence("RGRG GRGR EEEE EEEE");
    let solution = find_shortest_move_sequence(
        open.clone(),
        StateFilter::Any,
        &SearchGoal::AllSolved,
        &mut NoProgress,
    )
    .expect("the level can be sorted with two empty bottles");
    let mut state = open;
    unlock_hidden_bottles_with_solved_colors(&mut state);
    for m in &solution {
        m.perform_move_on_bottles(&mut state);
        unlock_hidden_bottles_with_solved_colors(&mut state);
    }
    assert!(state.iter().all(|b| b.is_solved() || b.is_empty()));
}

#[test]
fn solver_returns_a_shortest_solution() {
    let level = TestUtils::parse_bottles_sequence("GRRR GGG R EEEE");
    let solution = find_shortest_move_sequence(
        level.clone(),
        StateFilter::Any,
        &SearchGoal::AllSolved,
        &mut NoProgress,
    )
    .expect("the level is solvable");
    assert_eq!(solution.len(), 2);
    let mut state = level;
    for m in &solution {
        m.perform_move_on_bottles(&mut state);
        unlock_hidden_bottles_with_solved_colors(&mut state);
    }
    assert!(state.iter().all(|b| b.is_solved() || b.is_empty()));
}

#[test]
fn solver_reports_each_explored_state_in_order() {
    let level = TestUtils::parse_bottles_sequence("RRGG GGRR EEEE EEEE");
    let mut history = ProgressHistory::new();
    let solution = run_solver_with_progress(&level, &level, &mut history)
        .expect("the level is solvable");
    let n = history.reports.len();
    assert!(n > 0);
    for (k, report) in history.reports.iter().enumerate() {
        assert_eq!(report.explored_states, k + 1);
        assert_eq!(report.is_goal, k + 1 == n);
    }
    assert_eq!(history.reports[n - 1].depth, solution.len());
    let plain = run_solver(&level, &level).expect("the level is solvable");
    assert_eq!(plain.len(), solution.len());
}

#[test]
fn reordered_level_needs_as_many_moves() {
    let level = TestUtils::parse_bottles_sequence("RRGG GGRR EEEE EEEE");
    let reordered = TestUtils::parse_bottles_sequence("EEEE GGRR EEEE RRGG");
    let a = find_shortest_move_sequence(level, StateFilter::Any, &SearchGoal::AllSolved, &mut NoProgress)
        .expect("the level is solvable");
    let b = find_shortest_move_sequence(
        reordered,
        StateFilter::Any,
        &SearchGoal::AllSolved,
        &mut NoProgress,
    )
    .expect("the reordered level is solvable");
    assert_eq!(a.len(), b.len());
}
