use water_sort::bottle::Bottle;
use water_sort::color::BottleColor;
use water_sort::discovery::{
    collect_hidden_requirements, count_hidden_bottles, count_total_mystery_colors,
    find_best_discovery_moves, find_best_hidden_unlock_moves, improve_best_revealed_state,
    improve_current_and_initial_bottles_with_revealed_state, DiscoverResult,
};
use water_sort::notation::TestUtils;
use water_sort::solver::{run_solver, unlock_hidden_bottles_with_solved_colors};

#[test]
fn discovery_test_count_total_mystery_colors() {
    let bottles = TestUtils::parse_bottles_sequence("P??? YGBR G???");

    assert_eq!(count_total_mystery_colors(&bottles), 6);
}

#[test]
fn test_hidden_requirement_helpers() {
    let mut bottles = TestUtils::parse_bottles_sequence("OOOR B??R EEEE");
    bottles.push(Bottle::from_hidden_requirement(BottleColor::orange(), None));

    assert_eq!(count_hidden_bottles(&bottles), 1);
    assert!(collect_hidden_requirements(&bottles).contains(&BottleColor::orange()));
}

#[test]
fn test_find_best_hidden_unlock_moves() {
    let bottles = TestUtils::parse_bottles_sequence("OOOR EEEO EEEE EEEE !O");

    match find_best_hidden_unlock_moves(&bottles) {
        DiscoverResult::MoveToDiscover(moves) => {
            assert_eq!(moves.len(), 1);
            let mut next_state = bottles.clone();
            moves[0].perform_move_on_bottles(&mut next_state);
            assert!(next_state
                .iter()
                .any(|bottle| bottle.solved_color() == Some(BottleColor::orange())));
        }
        other => panic!(
            "Expected a move sequence to unlock hidden bottle, got {:?}",
            other
        ),
    }
}

#[test]
fn discovery_test_improve_best_revealed_state() {
    let mut revealed_state = TestUtils::parse_bottles_sequence("PY?? Y??? G???");
    let previous_bottles = TestUtils::parse_bottles_sequence("PY?? Y??? G???");
    let current_bottles = TestUtils::parse_bottles_sequence("P??? YG?? G???");
    improve_best_revealed_state(&mut revealed_state, &previous_bottles, &current_bottles);

    let expected_revealed_state = TestUtils::parse_bottles_sequence("PY?? YG?? G???");
    assert!(
        TestUtils::are_bottles_equal(&revealed_state, &expected_revealed_state),
        "Revealed state should be improved with newly discovered colors. Actual: {:?}, Expected: {:?}",
        revealed_state,
        expected_revealed_state
    );
}

#[test]
fn test_find_best_discovery_moves_for_level24_restart_state() {
    let bottles = TestUtils::parse_bottles_sequence("RRRR !G !G O??G G??B EEEE EEEE OYYW");

    match find_best_discovery_moves(&bottles, &bottles) {
        DiscoverResult::MoveToDiscover(moves) => {
            assert!(!moves.is_empty());
        }
        other => panic!("Expected discovery moves, got {:?}", other),
    }
}

#[test]
fn test_find_best_discovery_moves_for_level25_restart_state() {
    let bottles = TestUtils::parse_bottles_sequence("!R !R PYBB OYBG R?YR RY?R EEEE EEEE");

    match find_best_discovery_moves(&bottles, &bottles) {
        DiscoverResult::MoveToDiscover(moves) => {
            assert!(!moves.is_empty());
        }
        other => panic!("Expected discovery moves, got {:?}", other),
    }
}

#[test]
fn test_discovery_with_bottles_that_can_be_unlocked() {
    let current_bottles =
        TestUtils::parse_bottles_sequence("POG? !B WGP? !Y YPW? BRYO YYBR EEEE EEEE");
    let max_revealed_bottle_state =
        TestUtils::parse_bottles_sequence("POG? !B WGP? !Y YPW? BRYO YYBR EEEE EEEE");

    match find_best_discovery_moves(&current_bottles, &max_revealed_bottle_state) {
        DiscoverResult::NoMove => println!("NoMove"),
        DiscoverResult::MoveToDiscover(items) => {
            println!("MoveToDiscover with moves:");
            let mut new_state = current_bottles.clone();
            for m in items {
                println!("{:?}", m);
                m.perform_move_on_bottles(&mut new_state);
            }
        }
        DiscoverResult::AlreadySolved => println!("AlreadySolved"),
    }
}

#[test]
fn test_discovery_with_mystery() {
    let mut current_bottles =
        TestUtils::parse_bottles_sequence("P??? !B W??? !Y Y??? BRYO YYBR EEEE EEEE");
    let mut initial = current_bottles.clone();
    let max_revealed_bottles =
        TestUtils::parse_bottles_sequence("POGW !B,ORRG WGPP !Y,BOB? YPWG BRYO YYBR EEEE EEEE");

    improve_current_and_initial_bottles_with_revealed_state(
        &mut current_bottles,
        &mut initial,
        &max_revealed_bottles,
    );
    match find_best_discovery_moves(&current_bottles, &max_revealed_bottles) {
        DiscoverResult::NoMove => panic!("Should find a move to unlock hidden bottle"),
        DiscoverResult::MoveToDiscover(items) => {
            println!("MoveToDiscover with moves:");
            let mut new_state = current_bottles.clone();
            for m in items {
                println!("{:?}", m);
                m.perform_move_on_bottles(&mut new_state);
                unlock_hidden_bottles_with_solved_colors(&mut new_state);
            }
        }
        DiscoverResult::AlreadySolved => println!("AlreadySolved"),
    }
}

#[test]
fn test_discov_1() {
    let initial = TestUtils::parse_bottles_sequence("!P !W !W !B B??G W??B B??Y EEEE EEEE");
    let max = TestUtils::parse_bottles_sequence(
        "!P,GOGO !W,PPYP !W,RGOO !B,RRWP BWRG WYYB BWBY EEEE EEEE",
    );

    let m = run_solver(&max, &initial);

    match m {
        None => println!("NoMove"),
        Some(items) => {
            println!("MoveToDiscover with moves:");
            let mut new_state = max.clone();
            for m in items {
                println!("{:?}", m);
                if m.can_perform_on_bottles(&new_state) {
                    m.perform_move_on_bottles(&mut new_state);
                }
            }
        }
    }
}

#[test]
fn nothing_to_discover_without_hidden_bottles() {
    let bottles = TestUtils::parse_bottles_sequence("RRRR OOOO EEEE");
    assert!(matches!(
        find_best_hidden_unlock_moves(&bottles),
        DiscoverResult::AlreadySolved
    ));
    assert!(matches!(
        find_best_discovery_moves(&bottles, &bottles),
        DiscoverResult::AlreadySolved
    ));
}

#[test]
fn hidden_unlock_search_gives_up_when_the_colour_cannot_be_solved() {
    let bottles = TestUtils::parse_bottles_sequence("RGRG GRGR EEEE !B");
    assert!(matches!(
        find_best_hidden_unlock_moves(&bottles),
        DiscoverResult::NoMove
    ));
}
