use water_sort::classic::bottle::{Bottle, BottleColor, BottleLayout as GridLayout};
use water_sort::classic::discovery::{
    count_total_mystery_colors, find_best_discovery_moves, improve_best_revealed_state,
    reveal_mystery_colors_in_already_visited, DiscoverResult,
};
use water_sort::classic::layout::{get_bottle_position, BottleLayout, BottlePosition};
use water_sort::classic::solver::{run_solver, Move};
use water_sort::position::Pos;

fn parse_bottle_string(bottle_str: &str) -> Vec<BottleColor> {
    let mut fills: Vec<BottleColor> = bottle_str
        .chars()
        .filter_map(|c| match c {
            'Y' => Some(BottleColor::Yellow),
            'R' => Some(BottleColor::Red),
            'G' => Some(BottleColor::Green),
            'L' => Some(BottleColor::LightBlue),
            'M' => Some(BottleColor::MediumBlue),
            'B' => Some(BottleColor::Blue),
            'P' => Some(BottleColor::Purple),
            'O' => Some(BottleColor::Orange),
            'W' => Some(BottleColor::Pink),
            '?' => Some(BottleColor::Mystery),
            'E' => None,
            _ => panic!("Invalid character in bottle string: {}", c),
        })
        .collect();
    fills.reverse();
    fills
}

fn level(sequence: &str) -> Vec<Bottle> {
    sequence
        .split_whitespace()
        .map(|token| Bottle::from_fills(parse_bottle_string(token)))
        .collect()
}

#[test]
fn classic_counts_mystery_layers() {
    assert_eq!(count_total_mystery_colors(&level("P??? YGBR G???")), 6);
}

#[test]
fn classic_improves_revealed_state() {
    let mut revealed_state = level("PY?? Y??? G???");
    let current_bottles = level("P??? YG?? G???");
    improve_best_revealed_state(&mut revealed_state, &current_bottles);
    assert_eq!(revealed_state, level("PY?? YG?? G???"));
}

#[test]
fn classic_reveals_visited_states_once() {
    let revealed = level("RRRR GGGG");
    let mut visited = vec![level("R??? GGGG"), level("RR?? GGGG"), level("GGGG RRRR")];
    let solved = reveal_mystery_colors_in_already_visited(&revealed, &mut visited);
    assert_eq!(visited.len(), 2);
    assert_eq!(visited[0], level("RRRR GGGG"));
    assert_eq!(visited[1], level("GGGG RRRR"));
    assert_eq!(solved, Some(level("RRRR GGGG")));
}

#[test]
fn classic_reveal_gives_back_a_solved_visited_state() {
    let revealed = level("RGRG GRGR");
    let mut visited = vec![level("R??? GRGR"), level("?GRG GRGR")];
    assert_eq!(reveal_mystery_colors_in_already_visited(&revealed, &mut visited), None);
    assert_eq!(visited, vec![level("RGRG GRGR")]);

    let revealed = level("RRRR GG EE");
    let mut visited = vec![level("R?R? GG EE"), level("RR GG RR"), level("?RRR EE EE")];
    let solved = reveal_mystery_colors_in_already_visited(&revealed, &mut visited);
    assert_eq!(solved, Some(level("RRRR EE EE")));
}

#[test]
fn classic_solver_solves_simple_level() {
    let bottles = level("RRGG GGRR EEEE EEEE");
    let moves = run_solver(&bottles).expect("level has a solution");
    let mut state = bottles.clone();
    for m in &moves {
        m.perform_move_on_bottles(&mut state);
    }
    assert!(state.iter().all(|b| b.is_solved() || b.is_empty()));
}

#[test]
fn classic_discovery_brings_mystery_to_top() {
    let bottles = level("R?RR EEEE EEEE");
    let mut visited = Vec::new();
    match find_best_discovery_moves(&bottles, &bottles, &mut visited) {
        DiscoverResult::MoveToDiscover(moves) => {
            assert_eq!(moves.len(), 1);
            let mut state = bottles.clone();
            moves[0].perform_move_on_bottles(&mut state);
            assert!(state
                .iter()
                .any(|b| b.get_top_fill().map(|(_, c)| c) == Some(BottleColor::Mystery)));
        }
        _ => panic!("expected discovery moves"),
    }
    let solved = level("RRRR EEEE");
    let mut visited = Vec::new();
    assert!(matches!(
        find_best_discovery_moves(&bottles, &solved, &mut visited),
        DiscoverResult::AlreadySolved
    ));
}

#[test]
fn classic_layout_positions() {
    let layout = BottleLayout::ten_bottle_layout();
    assert_eq!(layout.name, "10-bottles");
    assert_eq!(layout.bottle_count(), 10);
    assert_eq!(layout.positions[0].base_pos, Pos(47, 218));
    assert_eq!(layout.get_sample_position(0, 1), Some(Pos(47, 253)));
    assert_eq!(layout.get_sample_position(10, 0), None);
    assert_eq!(layout.get_click_position(1), Some(Pos(116, 288)));
    assert_eq!(get_bottle_position(&layout, 5), Pos(47, 505));
    let pos = BottlePosition::vertical(Pos(1, 2), 10, 3);
    assert_eq!(pos.layer_offsets, vec![Pos(0, 0), Pos(0, 10), Pos(0, 20)]);
    let bare = BottleLayout::new("bare".to_string(), vec![BottlePosition::new(Pos(5, 6), vec![])]);
    assert_eq!(bare.get_click_position(0), Some(Pos(5, 6)));
    let m = Move::new(0, 5);
    assert_eq!(m.device_click_positions(&layout), (Pos(47, 288), Pos(47, 505)));
}

#[test]
fn classic_grid_sizes() {
    assert_eq!(GridLayout::Standard10.total_bottles(), 10);
    assert_eq!(GridLayout::Extended12.total_bottles(), 12);
    assert_eq!(GridLayout::default(), GridLayout::Standard10);
}

#[test]
fn classic_solver_gives_up_only_without_a_solution() {
    // Two full bottles and no room: nothing can move.
    assert!(run_solver(&level("RRGG GGRR")).is_none());
    // One empty bottle is enough to sort them.
    let bottles = level("RRGG GGRR EEEE");
    let moves = run_solver(&bottles).expect("level has a solution");
    assert!(!moves.is_empty());
}

#[test]
fn classic_discovery_finds_nothing_without_moves() {
    let bottles = level("R??? G???");
    let mut visited = Vec::new();
    assert!(matches!(
        find_best_discovery_moves(&bottles, &bottles, &mut visited),
        DiscoverResult::NoMove
    ));
    assert_eq!(visited, vec![bottles]);
}
