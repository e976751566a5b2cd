use water_sort::capture::{DiscoveryCaptureManifest, DiscoveryLevelCapture};
use water_sort::notation::TestUtils;
use water_sort::position::Pos;
use water_sort::replay::{
    find_level, preview_size, replay_bottle_origins, replay_fits, solve_recorded_level,
};
use water_sort::solver::NoProgress;

fn level(id: u64, expected: &str) -> DiscoveryLevelCapture {
    DiscoveryLevelCapture {
        id,
        image_filename: format!("discovery-level-{id}.png"),
        expected_bottles: expected.to_string(),
        resolved_bottles: None,
        layout_name: "ten_bottle_layout".to_string(),
        bottle_count: 2,
        mystery_count_at_start: 0,
        captured_at_ms: 0,
    }
}

#[test]
fn find_level_takes_the_first_with_the_number() {
    let manifest = DiscoveryCaptureManifest {
        levels: vec![level(3, "RRRR EEEE"), level(5, "GGGG EEEE"), level(5, "BBBB EEEE")],
    };
    assert_eq!(find_level(&manifest, 3), Some(0));
    assert_eq!(find_level(&manifest, 5), Some(1));
    assert_eq!(find_level(&manifest, 9), None);
    assert_eq!(find_level(&DiscoveryCaptureManifest::default(), 3), None);
}

#[test]
fn replay_window_size() {
    assert_eq!(preview_size(0), (360, 280));
    assert_eq!(preview_size(1), (360, 280));
    assert_eq!(preview_size(7), (498, 280));
    assert_eq!(preview_size(9), (498, 434));
    assert_eq!(preview_size(15), (498, 602));
}

#[test]
fn replay_bottles_row_by_row() {
    assert_eq!(
        replay_bottle_origins(3),
        vec![Pos(18, 86), Pos(86, 86), Pos(154, 86)]
    );
    let nine = replay_bottle_origins(9);
    assert_eq!(nine.len(), 9);
    assert_eq!(nine[6], Pos(426, 86));
    assert_eq!(nine[7], Pos(18, 254));
    assert_eq!(nine[8], Pos(86, 254));
    assert!(replay_bottle_origins(0).is_empty());
}

#[test]
fn replay_window_fits_32_bits() {
    assert!(replay_fits(0));
    assert!(replay_fits(9));
    assert!(replay_fits(7 * 12_782_640));
    assert!(!replay_fits(7 * 12_782_640 + 1));
    assert!(!replay_fits(usize::MAX));
}

#[test]
fn recorded_level_is_solved_from_its_start() {
    let bottles = TestUtils::parse_bottles_sequence("RRGG GGRR EEEE EEEE");
    let moves = solve_recorded_level(&bottles, &bottles, &mut NoProgress).expect("solvable");
    assert!(!moves.is_empty());
    let mut state = bottles.clone();
    for m in &moves {
        assert!(m.can_perform_on_bottles(&state));
        m.perform_move_on_bottles(&mut state);
    }
    assert!(state.iter().all(|b| b.is_solved() || b.is_empty()));

    let solved = TestUtils::parse_bottles_sequence("RRRR GGGG EEEE");
    assert_eq!(solve_recorded_level(&solved, &solved, &mut NoProgress), Some(vec![]));
}
