use water_sort::bottle::Bottle;
use water_sort::notation::TestUtils;
use water_sort::position::Pos;
use water_sort::preview::{
    plan_detected_bottles_overlay, plan_solver_search_preview, preview_fits_len, PreviewRect,
};

fn rect(x: i32, y: i32, width: i32, height: i32) -> PreviewRect {
    PreviewRect { x, y, width, height }
}

#[test]
fn search_preview_lays_out_rows_of_seven() {
    let bottles = TestUtils::parse_bottles_sequence("RRRR RGBY YB EEEE BBBB GGGG YYYY RRRR BGRY");
    let preview = plan_solver_search_preview(&bottles, 1234, 56, 7, false).unwrap();

    assert_eq!(preview.panel, rect(12, 12, 252, 232));
    assert_eq!(preview.title_at, Pos(24, 36));
    assert_eq!(preview.title, "Solver Search");
    assert_eq!(preview.stats_at, Pos(24, 58));
    assert_eq!(preview.stats, "expanded 1234 | frontier 56 | depth 7");
    assert!(!preview.goal);
    assert_eq!(preview.bottles.len(), 9);

    assert_eq!(preview.bottles[0].frame, rect(24, 70, 24, 76));
    assert_eq!(preview.bottles[1].frame, rect(58, 70, 24, 76));
    assert_eq!(preview.bottles[6].frame, rect(228, 70, 24, 76));
    assert_eq!(preview.bottles[7].frame, rect(24, 162, 24, 76));
    assert_eq!(preview.bottles[8].frame, rect(58, 162, 24, 76));

    let solved: Vec<bool> = preview.bottles.iter().map(|b| b.solved).collect();
    assert_eq!(solved, vec![true, false, false, false, true, true, true, true, false]);

    let slots = &preview.bottles[0].slots;
    assert_eq!(slots.len(), 4);
    assert_eq!(slots[0].rect, rect(27, 126, 18, 16));
    assert_eq!(slots[1].rect, rect(27, 108, 18, 16));
    assert_eq!(slots[2].rect, rect(27, 90, 18, 16));
    assert_eq!(slots[3].rect, rect(27, 72, 18, 16));
    assert_eq!(preview.bottles[8].slots[3].rect, rect(61, 164, 18, 16));
}

#[test]
fn search_preview_colours_slots_from_the_bottom_up() {
    let bottles = TestUtils::parse_bottles_sequence("YB EEEE");
    let blue = TestUtils::parse_bottles_sequence("B")[0].get_fills()[0];
    let yellow = TestUtils::parse_bottles_sequence("Y")[0].get_fills()[0];
    let preview = plan_solver_search_preview(&bottles, 0, 0, 0, true).unwrap();

    assert_eq!(preview.title, "Solver Search (goal reached)");
    assert_eq!(preview.stats, "expanded 0 | frontier 0 | depth 0");
    assert!(preview.goal);
    assert_eq!(preview.panel, rect(12, 12, 252, 140));

    let colors: Vec<_> = preview.bottles[0].slots.iter().map(|s| s.color).collect();
    assert_eq!(colors, vec![Some(blue), Some(yellow), None, None]);
    let empty: Vec<_> = preview.bottles[1].slots.iter().map(|s| s.color).collect();
    assert_eq!(empty, vec![None, None, None, None]);
}

#[test]
fn search_preview_needs_a_bottle() {
    assert!(plan_solver_search_preview(&Vec::new(), 5, 2, 1, false).is_none());
}

#[test]
fn search_preview_fits_32_bit_sizes() {
    assert!(preview_fits_len(0));
    assert!(preview_fits_len(9));
    assert!(preview_fits_len(7 * 23_342_213));
    assert!(!preview_fits_len(7 * 23_342_213 + 1));
    assert!(!preview_fits_len(usize::MAX));
}

#[test]
fn detected_overlay_swatches_from_the_top_layer_down() {
    let parsed = TestUtils::parse_bottles_sequence("YB");
    let fills = parsed[0].get_fills();
    let clicked = Bottle::from_fills(fills.clone(), Some(Pos(100, 500)));
    let unclicked = Bottle::from_fills(fills.clone(), None);
    let plan = plan_detected_bottles_overlay(&vec![clicked, unclicked]);

    assert_eq!(plan.len(), 2);
    assert!(plan[1].is_empty());
    let swatches = &plan[0];
    assert_eq!(swatches.len(), 4);
    assert_eq!(swatches[0].rect, rect(94, 452, 12, 12));
    assert_eq!(swatches[1].rect, rect(94, 480, 12, 12));
    assert_eq!(swatches[2].rect, rect(94, 508, 12, 12));
    assert_eq!(swatches[3].rect, rect(94, 536, 12, 12));
    let colors: Vec<_> = swatches.iter().map(|s| s.color).collect();
    assert_eq!(colors, vec![None, None, Some(fills[1]), Some(fills[0])]);
}
