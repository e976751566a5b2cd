use water_sort::layout::{layout_for_row_pattern, BottleLayout};
use water_sort::position::Pos;

#[test]
fn known_layouts_and_sizes() {
    let layouts = BottleLayout::get_layouts();
    assert_eq!(layouts.len(), 10);
    assert_eq!(layouts[0].friendly_name(), "ten_bottle_layout");
    assert_eq!(layouts[0].bottle_count(), 10);
    assert_eq!(layouts[1].bottle_count(), 11);
    assert_eq!(layouts[5].bottle_count(), 7);
    assert_eq!(layouts[0].layer_spacing(), 35);
    assert_eq!(layouts[0].layer_count(), 4);
    assert_eq!(layouts[0].rows().len(), 2);
}

#[test]
fn click_and_sample_positions() {
    let layout = &BottleLayout::get_layouts()[0];
    assert_eq!(layout.get_click_position(0), Some(Pos(41, 223)));
    assert_eq!(layout.get_click_position(6), Some(Pos(110, 440)));
    assert_eq!(layout.get_click_position(10), None);
    assert_eq!(layout.get_sample_position(0, 3), Some(Pos(41, 223)));
    assert_eq!(layout.get_sample_position(0, 0), Some(Pos(41, 223 - 3 * 35)));
    assert_eq!(layout.get_sample_position(0, 9), Some(Pos(41, 223)));
    let positions = layout.bottle_positions();
    assert_eq!(positions.len(), 10);
    assert_eq!(positions[9], Pos(41 + 4 * 69, 440));
}

#[test]
fn layout_chosen_by_rows_seen() {
    assert_eq!(layout_for_row_pattern(&vec![6, 5]).friendly_name(), "eleven_bottle_layout");
    assert_eq!(layout_for_row_pattern(&vec![4, 4, 4]).friendly_name(), "twelve_bottle_layout_alternative");
    // No layout has these rows; the nearest bottle count wins, the first on ties.
    assert_eq!(layout_for_row_pattern(&vec![3, 3, 3]).friendly_name(), "nine_bottle_layout");
    assert_eq!(layout_for_row_pattern(&vec![]).friendly_name(), "five_bottle_layout");
}
