use water_sort::color::BottleColor;
use water_sort::detection::{
    bottle_click_position, classify_layer_color_or_add_to_known, curtain_flask_indices, nearest_color_unbounded,
    nearest_known_color,
};
use water_sort::layout::BottleLayout;
use water_sort::rows::{
    boxes_overlap_vertically, overlap_components, detect_row_pattern, sort_detected_bottles_by_coordinates, BoundingBox,
};

fn bx(x: i32, y: i32, width: i32, height: i32) -> BoundingBox {
    BoundingBox { x, y, width, height }
}

#[test]
fn nearest_known_color_takes_the_closest_within_reach() {
    let known = vec![
        BottleColor::Fill(100, 100, 100),
        BottleColor::Mystery,
        BottleColor::Fill(110, 100, 100),
        BottleColor::Fill(104, 100, 100),
    ];
    assert_eq!(nearest_known_color((105, 100, 100), &known), Some((104, 100, 100)));
    // 30 away squared is 900: not close enough.
    assert_eq!(nearest_known_color((140, 100, 100), &known), None);
    assert_eq!(nearest_color_unbounded((140, 100, 100), &known), Some((110, 100, 100)));
    assert_eq!(nearest_color_unbounded((0, 0, 0), &vec![BottleColor::Empty]), None);
}

#[test]
fn nearest_known_color_prefers_the_first_of_equals() {
    let known = vec![BottleColor::Fill(98, 100, 100), BottleColor::Fill(102, 100, 100)];
    assert_eq!(nearest_known_color((100, 100, 100), &known), Some((98, 100, 100)));
}

#[test]
fn classify_layer_color_learns_new_colors() {
    let mut known = Vec::new();
    assert_eq!(classify_layer_color_or_add_to_known(true, 0, 0, (1, 2, 3), &mut known), BottleColor::Empty);
    assert_eq!(classify_layer_color_or_add_to_known(false, 10, 200, (1, 2, 3), &mut known), BottleColor::Mystery);
    assert!(known.is_empty());
    assert_eq!(classify_layer_color_or_add_to_known(false, 10, 50, (1, 2, 3), &mut known), BottleColor::Fill(1, 2, 3));
    assert_eq!(known, vec![BottleColor::Fill(1, 2, 3)]);
    assert_eq!(classify_layer_color_or_add_to_known(false, 10, 50, (3, 2, 1), &mut known), BottleColor::Fill(1, 2, 3));
    assert_eq!(known.len(), 1);
}

#[test]
fn click_position_is_the_box_centre_on_the_frame() {
    assert_eq!(bottle_click_position(10, 20, 30, 40).0, 25);
    assert_eq!(bottle_click_position(10, 20, 30, 40).1, 143 + 40);
}

#[test]
fn boxes_overlap_when_their_rows_meet() {
    assert!(boxes_overlap_vertically(&bx(0, 0, 10, 10), &bx(50, 10, 10, 10)));
    assert!(!boxes_overlap_vertically(&bx(0, 0, 10, 10), &bx(50, 11, 10, 10)));
}

#[test]
fn rows_are_chains_of_overlapping_boxes() {
    let boxes = vec![
        bx(200, 300, 40, 100),
        bx(10, 10, 40, 100),
        bx(100, 320, 40, 100),
        bx(60, 105, 40, 100),
        bx(150, 30, 40, 60),
    ];
    let groups = overlap_components(&boxes);
    assert_eq!(groups.len(), 2);
    let mut first = groups[0].clone();
    first.sort();
    assert_eq!(first, vec![0, 2]);
    let mut second = groups[1].clone();
    second.sort();
    assert_eq!(second, vec![1, 3, 4]);
    assert_eq!(detect_row_pattern(&boxes), vec![3, 2]);
    assert_eq!(sort_detected_bottles_by_coordinates(&boxes), vec![1, 3, 4, 2, 0]);
}

#[test]
fn no_boxes_make_no_rows() {
    assert!(detect_row_pattern(&Vec::new()).is_empty());
    assert!(sort_detected_bottles_by_coordinates(&Vec::new()).is_empty());
}

#[test]
fn detect_layout_matches_the_row_pattern() {
    let mut boxes = Vec::new();
    for i in 0..5 {
        boxes.push(bx(10 + 70 * i, 100, 40, 120));
    }
    for i in 0..5 {
        boxes.push(bx(10 + 70 * i, 330, 40, 120));
    }
    let layout = BottleLayout::detect_layout(&boxes);
    assert_eq!(layout.friendly_name(), "ten_bottle_layout");
}

#[test]
fn curtain_parts_make_a_flask_when_three_are_stacked() {
    let parts = vec![
        bx(100, 50, 20, 10),
        bx(300, 60, 20, 10),
        bx(102, 10, 20, 10),
        bx(104, 30, 20, 10),
        bx(302, 20, 20, 10),
    ];
    // The first group holds parts 0, 2 and 3; by top row 2, 3, 0: the flask is 3.
    assert_eq!(curtain_flask_indices(&parts), vec![3]);
}
