use water_sort::bottle::Bottle;
use water_sort::color::BottleColor;
use water_sort::notation::TestUtils;
use water_sort::rows::{detect_row_pattern, BoundingBox};
use water_sort::solver::run_solver;

fn colour_counts(bottles: &[Bottle]) -> Vec<(BottleColor, usize)> {
    let mut counts: Vec<(BottleColor, usize)> = Vec::new();
    for bottle in bottles {
        for color in bottle.get_fills() {
            match counts.iter_mut().find(|(c, _)| *c == color) {
                Some(entry) => entry.1 += 1,
                None => counts.push((color, 1)),
            }
        }
    }
    counts.sort();
    counts
}

#[test]
fn moves_keep_every_colour_and_the_capacity() {
    let level = TestUtils::parse_bottles_sequence("RRGG GGRR BBYY YYBB EEEE EEEE");
    let before = colour_counts(&level);
    let plan = run_solver(&level, &level).expect("the level has a solution");
    let mut bottles = level.clone();
    for m in &plan {
        assert!(m.can_perform_on_bottles(&bottles));
        m.perform_move_on_bottles(&mut bottles);
        assert_eq!(colour_counts(&bottles), before);
        assert!(bottles.iter().all(|b| b.get_fill_count() <= 4));
    }
    assert!(bottles.iter().all(|b| b.is_solved() || b.is_empty()));
}

#[test]
fn row_counts_add_up_to_the_boxes_seen() {
    let boxes: Vec<BoundingBox> = (0..11)
        .map(|i| BoundingBox {
            x: 30 + 60 * (i % 6),
            y: if i < 6 { 100 + i } else { 330 - i },
            width: 40,
            height: 120,
        })
        .collect();
    let pattern = detect_row_pattern(&boxes);
    assert_eq!(pattern, vec![6, 5]);
    assert_eq!(pattern.iter().sum::<usize>(), boxes.len());
}
