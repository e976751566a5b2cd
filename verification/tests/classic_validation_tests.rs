use water_sort::classic::bottle::{Bottle, BottleColor};
use water_sort::classic::layout::BottleLayout;
use water_sort::classic::validation::{
    validate_detected_bottles, DetectionResult, ExpectedBottles, TestUtils,
};

#[test]
fn test_detection_result_validation() {
    let expected = ExpectedBottles::for_10_bottle_layout();

    // Valid result
    let valid_result = DetectionResult {
        is_valid: true,
        bottle_count: 10,
        filled_bottles: 8,
        empty_bottles: 2,
        issues: Vec::new(),
    };
    assert!(expected.validate(&valid_result));

    // Invalid - wrong bottle count
    let invalid_result = DetectionResult {
        is_valid: true,
        bottle_count: 12,
        filled_bottles: 8,
        empty_bottles: 4,
        issues: Vec::new(),
    };
    assert!(!expected.validate(&invalid_result));
}

fn bottle(n: usize) -> Bottle {
    Bottle::from_fills(vec![BottleColor::Red; n])
}

#[test]
fn validate_detection_counts_and_notes_issues() {
    let result = TestUtils::validate_detection(&vec![bottle(4), bottle(0), bottle(5), bottle(2)]);
    assert!(!result.is_valid);
    assert_eq!(result.bottle_count, 4);
    assert_eq!(result.filled_bottles, 3);
    assert_eq!(result.empty_bottles, 1);
    assert_eq!(result.issues, vec!["Bottle 2 has 5 fills (max 4 expected)".to_string()]);

    let fine = TestUtils::validate_detection(&vec![bottle(4), bottle(0)]);
    assert!(fine.is_valid);
    assert!(fine.issues.is_empty());
    assert!(ExpectedBottles { total_bottles: 2, min_filled_bottles: 1, max_filled_bottles: 2 }
        .validate(&fine));
}

#[test]
fn validate_detection_needs_a_filled_bottle() {
    let result = TestUtils::validate_detection(&vec![bottle(0), bottle(0)]);
    assert!(!result.is_valid);
    assert_eq!(result.filled_bottles, 0);
    assert_eq!(result.empty_bottles, 2);
    assert_eq!(
        result.issues,
        vec!["No filled bottles detected - this seems unlikely".to_string()]
    );

    let nothing = TestUtils::validate_detection(&Vec::new());
    assert!(nothing.is_valid);
    assert!(nothing.issues.is_empty());
}

#[test]
fn expected_bottles_of_the_layouts() {
    let twelve = ExpectedBottles::for_12_bottle_layout();
    assert_eq!(
        (twelve.total_bottles, twelve.min_filled_bottles, twelve.max_filled_bottles),
        (11, 9, 11)
    );
    let result = DetectionResult {
        is_valid: true,
        bottle_count: 11,
        filled_bottles: 12,
        empty_bottles: 0,
        issues: Vec::new(),
    };
    assert!(!twelve.validate(&result));
    assert!(!twelve.validate(&DetectionResult { is_valid: false, filled_bottles: 10, ..result.clone() }));
    assert!(twelve.validate(&DetectionResult { filled_bottles: 9, ..result }));
}

#[test]
fn bottles_read_from_sampled_pixels() {
    let red = (0x24, 0x1a, 0xdf);
    let yellow = (0x20, 0xdf, 0xfb);
    let empty = (0x2c, 0x3d, 0x71);
    let far = (0xff, 0xff, 0xff);
    let samples = vec![
        vec![Some(red), Some(yellow), None, Some(empty)],
        vec![Some(empty), Some(empty), Some(empty), Some(empty)],
        vec![Some(far), Some(red), Some(red), Some(red)],
    ];
    let bottles = TestUtils::detect_bottles_from_image(&samples);
    assert_eq!(bottles.len(), 3);
    assert_eq!(bottles[0].fills, vec![BottleColor::Yellow, BottleColor::Red]);
    assert!(bottles[1].fills.is_empty());
    assert_eq!(bottles[2].fills, vec![BottleColor::Red; 3]);
}

fn parse_bottle_string(bottle_str: &str) -> Vec<BottleColor> {
    let mut fills: Vec<BottleColor> = bottle_str
        .chars()
        .filter_map(|c| match c {
            'Y' => Some(BottleColor::Yellow),
            'R' => Some(BottleColor::Red),
            'G' => Some(BottleColor::Green),
            'L' => Some(BottleColor::LightBlue),
            'M' => Some(BottleColor::MediumBlue),
            'B' => Some(BottleColor::Blue),
            'P' => Some(BottleColor::Purple),
            'O' => Some(BottleColor::Orange),
            'W' => Some(BottleColor::Pink),
            'E' => None,
            _ => panic!("Invalid character in bottle string: {}", c),
        })
        .collect();
    // Strings are written top->bottom; fills are stored bottom->top.
    fills.reverse();
    fills
}

fn parse_bottles_sequence(sequence: &str) -> Vec<Vec<BottleColor>> {
    sequence.split_whitespace().map(parse_bottle_string).collect()
}

/// The pixels at each layer's sample position of each bottle of `layout`,
/// in the frame stored under `captures/`; `None` when the file is missing.
fn load_samples(filename: &str, layout: &BottleLayout) -> Option<Vec<Vec<Option<(u8, u8, u8)>>>> {
    let frame = image::open(format!("captures/{}", filename)).ok()?.to_rgb8();
    let (width, height) = (frame.width() as i32, frame.height() as i32);
    let samples = (0..layout.bottle_count())
        .map(|bottle| {
            (0..4)
                .map(|layer| {
                    let pos = layout.get_sample_position(bottle, layer)?;
                    if pos.0 < 0 || pos.1 < 0 || pos.0 >= width || pos.1 >= height {
                        return None;
                    }
                    let pixel = frame.get_pixel(pos.0 as u32, pos.1 as u32);
                    Some((pixel[2], pixel[1], pixel[0]))
                })
                .collect()
        })
        .collect();
    Some(samples)
}

fn print_summary(result: &DetectionResult) {
    println!("Detection Result:");
    println!("  Valid: {}", result.is_valid);
    println!("  Total bottles: {}", result.bottle_count);
    println!("  Filled bottles: {}", result.filled_bottles);
    println!("  Empty bottles: {}", result.empty_bottles);
    for issue in &result.issues {
        println!("    - {}", issue);
    }
}

#[test]
fn test_10_bottle_detection() {
    let layout = BottleLayout::ten_bottle_layout();
    let samples = match load_samples("10-bottles.png", &layout) {
        Some(samples) => samples,
        None => {
            println!("Warning: Could not load 10-bottles.png, skipping test");
            return;
        }
    };
    let bottles = TestUtils::detect_bottles_from_image(&samples);

    let result = TestUtils::validate_detection(&bottles);
    print_summary(&result);

    let expected = ExpectedBottles::for_10_bottle_layout();
    assert!(expected.validate(&result), "10-bottle detection failed validation");
    assert_eq!(bottles.len(), 10, "Should detect exactly 10 bottles");

    println!("Detected bottle contents:");
    for (i, bottle) in bottles.iter().enumerate() {
        println!("  Bottle {}: {:?}", i, bottle.get_fills());
    }
}

#[test]
fn test_12_bottle_detection() {
    let layout = BottleLayout::twelve_bottle_layout();
    let samples = match load_samples("12-bottles.png", &layout) {
        Some(samples) => samples,
        None => {
            println!("Warning: Could not load 12-bottles.png, skipping test");
            return;
        }
    };
    let bottles = TestUtils::detect_bottles_from_image(&samples);

    let result = TestUtils::validate_detection(&bottles);
    print_summary(&result);

    let expected = ExpectedBottles::for_12_bottle_layout();
    assert!(expected.validate(&result), "12-bottle detection failed validation");
    assert_eq!(bottles.len(), 11, "Should detect exactly 11 bottles");

    // Expected bottles (top->bottom notation, left->right by row)
    let expected_sequence = "POGR LMOR GYPO GYGB WBRL MLRY WMLP POMW BWBY";
    let expected_bottles = parse_bottles_sequence(expected_sequence);
    assert_eq!(expected_bottles.len(), 9);

    for (i, expected_fills) in expected_bottles.iter().enumerate() {
        assert_eq!(bottles[i].get_fills(), expected_fills, "Bottle {} mismatch", i);
    }

    assert!(bottles[9].is_empty(), "Bottle 9 should be empty");
    assert!(bottles[10].is_empty(), "Bottle 10 should be empty");
}

#[test]
fn detected_bottles_hold_at_most_four_layers() {
    assert!(validate_detected_bottles(&vec![bottle(4), bottle(0), bottle(3)]));
    assert!(!validate_detected_bottles(&vec![bottle(4), bottle(5)]));
    assert!(validate_detected_bottles(&Vec::new()));
}
