use water_sort::classic::bottle::BottleColor;
use water_sort::classic::layout::BottleLayout;
use water_sort::classic::pixels::{best_layout_index, is_color_within_tolerance, score_layout_fit};
use water_sort::color::{failed_level_color, has_failed_level};

#[test]
fn tolerance_is_per_channel_and_inclusive() {
    assert!(is_color_within_tolerance(&(10, 20, 30), &(20, 10, 40), 10));
    assert!(!is_color_within_tolerance(&(10, 20, 30), &(21, 20, 30), 10));
}

#[test]
fn pixels_read_as_the_nearest_colour() {
    assert_eq!(BottleColor::from_pixel_value((0x20, 0xdf, 0xfb)), Some(BottleColor::Yellow));
    assert_eq!(BottleColor::from_pixel_value((0x25, 0xdf, 0xf0)), Some(BottleColor::Yellow));
    assert_eq!(BottleColor::from_pixel_value((0x36, 0x36, 0x36)), Some(BottleColor::Mystery));
    // The empty layer's pixel reads as no colour.
    assert_eq!(BottleColor::from_pixel_value((0x2c, 0x3d, 0x71)), None);
    assert!(BottleColor::is_empty_pixel(&(0x30, 0x40, 0x80)));
    // Far from every colour.
    assert_eq!(BottleColor::from_pixel_value((0x80, 0x80, 0x80)), None);
}

#[test]
fn colours_give_back_their_pixels() {
    assert_eq!(BottleColor::Red.to_pixel_value(), (0x24, 0x1a, 0xdf));
    assert_eq!(BottleColor::Mystery.to_pixel_value(), (0x36, 0x36, 0x36));
    for color in BottleColor::values() {
        assert_eq!(BottleColor::from_pixel_value(color.to_pixel_value()), Some(color));
    }
}

#[test]
fn layouts_are_scored_by_bottles_showing_colour() {
    let yellow = (0x20, 0xdf, 0xfb);
    let empty = (0x2c, 0x3d, 0x71);
    let samples = vec![vec![None, Some(empty)], vec![Some(empty), Some(yellow)], vec![]];
    assert_eq!(score_layout_fit(&samples), 1);
    assert_eq!(best_layout_index(&vec![0, 0, 0]), 0);
    assert_eq!(best_layout_index(&vec![1, 3, 3]), 1);
    let detected = BottleLayout::detect_layout(&vec![vec![], vec![vec![Some(yellow)]], vec![]]);
    assert_eq!(detected.name, "11-bottles");
    let none = BottleLayout::detect_layout(&vec![vec![], vec![], vec![]]);
    assert_eq!(none.name, "10-bottles");
}

#[test]
fn failed_level_text_is_recognised() {
    assert!(has_failed_level(&failed_level_color()));
    assert!(!has_failed_level(&(0, 0, 0)));
}

/// The pixels each known layout samples from the frame at `path`, blue,
/// green and red; `None` outside the frame.
fn layout_samples(path: &str) -> Option<Vec<Vec<Vec<Option<(u8, u8, u8)>>>>> {
    let frame = image::open(path).ok()?.to_rgb8();
    let (width, height) = (frame.width() as i32, frame.height() as i32);
    let samples = BottleLayout::get_layouts()
        .iter()
        .map(|layout| {
            (0..layout.bottle_count())
                .map(|bottle| {
                    (0..4)
                        .map(|layer| {
                            let pos = layout.get_sample_position(bottle, layer)?;
                            if pos.0 < 0 || pos.1 < 0 || pos.0 >= width || pos.1 >= height {
                                return None;
                            }
                            let pixel = frame.get_pixel(pos.0 as u32, pos.1 as u32);
                            Some((pixel[2], pixel[1], pixel[0]))
                        })
                        .collect()
                })
                .collect()
        })
        .collect();
    Some(samples)
}

#[test]
fn test_detect_layout_10_bottles() {
    let samples = match layout_samples("captures/10-bottles.png") {
        Some(samples) => samples,
        None => {
            println!("Warning: Could not load 10-bottles.png, skipping test");
            return;
        }
    };

    let layout = BottleLayout::detect_layout(&samples);
    assert_eq!(layout.name, "10-bottles");
    assert_eq!(layout.bottle_count(), 10);
}

#[test]
fn test_detect_layout_12_bottles() {
    let samples = match layout_samples("captures/12-bottles.png") {
        Some(samples) => samples,
        None => {
            println!("Warning: Could not load 12-bottles.png, skipping test");
            return;
        }
    };

    let layout = BottleLayout::detect_layout(&samples);
    assert_eq!(layout, BottleLayout::twelve_bottle_layout());
}
