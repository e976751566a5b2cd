use water_sort::capture::{
    is_level_valid, new_discovery_capture, next_discovery_capture_id, DiscoveryCaptureManifest,
};
use water_sort::frame_stability::{
    evaluate_motion_window, has_no_movement_in_window, MotionWindowState,
};
use water_sort::layout::BottleLayout;
use water_sort::notation::TestUtils;

#[test]
fn capture_records_and_manifest() {
    let layout = &BottleLayout::get_layouts()[0];
    let bottles = TestUtils::parse_bottles_sequence("R??? EEEE");
    let mut manifest = DiscoveryCaptureManifest::default();
    assert_eq!(next_discovery_capture_id(&manifest), 1);

    let mut context = new_discovery_capture(7, 1234, layout, &bottles);
    assert_eq!(context.level.image_filename, "discovery-level-7.png");
    assert_eq!(context.level.expected_bottles, "R??? EEEE");
    assert_eq!(context.level.layout_name, "ten_bottle_layout");
    assert_eq!(context.level.bottle_count, 10);
    assert_eq!(context.level.mystery_count_at_start, 3);

    let resolved = TestUtils::parse_bottles_sequence("RGBY EEEE");
    context.set_resolved_bottles(&resolved);
    assert_eq!(context.level.resolved_bottles.as_deref(), Some("RGBY EEEE"));
    context.finalize(&mut manifest);
    assert_eq!(manifest.levels.len(), 1);

    let earlier = new_discovery_capture(3, 1, layout, &resolved);
    earlier.finalize(&mut manifest);
    assert_eq!(manifest.levels.len(), 2);
    assert_eq!(manifest.levels[0].id, 3);
    assert_eq!(next_discovery_capture_id(&manifest), 8);

    // The same start replaces the earlier entry.
    let again = new_discovery_capture(9, 2, layout, &bottles);
    again.finalize(&mut manifest);
    assert_eq!(manifest.levels.len(), 2);
    assert_eq!(manifest.levels[1].id, 9);
}

#[test]
fn level_validity() {
    let initial = TestUtils::parse_bottles_sequence("R??? !B EEEE");
    let resolved = TestUtils::parse_bottles_sequence("RGBY !B,BBBB EEEE");
    assert!(is_level_valid(&initial, &resolved));
    let wrong = TestUtils::parse_bottles_sequence("GGBY !B,BBBB EEEE");
    assert!(!is_level_valid(&initial, &wrong));
    let still_hidden = TestUtils::parse_bottles_sequence("RGBY !B EEEE");
    assert!(!is_level_valid(&initial, &still_hidden));
    assert!(!is_level_valid(&initial, &resolved[0..2].to_vec()));
}

#[test]
fn motion_window_states() {
    let ms = 1_000_000u64;
    let frames = vec![(1000 * ms, true), (1500 * ms, true), (2000 * ms, true)];
    assert_eq!(evaluate_motion_window(&frames, 2000 * ms, 1000 * ms), MotionWindowState::Stable);
    assert!(has_no_movement_in_window(&frames, 2000 * ms, 1000 * ms));
    assert_eq!(
        evaluate_motion_window(&frames, 1900 * ms, 1000 * ms),
        MotionWindowState::WaitingForCoverage { missing_coverage: 100 * ms }
    );
    // Up to 20 ms of missing coverage is tolerated.
    assert_eq!(evaluate_motion_window(&frames, 1985 * ms, 1000 * ms), MotionWindowState::Stable);
    assert_eq!(evaluate_motion_window(&frames, 2100 * ms, 1000 * ms), MotionWindowState::Stable);
    assert_eq!(
        evaluate_motion_window(&frames, 500 * ms, 1000 * ms),
        MotionWindowState::WaitingForCoverage { missing_coverage: 1000 * ms }
    );
    assert_eq!(
        evaluate_motion_window(&vec![], 5000 * ms, 1000 * ms),
        MotionWindowState::WaitingForCoverage { missing_coverage: 1000 * ms }
    );
    let moving = vec![(1000 * ms, true), (1500 * ms, false)];
    assert_eq!(
        evaluate_motion_window(&moving, 2000 * ms, 1000 * ms),
        MotionWindowState::MovementDetected
    );
    assert!(!has_no_movement_in_window(&moving, 2000 * ms, 1000 * ms));
}

#[test]
fn window_pixels_pack_red_green_blue() {
    let bytes = vec![0x12, 0x34, 0x56, 0xff, 1, 2, 3, 4, 9];
    assert_eq!(
        water_sort::capture::rgba_to_window_pixels(&bytes),
        vec![0x123456, 0x010203]
    );
}
