use water_sort::classic::overlay::{
    draw_move_overlay, MOVE_CURRENT_COLOR, MOVE_DONE_COLOR, OVERLAY_BORDER_COLOR,
    OVERLAY_PANEL_COLOR, PROGRESS_BG_COLOR, PROGRESS_FILL_COLOR,
};
use water_sort::classic::solver::Move;

fn pixel(buffer: &[u32], width: usize, row: usize, col: usize) -> u32 {
    buffer[row * width + col]
}

#[test]
fn overlay_draws_panel_slots_and_progress() {
    let width = 100;
    let height = 100;
    let mut buffer = vec![0u32; width * height];
    let moves = vec![Move::new(3, 5), Move::new(5, 3)];
    draw_move_overlay(&mut buffer, width, height, &moves, 1, None);

    // Panel border (two pixels thick) and body.
    assert_eq!(pixel(&buffer, width, 12, 12), OVERLAY_BORDER_COLOR);
    assert_eq!(pixel(&buffer, width, 13, 40), OVERLAY_BORDER_COLOR);
    assert_eq!(pixel(&buffer, width, 15, 15), OVERLAY_PANEL_COLOR);
    // First slot: played, with its source band and destination band.
    assert_eq!(pixel(&buffer, width, 40, 30), MOVE_DONE_COLOR);
    assert_eq!(pixel(&buffer, width, 30, 30), 0x69db7c);
    assert_eq!(pixel(&buffer, width, 45, 30), 0x94d82d);
    // Second slot: the move being played.
    assert_eq!(pixel(&buffer, width, 40, 60), MOVE_CURRENT_COLOR);
    // Progress bar: half of it filled.
    assert_eq!(pixel(&buffer, width, 75, 30), PROGRESS_FILL_COLOR);
    assert_eq!(pixel(&buffer, width, 75, 60), PROGRESS_BG_COLOR);
    // Outside the panel nothing changes.
    assert_eq!(pixel(&buffer, width, 95, 95), 0);
    assert_eq!(pixel(&buffer, width, 5, 5), 0);
}

#[test]
fn overlay_shows_the_active_move() {
    let width = 100;
    let height = 100;
    let mut buffer = vec![0u32; width * height];
    draw_move_overlay(&mut buffer, width, height, &Vec::new(), 0, Some(Move::new(0, 1)));
    // The active box sits at column 12 + (76 - 48) = 40, row 52.
    assert_eq!(pixel(&buffer, width, 52, 41), MOVE_CURRENT_COLOR);
    assert_eq!(pixel(&buffer, width, 55, 45), 0xff6b6b);
    assert_eq!(pixel(&buffer, width, 55, 62), 0x4dabf7);
    // Without a plan the bar stays empty.
    assert_eq!(pixel(&buffer, width, 75, 30), PROGRESS_BG_COLOR);
}

#[test]
fn overlay_clips_to_a_small_frame() {
    let width = 20;
    let height = 20;
    let mut buffer = vec![7u32; width * height + 3];
    draw_move_overlay(&mut buffer, width, height, &vec![Move::new(0, 1)], 0, None);
    // The panel has no width in a frame this narrow: nothing is painted.
    assert!(buffer.iter().all(|&p| p == 7));
}
