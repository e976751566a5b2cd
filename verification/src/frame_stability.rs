//! Whether the screen has stood still long enough: a rolling window over the
//! recent frames, each recorded with its time and whether it matched the frame
//! before it. Times and durations are in nanoseconds.
use vstd::prelude::*;

verus! {

/// How much of the window the history may fail to cover, for frame timing
/// jitter: 20 ms.
pub const HISTORY_COVERAGE_TOLERANCE: u64 = 20_000_000;

/// What the recent frames say about motion.
#[derive(Debug, Clone, Copy, PartialEq, Eq, Structural)]
pub enum MotionWindowState {
    /// Every frame of a covered window matched the one before it.
    Stable,
    /// The history does not reach back over the whole window yet.
    WaitingForCoverage { missing_coverage: u64 },
    /// Some frame of the window differed from the one before it.
    MovementDetected,
}

/// The state of the window ending at `now`, of length `no_movement_window`,
/// over frames recorded oldest first.
pub open spec fn motion_state(frames: Seq<(u64, bool)>, now: u64, window: u64) -> MotionWindowState {
    if now < window {
        MotionWindowState::WaitingForCoverage { missing_coverage: window }
    } else if frames.len() == 0 {
        MotionWindowState::WaitingForCoverage { missing_coverage: window }
    } else if frames[0].0 > now - window && frames[0].0 - (now - window)
        > HISTORY_COVERAGE_TOLERANCE {
        MotionWindowState::WaitingForCoverage {
            missing_coverage: (frames[0].0 - (now - window)) as u64,
        }
    } else if exists|i: int| 0 <= i < frames.len() && !(#[trigger] frames[i]).1 {
        MotionWindowState::MovementDetected
    } else {
        MotionWindowState::Stable
    }
}

fn any_mismatch(frames: &Vec<(u64, bool)>) -> (r: bool)
    ensures
        r == exists|i: int| 0 <= i < frames@.len() && !(#[trigger] frames@[i]).1,
{
    let mut i: usize = 0;
    while i < frames.len()
        invariant
            i <= frames@.len(),
            forall|k: int| 0 <= k < i ==> (#[trigger] frames@[k]).1,
        decreases frames@.len() - i,
    {
        if !frames[i].1 {
            proof {
                let ii = i as int;
                assert(!frames@[ii].1);
            }
            return true;
        }
        i = i + 1;
    }
    false
}

/// Evaluates the window ending at `now`: it waits while the clock or the
/// history does not reach back over the window (less the tolerance), reports
/// movement when any recorded frame differed, and is stable otherwise.
pub fn evaluate_motion_window(
    recent_frame_matches: &Vec<(u64, bool)>,
    now: u64,
    no_movement_window: u64,
) -> (r: MotionWindowState)
    ensures
        r == motion_state(recent_frame_matches@, now, no_movement_window),
{
    if now < no_movement_window {
        return MotionWindowState::WaitingForCoverage { missing_coverage: no_movement_window };
    }
    let cutoff = now - no_movement_window;
    if recent_frame_matches.len() == 0 {
        return MotionWindowState::WaitingForCoverage { missing_coverage: no_movement_window };
    }
    let oldest_timestamp = recent_frame_matches[0].0;
    if oldest_timestamp > cutoff {
        let missing_coverage = oldest_timestamp - cutoff;
        if missing_coverage > HISTORY_COVERAGE_TOLERANCE {
            return MotionWindowState::WaitingForCoverage { missing_coverage };
        }
    }
    if any_mismatch(recent_frame_matches) {
        return MotionWindowState::MovementDetected;
    }
    MotionWindowState::Stable
}

/// Whether the window ending at `now` is stable.
pub fn has_no_movement_in_window(
    recent_frame_matches: &Vec<(u64, bool)>,
    now: u64,
    no_movement_window: u64,
) -> (r: bool)
    ensures
        r == (motion_state(recent_frame_matches@, now, no_movement_window)
            == MotionWindowState::Stable),
{
    match evaluate_motion_window(recent_frame_matches, now, no_movement_window) {
        MotionWindowState::Stable => true,
        _ => false,
    }
}

/// The window is stable only when the clock and the history cover it (less
/// the tolerance) and every recorded frame, not only the newest, matched the
/// one before it; once the window is covered, a single differing frame
/// anywhere in the history means movement. While the clock or the history
/// does not reach back over the window, it waits for the part missing.
pub proof fn lemma_stable_needs_every_frame_matched(frames: Seq<(u64, bool)>, now: u64, window: u64)
    ensures
        motion_state(frames, now, window) == MotionWindowState::Stable ==> (now >= window && frames.len()
            > 0 && frames[0].0 <= now - window + HISTORY_COVERAGE_TOLERANCE && forall|i: int|
            0 <= i < frames.len() ==> (#[trigger] frames[i]).1),
        (now >= window && frames.len() > 0 && frames[0].0 <= now - window + HISTORY_COVERAGE_TOLERANCE
            && exists|i: int| 0 <= i < frames.len() && !(#[trigger] frames[i]).1) ==> motion_state(
            frames,
            now,
            window,
        ) == MotionWindowState::MovementDetected,
        (now < window || frames.len() == 0) ==> motion_state(frames, now, window) == (
        MotionWindowState::WaitingForCoverage { missing_coverage: window }),
        (now >= window && frames.len() > 0 && frames[0].0 > now - window + HISTORY_COVERAGE_TOLERANCE)
            ==> motion_state(frames, now, window) == (MotionWindowState::WaitingForCoverage {
            missing_coverage: (frames[0].0 - (now - window)) as u64,
        }),
        (now >= window && frames.len() > 0 && frames[0].0 <= now - window + HISTORY_COVERAGE_TOLERANCE
            && forall|i: int| 0 <= i < frames.len() ==> (#[trigger] frames[i]).1) ==> motion_state(
            frames,
            now,
            window,
        ) == MotionWindowState::Stable,
{
}

} // verus!
