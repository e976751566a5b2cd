//! Layouts of what the player draws over the frame. The panel that shows the
//! solver's search while it runs has its frame, a title and a line of counts,
//! and each bottle of the state being explored, seven to a row, with one slot
//! per layer from the bottom up; its top left corner is at (12, 12). Over each
//! detected bottle, a column of swatches shows the colours read from it.
//!
//! Positions are in pixels of the frame, `x` to the right and `y` down.
use vstd::prelude::*;

use crate::bottle::Bottle;
use crate::color::BottleColor;
use crate::position::Pos;
use crate::text::{decimal, push_decimal, push_str};

verus! {

/// A rectangle: its top left corner and its size.
#[derive(Debug, Clone, Copy, PartialEq, Eq, Structural)]
pub struct PreviewRect {
    pub x: i32,
    pub y: i32,
    pub width: i32,
    pub height: i32,
}

/// One layer's slot in a bottle: where it goes, and the layer's colour, or
/// `None` where the bottle holds no layer there.
#[derive(Debug, Clone, Copy)]
pub struct PreviewSlot {
    pub rect: PreviewRect,
    pub color: Option<BottleColor>,
}

/// One bottle of the state: its frame, drawn in the highlight colour when the
/// bottle is solved, and its four slots from the bottom up.
#[derive(Debug)]
pub struct PreviewBottle {
    pub frame: PreviewRect,
    pub solved: bool,
    pub slots: Vec<PreviewSlot>,
}

/// What the panel shows, and where.
#[derive(Debug)]
pub struct SearchPreview {
    pub panel: PreviewRect,
    pub title_at: Pos,
    pub title: String,
    pub stats_at: Pos,
    pub stats: String,
    /// The counts line is drawn in the highlight colour when the goal is reached.
    pub goal: bool,
    pub bottles: Vec<PreviewBottle>,
}

/// How many rows `n` bottles take, seven to a row.
pub open spec fn preview_rows(n: nat) -> int {
    ((n + 6) / 7) as int
}

/// The panel's height for `n` bottles: 64 pixels of text, then rows of
/// bottles 76 pixels high, 16 apart.
pub open spec fn preview_panel_height(n: nat) -> int {
    64 + preview_rows(n) * 76 + (preview_rows(n) - 1) * 16
}

/// The panel's sizes are 32-bit numbers.
pub open spec fn preview_fits(n: nat) -> bool {
    preview_panel_height(n) <= i32::MAX
}

/// Whether the panel for `n` bottles fits 32-bit sizes.
pub fn preview_fits_len(n: usize) -> (r: bool)
    ensures
        r == preview_fits(n as nat),
{
    let rows: u64 = (n / 7) as u64 + if n % 7 == 0 {
        0
    } else {
        1
    };
    assert(rows == preview_rows(n as nat));
    (rows as u128) * 76 + (rows as u128) * 16 + 48 <= i32::MAX as u128
}

pub open spec fn rect_is(r: PreviewRect, x: int, y: int, width: int, height: int) -> bool {
    r.x == x && r.y == y && r.width == width && r.height == height
}

/// The frame of bottle `i`: 24 by 76 pixels, 34 pixels from one column to
/// the next and 92 from one row to the next, from (24, 70).
pub open spec fn bottle_frame_is(r: PreviewRect, i: int) -> bool {
    rect_is(r, 24 + (i % 7) * 34, 70 + (i / 7) * 92, 24, 76)
}

/// The slot of layer `l` in the bottle whose frame's corner is `(x, y)`: 18
/// by 16 pixels, the bottom one 4 pixels above the frame's bottom, 2 pixels
/// between slots.
pub open spec fn slot_rect_is(r: PreviewRect, x: int, y: int, l: int) -> bool {
    rect_is(r, x + 3, y + 76 - 4 - (l + 1) * 16 - l * 2, 18, 16)
}

/// `s` is the slot of layer `l` in the bottle whose frame's corner is
/// `(x, y)` and whose colours are `colors`.
pub open spec fn slot_is(s: PreviewSlot, x: int, y: int, l: int, colors: Seq<BottleColor>) -> bool {
    &&& slot_rect_is(s.rect, x, y, l)
    &&& s.color == (if l < colors.len() {
        Some(colors[l])
    } else {
        None
    })
}

pub open spec fn preview_title(goal: bool) -> Seq<char> {
    if goal {
        "Solver Search (goal reached)"@
    } else {
        "Solver Search"@
    }
}

pub open spec fn preview_stats(explored: usize, queue: usize, depth: usize) -> Seq<char> {
    "expanded "@ + decimal(explored as nat) + " | frontier "@ + decimal(queue as nat)
        + " | depth "@ + decimal(depth as nat)
}

/// `pb` shows bottle `i`, whose colours from the bottom up are `colors`.
pub open spec fn previews_bottle(pb: PreviewBottle, i: int, colors: Seq<BottleColor>, solved: bool) -> bool {
    &&& bottle_frame_is(pb.frame, i)
    &&& pb.solved == solved
    &&& pb.slots@.len() == 4
    &&& forall|l: int|
        0 <= l < 4 ==> #[trigger] slot_is(pb.slots@[l], 24 + (i % 7) * 34, 70 + (i / 7) * 92, l, colors)
}

/// `p` is the panel for `bottles` after `explored` states, with `queue`
/// states waiting and the state at `depth` moves.
pub open spec fn plans_preview(
    p: SearchPreview,
    bottles: Seq<Bottle>,
    explored: usize,
    queue: usize,
    depth: usize,
    goal: bool,
) -> bool {
    &&& rect_is(p.panel, 12, 12, 252, preview_panel_height(bottles.len()))
    &&& p.title_at == Pos(24, 36)
    &&& p.title@ == preview_title(goal)
    &&& p.stats_at == Pos(24, 58)
    &&& p.stats@ == preview_stats(explored, queue, depth)
    &&& p.goal == goal
    &&& p.bottles@.len() == bottles.len()
    &&& forall|i: int|
        0 <= i < bottles.len() ==> previews_bottle(
            #[trigger] p.bottles@[i],
            i,
            bottles[i].spec_colors(),
            bottles[i].spec_solved(),
        )
}

fn preview_slots(x: i32, y: i32, colors: &Vec<BottleColor>) -> (r: Vec<PreviewSlot>)
    requires
        0 <= x <= 1000,
        0 <= y <= i32::MAX - 56,
    ensures
        r@.len() == 4,
        forall|l: int| 0 <= l < 4 ==> #[trigger] slot_is(r@[l], x as int, y as int, l, colors@),
{
    let mut slots: Vec<PreviewSlot> = Vec::new();
    let mut layer: usize = 0;
    while layer < 4
        invariant
            layer <= 4,
            0 <= x <= 1000,
            0 <= y <= i32::MAX - 56,
            slots@.len() == layer,
            forall|l: int| 0 <= l < layer ==> #[trigger] slot_is(slots@[l], x as int, y as int, l, colors@),
        decreases 4 - layer,
    {
        let li = layer as i32;
        let rect = PreviewRect { x: x + 3, y: y + (76 - 4 - (li + 1) * 16 - li * 2), width: 18, height: 16 };
        let color = if layer < colors.len() {
            Some(colors[layer])
        } else {
            None
        };
        slots.push(PreviewSlot { rect, color });
        layer = layer + 1;
    }
    slots
}

/// Lays out the panel that shows the state `bottles` of the search, after
/// `explored_states` states, with `queue_len` waiting and the state `depth`
/// moves deep; `None` where there is no bottle to show.
pub fn plan_solver_search_preview(
    bottles: &Vec<Bottle>,
    explored_states: usize,
    queue_len: usize,
    depth: usize,
    is_goal: bool,
) -> (r: Option<SearchPreview>)
    requires
        preview_fits(bottles@.len()),
    ensures
        (r is None) == (bottles@.len() == 0),
        r matches Some(p) ==> plans_preview(p, bottles@, explored_states, queue_len, depth, is_goal),
{
    let n = bottles.len();
    if n == 0 {
        return None;
    }
    let rows_n: usize = n / 7 + if n % 7 == 0 {
        0
    } else {
        1
    };
    assert(rows_n == preview_rows(n as nat));
    let rows = rows_n as i32;
    let panel = PreviewRect { x: 12, y: 12, width: 252, height: 64 + rows * 76 + (rows - 1) * 16 };

    let mut title = String::new();
    if is_goal {
        push_str(&mut title, "Solver Search (goal reached)");
    } else {
        push_str(&mut title, "Solver Search");
    }
    let mut stats = String::new();
    push_str(&mut stats, "expanded ");
    push_decimal(&mut stats, explored_states as u64);
    push_str(&mut stats, " | frontier ");
    push_decimal(&mut stats, queue_len as u64);
    push_str(&mut stats, " | depth ");
    push_decimal(&mut stats, depth as u64);
    assert(stats@ =~= preview_stats(explored_states, queue_len, depth));

    let mut shown: Vec<PreviewBottle> = Vec::new();
    let mut i: usize = 0;
    while i < n
        invariant
            n == bottles@.len(),
            rows_n == preview_rows(n as nat),
            preview_fits(n as nat),
            i <= n,
            shown@.len() == i,
            forall|k: int|
                0 <= k < i ==> previews_bottle(
                    #[trigger] shown@[k],
                    k,
                    bottles@[k].spec_colors(),
                    bottles@[k].spec_solved(),
                ),
        decreases n - i,
    {
        assert(i / 7 < rows_n);
        let col = (i % 7) as i32;
        let row = (i / 7) as i32;
        let x = 24 + col * 34;
        let y = 70 + row * 92;
        let colors = bottles[i].get_fills();
        let slots = preview_slots(x, y, &colors);
        let frame = PreviewRect { x, y, width: 24, height: 76 };
        let ghost before = shown@;
        shown.push(PreviewBottle { frame, solved: bottles[i].is_solved(), slots });
        proof {
            assert(previews_bottle(
                shown@[i as int],
                i as int,
                bottles@[i as int].spec_colors(),
                bottles@[i as int].spec_solved(),
            ));
            assert forall|k: int| 0 <= k < i implies #[trigger] shown@[k] == before[k] by {}
        }
        i = i + 1;
    }
    Some(
        SearchPreview {
            panel,
            title_at: Pos(24, 36),
            title,
            stats_at: Pos(24, 58),
            stats,
            goal: is_goal,
            bottles: shown,
        },
    )
}

/// The swatch of layer `k`, counted from the top, over a bottle clicked at
/// `click`: 12 pixels square, centred 28 pixels below the one above, the top
/// one 42 pixels above the click; the colour of that layer, if the bottle
/// holds it.
pub open spec fn swatch_is(s: PreviewSlot, click: Pos, k: int, colors: Seq<BottleColor>) -> bool {
    &&& rect_is(s.rect, click.0 - 6, click.1 + (k * 28 - 42) - 6, 12, 12)
    &&& s.color == (if 3 - k < colors.len() {
        Some(colors[3 - k])
    } else {
        None
    })
}

/// The swatches fit 32-bit coordinates around a click at `click`.
pub open spec fn swatches_fit(click: Pos) -> bool {
    &&& click.0 >= i32::MIN + 6
    &&& i32::MIN + 48 <= click.1 <= i32::MAX - 36
}

/// The swatches over each bottle: four, from the top layer down, over a
/// bottle with a click position, none over one without.
pub fn plan_detected_bottles_overlay(bottles: &Vec<Bottle>) -> (r: Vec<Vec<PreviewSlot>>)
    requires
        forall|i: int|
            0 <= i < bottles@.len() && (#[trigger] bottles@[i]).spec_click() is Some
                ==> swatches_fit(bottles@[i].spec_click()->0),
    ensures
        r@.len() == bottles@.len(),
        forall|i: int|
            0 <= i < bottles@.len() ==> match (#[trigger] bottles@[i]).spec_click() {
                None => r@[i]@.len() == 0,
                Some(click) => r@[i]@.len() == 4 && forall|k: int|
                    0 <= k < 4 ==> swatch_is(#[trigger] r@[i]@[k], click, k, bottles@[i].spec_colors()),
            },
{
    let mut out: Vec<Vec<PreviewSlot>> = Vec::new();
    let mut i: usize = 0;
    while i < bottles.len()
        invariant
            i <= bottles@.len(),
            out@.len() == i,
            forall|j: int|
                0 <= j < bottles@.len() && (#[trigger] bottles@[j]).spec_click() is Some
                    ==> swatches_fit(bottles@[j].spec_click()->0),
            forall|j: int|
                0 <= j < i ==> match (#[trigger] bottles@[j]).spec_click() {
                    None => out@[j]@.len() == 0,
                    Some(click) => out@[j]@.len() == 4 && forall|k: int|
                        0 <= k < 4 ==> swatch_is(#[trigger] out@[j]@[k], click, k, bottles@[j].spec_colors()),
                },
        decreases bottles@.len() - i,
    {
        let mut swatches: Vec<PreviewSlot> = Vec::new();
        match *bottles[i].click_position() {
            None => {},
            Some(click) => {
                assert(swatches_fit(click));
                let colors = bottles[i].get_fills();
                let mut k: usize = 0;
                while k < 4
                    invariant
                        k <= 4,
                        swatches_fit(click),
                        swatches@.len() == k,
                        forall|m: int| 0 <= m < k ==> #[trigger] swatch_is(swatches@[m], click, m, colors@),
                    decreases 4 - k,
                {
                    let ki = k as i32;
                    let rect = PreviewRect {
                        x: click.0 - 6,
                        y: click.1 + (ki * 28 - 42 - 6),
                        width: 12,
                        height: 12,
                    };
                    let layer = 3 - k;
                    let color = if layer < colors.len() {
                        Some(colors[layer])
                    } else {
                        None
                    };
                    swatches.push(PreviewSlot { rect, color });
                    k = k + 1;
                }
            },
        }
        out.push(swatches);
        i = i + 1;
    }
    out
}

} // verus!
