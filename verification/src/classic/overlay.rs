//! The overlay that shows the solver's plan over the frame of the classic
//! game: a panel with a progress bar, one slot per planned move coloured by
//! its state and its two bottles, and the move being played.
//!
//! A frame is `width` pixels wide and stored row by row; the pixel in row
//! `row` and column `col` is at `row * width + col`. Drawing is modelled by
//! operations whose effect on a frame `apply_ops` gives.
use vstd::prelude::*;

use vstd::arithmetic::div_mod::lemma_fundamental_div_mod_converse;

use crate::classic::solver::Move;

verus! {

pub const OVERLAY_PANEL_COLOR: u32 = 0x10141a;
pub const OVERLAY_BORDER_COLOR: u32 = 0x39414a;
pub const MOVE_DONE_COLOR: u32 = 0x3fd46d;
pub const MOVE_CURRENT_COLOR: u32 = 0xffc34d;
pub const MOVE_PENDING_COLOR: u32 = 0x525f6d;
pub const PROGRESS_BG_COLOR: u32 = 0x2c333b;
pub const PROGRESS_FILL_COLOR: u32 = 0x3ea6ff;

/// A drawing operation: a filled rectangle, or the outline of a rectangle
/// `thickness` pixels thick, drawn inwards; `x` and `y` are its left column
/// and top row.
#[derive(Clone, Copy)]
pub enum DrawOp {
    Fill { x: usize, y: usize, w: usize, h: usize, color: u32 },
    Outline { x: usize, y: usize, w: usize, h: usize, thickness: usize, color: u32 },
}

/// `a - b`, or 0 when `b` is larger.
pub open spec fn sat_sub(a: int, b: int) -> int {
    if a >= b {
        a - b
    } else {
        0
    }
}

pub open spec fn min(a: int, b: int) -> int {
    if a <= b {
        a
    } else {
        b
    }
}

/// The ring of an outline at `off` pixels inside the rectangle covers the
/// pixel: its top or bottom row between its left and right columns, or its
/// left or right column between its top and bottom rows. A ring whose top
/// left corner lies outside the frame draws nothing; its right column and
/// bottom row are clipped to the frame.
pub open spec fn ring_covers(
    width: int,
    height: int,
    x: int,
    y: int,
    w: int,
    h: int,
    off: int,
    row: int,
    col: int,
) -> bool {
    let left = x + off;
    let top = y + off;
    let right = min(sat_sub(x + w, 1 + off), width - 1);
    let bottom = min(sat_sub(y + h, 1 + off), height - 1);
    &&& left < width
    &&& top < height
    &&& (((row == top || row == bottom) && left <= col <= right) || ((col == left || col == right)
        && top <= row <= bottom))
}

/// One of the first `t` rings of the outline covers the pixel.
pub open spec fn outline_covers(
    width: int,
    height: int,
    x: int,
    y: int,
    w: int,
    h: int,
    t: int,
    row: int,
    col: int,
) -> bool
    decreases t,
{
    if t <= 0 {
        false
    } else {
        outline_covers(width, height, x, y, w, h, t - 1, row, col) || ring_covers(
            width,
            height,
            x,
            y,
            w,
            h,
            t - 1,
            row,
            col,
        )
    }
}

/// The operation paints the pixel in row `row` and column `col` of the frame.
pub open spec fn op_covers(op: DrawOp, width: int, height: int, row: int, col: int) -> bool {
    match op {
        DrawOp::Fill { x, y, w, h, .. } => y <= row < y + h && x <= col < x + w,
        DrawOp::Outline { x, y, w, h, thickness, .. } => w > 0 && h > 0 && outline_covers(
            width,
            height,
            x as int,
            y as int,
            w as int,
            h as int,
            thickness as int,
            row,
            col,
        ),
    }
}

pub open spec fn op_color(op: DrawOp) -> u32 {
    match op {
        DrawOp::Fill { color, .. } => color,
        DrawOp::Outline { color, .. } => color,
    }
}

/// The pixel at index `i` lies in the frame and the operation paints it.
pub open spec fn paints(op: DrawOp, width: int, height: int, i: int) -> bool {
    &&& width > 0
    &&& i / width < height
    &&& op_covers(op, width, height, i / width, i % width)
}

/// The frame after the operation.
pub open spec fn apply_op(buf: Seq<u32>, width: int, height: int, op: DrawOp) -> Seq<u32> {
    Seq::new(
        buf.len(),
        |i: int|
            if paints(op, width, height, i) {
                op_color(op)
            } else {
                buf[i]
            },
    )
}

/// The frame after the operations, in order.
pub open spec fn apply_ops(buf: Seq<u32>, width: int, height: int, ops: Seq<DrawOp>) -> Seq<u32>
    decreases ops.len(),
{
    if ops.len() == 0 {
        buf
    } else {
        apply_op(apply_ops(buf, width, height, ops.drop_last()), width, height, ops.last())
    }
}

/// The pixel in row `row` and column `col` of a frame is at index
/// `row * width + col`, and that index gives back the row and the column.
proof fn lemma_pixel_index(width: int, height: int, row: int, col: int)
    requires
        0 <= row < height,
        0 <= col < width,
    ensures
        0 <= row * width + col < width * height,
        (row * width + col) / width == row,
        (row * width + col) % width == col,
{
    assert(0 <= row * width + col < width * height) by (nonlinear_arith)
        requires
            0 <= row < height,
            0 <= col < width,
    ;
    lemma_fundamental_div_mod_converse(row * width + col, width, row, col);
}

fn fill_rect(
    buffer: &mut Vec<u32>,
    width: usize,
    height: usize,
    x: usize,
    y: usize,
    rect_width: usize,
    rect_height: usize,
    color: u32,
)
    requires
        old(buffer)@.len() >= width * height,
        x + rect_width <= usize::MAX,
        y + rect_height <= usize::MAX,
    ensures
        final(buffer)@ == apply_op(
            old(buffer)@,
            width as int,
            height as int,
            DrawOp::Fill { x, y, w: rect_width, h: rect_height, color },
        ),
{
    let ghost op = DrawOp::Fill { x, y, w: rect_width, h: rect_height, color };
    let ghost start = buffer@;
    let max_x = if x + rect_width < width {
        x + rect_width
    } else {
        width
    };
    let max_y = if y + rect_height < height {
        y + rect_height
    } else {
        height
    };
    let mut row = y;
    while row < max_y
        invariant
            op == (DrawOp::Fill { x, y, w: rect_width, h: rect_height, color }),
            start.len() >= width * height,
            buffer@.len() == start.len(),
            max_x <= width,
            max_x == width || max_x == x + rect_width,
            max_x <= x + rect_width,
            max_y <= y + rect_height,
            max_y <= height,
            max_y == height || max_y == y + rect_height,
            y <= row,
            forall|i: int|
                #![trigger buffer@[i]]
                0 <= i < start.len() ==> buffer@[i] == if paints(op, width as int, height as int, i)
                    && i / (width as int) < row {
                    color
                } else {
                    start[i]
                },
        decreases max_y - row,
    {
        let mut col = x;
        while col < max_x
            invariant
                op == (DrawOp::Fill { x, y, w: rect_width, h: rect_height, color }),
                start.len() >= width * height,
                buffer@.len() == start.len(),
                max_x <= width,
                max_x == width || max_x == x + rect_width,
                max_x <= x + rect_width,
                max_y <= y + rect_height,
                max_y <= height,
                y <= row < max_y,
                x <= col,
                forall|i: int|
                    #![trigger buffer@[i]]
                    0 <= i < start.len() ==> buffer@[i] == if paints(
                        op,
                        width as int,
                        height as int,
                        i,
                    ) && (i / (width as int) < row || (i / (width as int) == row && i % (
                    width as int) < col)) {
                        color
                    } else {
                        start[i]
                    },
            decreases max_x - col,
        {
            proof {
                lemma_pixel_index(width as int, height as int, row as int, col as int);
                assert(buffer@.len() == buffer.len());
            }
            let index = row * width + col;
            buffer.set(index, color);
            proof {
                assert(paints(op, width as int, height as int, index as int));
                assert forall|i: int|
                    0 <= i < start.len() && #[trigger] (i / (width as int)) == row && i % (
                    width as int) == col implies i == index by {
                    lemma_index_of(i, width as int);
                }
            }
            col = col + 1;
        }
        proof {
            assert forall|i: int| 0 <= i < start.len() implies #[trigger] buffer@[i] == if paints(
                op,
                width as int,
                height as int,
                i,
            ) && i / (width as int) < row + 1 {
                color
            } else {
                start[i]
            } by {
                if paints(op, width as int, height as int, i) {
                    vstd::arithmetic::div_mod::lemma_mod_pos_bound(i, width as int);
                }
            }
        }
        row = row + 1;
    }
    proof {
        assert forall|i: int| 0 <= i < start.len() implies #[trigger] buffer@[i] == apply_op(
            start,
            width as int,
            height as int,
            op,
        )[i] by {
            if paints(op, width as int, height as int, i) {
                assert(i / (width as int) < row);
            }
        }
        assert(buffer@ =~= apply_op(start, width as int, height as int, op));
    }
}

proof fn lemma_index_of(i: int, width: int)
    requires
        0 <= i,
        0 < width,
    ensures
        i == (i / width) * width + i % width,
        0 <= i % width < width,
        0 <= i / width,
{
    vstd::arithmetic::div_mod::lemma_fundamental_div_mod(i, width);
    vstd::arithmetic::div_mod::lemma_mod_pos_bound(i, width);
    vstd::arithmetic::div_mod::lemma_div_pos_is_pos(i, width);
    assert(width * (i / width) == (i / width) * width) by (nonlinear_arith);
}

/// The outline's rings before `off`, and the part of ring `off` drawn so far:
/// its top and bottom rows up to column `col`, and once those are done its
/// left and right columns down to row `row`.
spec fn outline_progress(
    width: int,
    height: int,
    x: int,
    y: int,
    w: int,
    h: int,
    off: int,
    col: int,
    row: int,
    r: int,
    c: int,
) -> bool {
    let left = x + off;
    let top = y + off;
    let right = min(sat_sub(x + w, 1 + off), width - 1);
    let bottom = min(sat_sub(y + h, 1 + off), height - 1);
    ||| outline_covers(width, height, x, y, w, h, off, r, c)
    ||| (r == top || r == bottom) && left <= c < col && c <= right
    ||| (c == left || c == right) && top <= r < row && r <= bottom
}

fn draw_rect_outline(
    buffer: &mut Vec<u32>,
    width: usize,
    height: usize,
    x: usize,
    y: usize,
    rect_width: usize,
    rect_height: usize,
    thickness: usize,
    color: u32,
)
    requires
        old(buffer)@.len() >= width * height,
        x + rect_width <= usize::MAX,
        y + rect_height <= usize::MAX,
        x + thickness <= usize::MAX,
        y + thickness <= usize::MAX,
    ensures
        final(buffer)@ == apply_op(
            old(buffer)@,
            width as int,
            height as int,
            DrawOp::Outline { x, y, w: rect_width, h: rect_height, thickness, color },
        ),
{
    let ghost op = DrawOp::Outline { x, y, w: rect_width, h: rect_height, thickness, color };
    let ghost start = buffer@;
    let ghost wi = width as int;
    let ghost hi = height as int;
    if rect_width == 0 || rect_height == 0 {
        proof {
            assert(buffer@ =~= apply_op(start, wi, hi, op));
        }
        return;
    }
    let mut offset: usize = 0;
    while offset < thickness
        invariant
            op == (DrawOp::Outline { x, y, w: rect_width, h: rect_height, thickness, color }),
            wi == width,
            hi == height,
            rect_width > 0,
            rect_height > 0,
            x + rect_width <= usize::MAX,
            y + rect_height <= usize::MAX,
            x + thickness <= usize::MAX,
            y + thickness <= usize::MAX,
            offset <= thickness,
            start.len() >= width * height,
            buffer@.len() == start.len(),
            forall|i: int|
                #![trigger buffer@[i]]
                0 <= i < start.len() ==> buffer@[i] == if wi > 0 && i / wi < hi && outline_covers(
                    wi,
                    hi,
                    x as int,
                    y as int,
                    rect_width as int,
                    rect_height as int,
                    offset as int,
                    i / wi,
                    i % wi,
                ) {
                    color
                } else {
                    start[i]
                },
        decreases thickness - offset,
    {
        let left = x + offset;
        let top = y + offset;
        if left < width && top < height {
            let r_end = (x + rect_width).saturating_sub(1 + offset);
            let right = if r_end < width - 1 {
                r_end
            } else {
                width - 1
            };
            let b_end = (y + rect_height).saturating_sub(1 + offset);
            let bottom = if b_end < height - 1 {
                b_end
            } else {
                height - 1
            };
            let mut col = left;
            while col <= right
                invariant
                    wi == width,
                    hi == height,
                    0 < width,
                    left < width,
                    top < height,
                    right < width,
                    bottom < height,
                    left <= col,
                    col <= right + 1 || col == left,
                    left == x + offset,
                    top == y + offset,
                    right == min(sat_sub(x + rect_width, 1 + offset), wi - 1),
                    bottom == min(sat_sub(y + rect_height, 1 + offset), hi - 1),
                    start.len() >= width * height,
                    buffer@.len() == start.len(),
                    forall|i: int|
                        #![trigger buffer@[i]]
                        0 <= i < start.len() ==> buffer@[i] == if i / wi < hi && outline_progress(
                            wi,
                            hi,
                            x as int,
                            y as int,
                            rect_width as int,
                            rect_height as int,
                            offset as int,
                            col as int,
                            top as int,
                            i / wi,
                            i % wi,
                        ) {
                            color
                        } else {
                            start[i]
                        },
                decreases right + 1 - col,
            {
                proof {
                    lemma_pixel_index(wi, hi, top as int, col as int);
                    lemma_pixel_index(wi, hi, bottom as int, col as int);
                    assert(buffer@.len() == buffer.len());
                }
                buffer.set(top * width + col, color);
                buffer.set(bottom * width + col, color);
                proof {
                    assert forall|i: int|
                        0 <= i < start.len() && #[trigger] (i / wi) < hi implies (i % wi == col && (
                        i / wi == top || i / wi == bottom)) ==> (i == top * width + col || i
                        == bottom * width + col) by {
                        lemma_index_of(i, wi);
                    }
                }
                col = col + 1;
            }
            let mut row = top;
            while row <= bottom
                invariant
                    wi == width,
                    hi == height,
                    0 < width,
                    left < width,
                    top < height,
                    right < width,
                    bottom < height,
                    top <= row,
                    row <= bottom + 1 || row == top,
                    col == right + 1 || (col == left && left > right),
                    left == x + offset,
                    top == y + offset,
                    right == min(sat_sub(x + rect_width, 1 + offset), wi - 1),
                    bottom == min(sat_sub(y + rect_height, 1 + offset), hi - 1),
                    start.len() >= width * height,
                    buffer@.len() == start.len(),
                    forall|i: int|
                        #![trigger buffer@[i]]
                        0 <= i < start.len() ==> buffer@[i] == if i / wi < hi && outline_progress(
                            wi,
                            hi,
                            x as int,
                            y as int,
                            rect_width as int,
                            rect_height as int,
                            offset as int,
                            col as int,
                            row as int,
                            i / wi,
                            i % wi,
                        ) {
                            color
                        } else {
                            start[i]
                        },
                decreases bottom + 1 - row,
            {
                proof {
                    lemma_pixel_index(wi, hi, row as int, left as int);
                    lemma_pixel_index(wi, hi, row as int, right as int);
                    assert(buffer@.len() == buffer.len());
                }
                buffer.set(row * width + left, color);
                buffer.set(row * width + right, color);
                proof {
                    assert forall|i: int|
                        0 <= i < start.len() && #[trigger] (i / wi) < hi implies (i / wi == row && (
                        i % wi == left || i % wi == right)) ==> (i == row * width + left || i
                        == row * width + right) by {
                        lemma_index_of(i, wi);
                    }
                }
                row = row + 1;
            }
            proof {
                assert forall|i: int| 0 <= i < start.len() implies #[trigger] buffer@[i] == if wi
                    > 0 && i / wi < hi && outline_covers(
                    wi,
                    hi,
                    x as int,
                    y as int,
                    rect_width as int,
                    rect_height as int,
                    offset + 1,
                    i / wi,
                    i % wi,
                ) {
                    color
                } else {
                    start[i]
                } by {
                    lemma_index_of(i, wi);
                }
            }
        } else {
            proof {
                assert forall|i: int| 0 <= i < start.len() implies #[trigger] buffer@[i] == if wi
                    > 0 && i / wi < hi && outline_covers(
                    wi,
                    hi,
                    x as int,
                    y as int,
                    rect_width as int,
                    rect_height as int,
                    offset + 1,
                    i / wi,
                    i % wi,
                ) {
                    color
                } else {
                    start[i]
                } by {}
            }
        }
        offset = offset + 1;
    }
    proof {
        assert(buffer@ =~= apply_op(start, wi, hi, op));
    }
}

/// The operation's coordinates stay within the machine's integers.
pub open spec fn op_fits(op: DrawOp) -> bool {
    match op {
        DrawOp::Fill { x, y, w, h, .. } => x + w <= usize::MAX && y + h <= usize::MAX,
        DrawOp::Outline { x, y, w, h, thickness, .. } => {
            &&& x + w <= usize::MAX
            &&& y + h <= usize::MAX
            &&& x + thickness <= usize::MAX
            &&& y + thickness <= usize::MAX
        },
    }
}

proof fn lemma_apply_push(buf: Seq<u32>, width: int, height: int, ops: Seq<DrawOp>, op: DrawOp)
    ensures
        apply_ops(buf, width, height, ops.push(op)) == apply_op(
            apply_ops(buf, width, height, ops),
            width,
            height,
            op,
        ),
{
    assert(ops.push(op).drop_last() =~= ops);
}

fn apply(buffer: &mut Vec<u32>, width: usize, height: usize, op: DrawOp)
    requires
        old(buffer)@.len() >= width * height,
        op_fits(op),
    ensures
        final(buffer)@ == apply_op(old(buffer)@, width as int, height as int, op),
{
    match op {
        DrawOp::Fill { x, y, w, h, color } => fill_rect(buffer, width, height, x, y, w, h, color),
        DrawOp::Outline { x, y, w, h, thickness, color } => draw_rect_outline(
            buffer,
            width,
            height,
            x,
            y,
            w,
            h,
            thickness,
            color,
        ),
    }
}

/// The colours by which bottles are told apart, by index.
pub open spec fn palette() -> Seq<u32> {
    seq![
        0xff6b6bu32,
        0x4dabf7u32,
        0xffd43bu32,
        0x69db7cu32,
        0xf783acu32,
        0x94d82du32,
        0xff922bu32,
        0x66d9e8u32,
        0xb197fcu32,
        0xff8787u32,
    ]
}

/// The colour of the bottle at `index`: the palette, repeated.
fn bottle_index_to_color(index: usize) -> (r: u32)
    ensures
        r == palette()[index as int % 10],
{
    let colors: [u32; 10] = [
        0xff6b6b,
        0x4dabf7,
        0xffd43b,
        0x69db7c,
        0xf783ac,
        0x94d82d,
        0xff922b,
        0x66d9e8,
        0xb197fc,
        0xff8787,
    ];
    proof {
        assert(colors@ =~= palette());
    }
    colors[index % 10]
}

pub open spec fn max(a: int, b: int) -> int {
    if a >= b {
        a
    } else {
        b
    }
}

/// The width of the panel in a frame `width` pixels wide.
pub open spec fn panel_width(width: int) -> int {
    min(sat_sub(width, 24), 420)
}

/// The colour of a move's slot: done, being played, or still to come.
pub open spec fn slot_color(index: int, performed: int) -> u32 {
    if index < performed {
        MOVE_DONE_COLOR
    } else if index == performed {
        MOVE_CURRENT_COLOR
    } else {
        MOVE_PENDING_COLOR
    }
}

/// The slot of the move at `index`: its box in the colour of its state, the
/// box's border, and a band in the colour of each of its two bottles.
pub open spec fn slot_ops(m: (usize, usize), index: int, performed: int, slot_width: int) -> Seq<
    DrawOp,
> {
    let x = 24 + index * slot_width;
    let w = max(sat_sub(slot_width, 3), 4);
    seq![
        DrawOp::Fill {
            x: x as usize,
            y: 26,
            w: w as usize,
            h: 28,
            color: slot_color(index, performed),
        },
        DrawOp::Outline {
            x: x as usize,
            y: 26,
            w: w as usize,
            h: 28,
            thickness: 1,
            color: OVERLAY_BORDER_COLOR,
        },
        DrawOp::Fill {
            x: (x + 2) as usize,
            y: 28,
            w: sat_sub(w, 4) as usize,
            h: 9,
            color: palette()[m.0 as int % 10],
        },
        DrawOp::Fill {
            x: (x + 2) as usize,
            y: 43,
            w: sat_sub(w, 4) as usize,
            h: 9,
            color: palette()[m.1 as int % 10],
        },
    ]
}

/// The slots of the first `k` moves.
pub open spec fn slots_ops(moves: Seq<(usize, usize)>, performed: int, slot_width: int, k: int) -> Seq<
    DrawOp,
>
    decreases k,
{
    if k <= 0 {
        Seq::empty()
    } else {
        slots_ops(moves, performed, slot_width, k - 1) + slot_ops(
            moves[k - 1],
            k - 1,
            performed,
            slot_width,
        )
    }
}

/// The panel and its border, the progress bar's background and border, and
/// with a plan of `n` moves the part of the bar for the moves played.
pub open spec fn panel_ops(width: int, n: int, performed: int) -> Seq<DrawOp> {
    let pw = panel_width(width);
    let bar = sat_sub(pw, 24);
    let head = seq![
        DrawOp::Fill { x: 12, y: 12, w: pw as usize, h: 78, color: OVERLAY_PANEL_COLOR },
        DrawOp::Outline {
            x: 12,
            y: 12,
            w: pw as usize,
            h: 78,
            thickness: 2,
            color: OVERLAY_BORDER_COLOR,
        },
        DrawOp::Fill { x: 24, y: 70, w: bar as usize, h: 10, color: PROGRESS_BG_COLOR },
        DrawOp::Outline {
            x: 24,
            y: 70,
            w: bar as usize,
            h: 10,
            thickness: 1,
            color: OVERLAY_BORDER_COLOR,
        },
    ];
    if n > 0 {
        head.push(
            DrawOp::Fill {
                x: 25,
                y: 71,
                w: ((sat_sub(bar, 2) * min(performed, n)) / n) as usize,
                h: 8,
                color: PROGRESS_FILL_COLOR,
            },
        )
    } else {
        head
    }
}

/// The width of a move's slot, with `n` moves planned.
pub open spec fn slot_span(width: int, n: int) -> int {
    sat_sub(panel_width(width), 24) / min(max(n, 1), 24)
}

/// A marker when more than 24 moves are planned, and for the move being
/// played a box with a band for each of its two bottles.
pub open spec fn tail_ops(width: int, n: int, active: Option<(usize, usize)>) -> Seq<DrawOp> {
    let pw = panel_width(width);
    let marker = if n > 24 {
        seq![
            DrawOp::Fill {
                x: (12 + sat_sub(pw, 16)) as usize,
                y: 26,
                w: 4,
                h: 28,
                color: MOVE_PENDING_COLOR,
            },
        ]
    } else {
        Seq::empty()
    };
    let current = match active {
        Some(m) => {
            let ax = 12 + sat_sub(pw, 48);
            seq![
                DrawOp::Fill { x: ax as usize, y: 52, w: 36, h: 10, color: MOVE_CURRENT_COLOR },
                DrawOp::Fill {
                    x: (ax + 2) as usize,
                    y: 54,
                    w: 15,
                    h: 6,
                    color: palette()[m.0 as int % 10],
                },
                DrawOp::Fill {
                    x: (ax + 19) as usize,
                    y: 54,
                    w: 15,
                    h: 6,
                    color: palette()[m.1 as int % 10],
                },
            ]
        },
        None => Seq::empty(),
    };
    marker + current
}

/// What the overlay draws: the panel with its progress bar, a slot for each
/// of the first 24 moves, a marker when more are planned, and the move being
/// played.
pub open spec fn overlay_ops(
    width: int,
    moves: Seq<(usize, usize)>,
    performed: int,
    active: Option<(usize, usize)>,
) -> Seq<DrawOp> {
    let n = moves.len() as int;
    panel_ops(width, n, performed) + slots_ops(moves, performed, slot_span(width, n), min(n, 24))
        + tail_ops(width, n, active)
}

proof fn lemma_apply_len(buf: Seq<u32>, width: int, height: int, ops: Seq<DrawOp>)
    ensures
        apply_ops(buf, width, height, ops).len() == buf.len(),
    decreases ops.len(),
{
    if ops.len() > 0 {
        lemma_apply_len(buf, width, height, ops.drop_last());
    }
}

proof fn lemma_apply_concat(buf: Seq<u32>, width: int, height: int, a: Seq<DrawOp>, b: Seq<DrawOp>)
    ensures
        apply_ops(buf, width, height, a + b) == apply_ops(
            apply_ops(buf, width, height, a),
            width,
            height,
            b,
        ),
    decreases b.len(),
{
    if b.len() == 0 {
        assert(a + b =~= a);
    } else {
        lemma_apply_concat(buf, width, height, a, b.drop_last());
        assert((a + b).drop_last() =~= a + b.drop_last());
        assert((a + b).last() == b.last());
    }
}

/// The solver's progress bar fits the machine's integers.
pub open spec fn progress_fits(width: int, moves: int, performed: int) -> bool {
    sat_sub(sat_sub(panel_width(width), 24), 2) * min(performed, moves) <= usize::MAX
}

/// The moves by their views.
pub open spec fn plan_v(moves: Seq<Move>) -> Seq<(usize, usize)> {
    moves.map_values(|m: Move| m@)
}

fn draw_panel(buffer: &mut Vec<u32>, width: usize, height: usize, n: usize, performed_moves: usize)
    requires
        old(buffer)@.len() >= width * height,
        progress_fits(width as int, n as int, performed_moves as int),
    ensures
        final(buffer)@ == apply_ops(
            old(buffer)@,
            width as int,
            height as int,
            panel_ops(width as int, n as int, performed_moves as int),
        ),
{
    let ghost start = buffer@;
    let ghost wi = width as int;
    let ghost hi = height as int;
    let ghost mut ops: Seq<DrawOp> = Seq::empty();
    let panel_x: usize = 12;
    let panel_y: usize = 12;
    let inner = if width >= 24 {
        width - 24
    } else {
        0
    };
    let panel_width = if inner < 420 {
        inner
    } else {
        420
    };
    let panel_height: usize = 78;
    let op = DrawOp::Fill {
        x: panel_x,
        y: panel_y,
        w: panel_width,
        h: panel_height,
        color: OVERLAY_PANEL_COLOR,
    };
    apply(buffer, width, height, op);
    proof {
        lemma_apply_push(start, wi, hi, ops, op);
        ops = ops.push(op);
    }
    let op = DrawOp::Outline {
        x: panel_x,
        y: panel_y,
        w: panel_width,
        h: panel_height,
        thickness: 2,
        color: OVERLAY_BORDER_COLOR,
    };
    apply(buffer, width, height, op);
    proof {
        lemma_apply_push(start, wi, hi, ops, op);
        ops = ops.push(op);
    }
    let progress_outer_x = panel_x + 12;
    let progress_outer_y = panel_y + panel_height - 20;
    let progress_outer_w = if panel_width >= 24 {
        panel_width - 24
    } else {
        0
    };
    let progress_outer_h: usize = 10;
    let op = DrawOp::Fill {
        x: progress_outer_x,
        y: progress_outer_y,
        w: progress_outer_w,
        h: progress_outer_h,
        color: PROGRESS_BG_COLOR,
    };
    apply(buffer, width, height, op);
    proof {
        lemma_apply_push(start, wi, hi, ops, op);
        ops = ops.push(op);
    }
    let op = DrawOp::Outline {
        x: progress_outer_x,
        y: progress_outer_y,
        w: progress_outer_w,
        h: progress_outer_h,
        thickness: 1,
        color: OVERLAY_BORDER_COLOR,
    };
    apply(buffer, width, height, op);
    proof {
        lemma_apply_push(start, wi, hi, ops, op);
        ops = ops.push(op);
    }
    if n > 0 {
        let progress = if performed_moves < n {
            performed_moves
        } else {
            n
        };
        let bar_inner = if progress_outer_w >= 2 {
            progress_outer_w - 2
        } else {
            0
        };
        let fill_width = (bar_inner * progress) / n;
        proof {
            let bi = bar_inner as int;
            let pr = progress as int;
            let nn = n as int;
            assert((bi * pr) / nn <= bi) by (nonlinear_arith)
                requires
                    0 <= bi,
                    0 <= pr <= nn,
                    nn > 0,
            ;
        }
        let op = DrawOp::Fill {
            x: progress_outer_x + 1,
            y: progress_outer_y + 1,
            w: fill_width,
            h: progress_outer_h - 2,
            color: PROGRESS_FILL_COLOR,
        };
        apply(buffer, width, height, op);
        proof {
            lemma_apply_push(start, wi, hi, ops, op);
            ops = ops.push(op);
        }
    }
    proof {
        assert(ops =~= panel_ops(wi, n as int, performed_moves as int));
    }
}

fn draw_slots(
    buffer: &mut Vec<u32>,
    width: usize,
    height: usize,
    planned_moves: &Vec<Move>,
    performed_moves: usize,
)
    requires
        old(buffer)@.len() >= width * height,
    ensures
        final(buffer)@ == apply_ops(
            old(buffer)@,
            width as int,
            height as int,
            slots_ops(
                plan_v(planned_moves@),
                performed_moves as int,
                slot_span(width as int, planned_moves@.len() as int),
                min(planned_moves@.len() as int, 24),
            ),
        ),
{
    let ghost start = buffer@;
    let ghost wi = width as int;
    let ghost hi = height as int;
    let ghost moves = plan_v(planned_moves@);
    let inner = if width >= 24 {
        width - 24
    } else {
        0
    };
    let panel_width = if inner < 420 {
        inner
    } else {
        420
    };
    let bar = if panel_width >= 24 {
        panel_width - 24
    } else {
        0
    };
    let n = planned_moves.len();
    let at_least_one = if n > 1 {
        n
    } else {
        1
    };
    let slots = if at_least_one < 24 {
        at_least_one
    } else {
        24
    };
    let slot_width = bar / slots;
    let moves_preview = if n < 24 {
        n
    } else {
        24
    };
    proof {
        let b = bar as int;
        let sl = slots as int;
        assert((b / sl) * sl <= b) by (nonlinear_arith)
            requires
                0 <= b,
                sl > 0,
        ;
        assert(buffer@ =~= apply_ops(start, wi, hi, Seq::empty()));
    }
    let mut index: usize = 0;
    while index < moves_preview
        invariant
            wi == width,
            hi == height,
            moves == plan_v(planned_moves@),
            n == planned_moves@.len(),
            moves_preview <= slots,
            moves_preview <= n,
            0 < slots,
            slot_width * slots <= bar,
            bar <= 396,
            slot_width == slot_span(wi, n as int),
            moves_preview == min(n as int, 24),
            index <= moves_preview,
            start.len() >= width * height,
            buffer@.len() == start.len(),
            buffer@ == apply_ops(
                start,
                wi,
                hi,
                slots_ops(moves, performed_moves as int, slot_width as int, index as int),
            ),
        decreases moves_preview - index,
    {
        let ghost ops = slots_ops(moves, performed_moves as int, slot_width as int, index as int);
        let m = planned_moves[index];
        proof {
            let ii = index as int;
            let sw = slot_width as int;
            let sl = slots as int;
            let b = bar as int;
            assert(ii * sw <= b) by (nonlinear_arith)
                requires
                    0 <= ii < sl,
                    0 <= sw,
                    sw * sl <= b,
            ;
            assert(moves[index as int] == m@);
        }
        let x = 24 + index * slot_width;
        let y: usize = 26;
        let w0 = if slot_width >= 3 {
            slot_width - 3
        } else {
            0
        };
        let w = if w0 > 4 {
            w0
        } else {
            4
        };
        let h: usize = 28;
        let status_color = if index < performed_moves {
            MOVE_DONE_COLOR
        } else if index == performed_moves {
            MOVE_CURRENT_COLOR
        } else {
            MOVE_PENDING_COLOR
        };
        let op1 = DrawOp::Fill { x, y, w, h, color: status_color };
        let op2 = DrawOp::Outline { x, y, w, h, thickness: 1, color: OVERLAY_BORDER_COLOR };
        let op3 = DrawOp::Fill {
            x: x + 2,
            y: y + 2,
            w: w - 4,
            h: 9,
            color: bottle_index_to_color(m.source_index()),
        };
        let op4 = DrawOp::Fill {
            x: x + 2,
            y: y + h - 11,
            w: w - 4,
            h: 9,
            color: bottle_index_to_color(m.destination_index()),
        };
        apply(buffer, width, height, op1);
        apply(buffer, width, height, op2);
        apply(buffer, width, height, op3);
        apply(buffer, width, height, op4);
        proof {
            lemma_apply_push(start, wi, hi, ops, op1);
            lemma_apply_push(start, wi, hi, ops.push(op1), op2);
            lemma_apply_push(start, wi, hi, ops.push(op1).push(op2), op3);
            lemma_apply_push(start, wi, hi, ops.push(op1).push(op2).push(op3), op4);
            assert(ops.push(op1).push(op2).push(op3).push(op4) =~= slots_ops(
                moves,
                performed_moves as int,
                slot_width as int,
                index + 1,
            ));
        }
        index = index + 1;
    }
}

fn draw_tail(
    buffer: &mut Vec<u32>,
    width: usize,
    height: usize,
    n: usize,
    active_move: Option<Move>,
)
    requires
        old(buffer)@.len() >= width * height,
    ensures
        final(buffer)@ == apply_ops(
            old(buffer)@,
            width as int,
            height as int,
            tail_ops(
                width as int,
                n as int,
                match active_move {
                    Some(m) => Some(m@),
                    None => None,
                },
            ),
        ),
{
    let ghost start = buffer@;
    let ghost wi = width as int;
    let ghost hi = height as int;
    let ghost mut ops: Seq<DrawOp> = Seq::empty();
    let panel_x: usize = 12;
    let panel_y: usize = 12;
    let inner = if width >= 24 {
        width - 24
    } else {
        0
    };
    let panel_width = if inner < 420 {
        inner
    } else {
        420
    };
    let panel_height: usize = 78;
    if n > 24 {
        let marker_x = panel_x + if panel_width >= 16 {
            panel_width - 16
        } else {
            0
        };
        let marker_y = panel_y + 14;
        let op = DrawOp::Fill { x: marker_x, y: marker_y, w: 4, h: 28, color: MOVE_PENDING_COLOR };
        apply(buffer, width, height, op);
        proof {
            lemma_apply_push(start, wi, hi, ops, op);
            ops = ops.push(op);
        }
    }
    match active_move {
        Some(m) => {
            let active_width: usize = 36;
            let active_height: usize = 10;
            let active_x = panel_x + if panel_width >= active_width + 12 {
                panel_width - (active_width + 12)
            } else {
                0
            };
            let active_y = panel_y + (panel_height - (active_height + 28));
            let op = DrawOp::Fill {
                x: active_x,
                y: active_y,
                w: active_width,
                h: active_height,
                color: MOVE_CURRENT_COLOR,
            };
            apply(buffer, width, height, op);
            proof {
                lemma_apply_push(start, wi, hi, ops, op);
                ops = ops.push(op);
            }
            let op = DrawOp::Fill {
                x: active_x + 2,
                y: active_y + 2,
                w: active_width / 2 - 3,
                h: active_height - 4,
                color: bottle_index_to_color(m.source_index()),
            };
            apply(buffer, width, height, op);
            proof {
                lemma_apply_push(start, wi, hi, ops, op);
                ops = ops.push(op);
            }
            let op = DrawOp::Fill {
                x: active_x + active_width / 2 + 1,
                y: active_y + 2,
                w: active_width / 2 - 3,
                h: active_height - 4,
                color: bottle_index_to_color(m.destination_index()),
            };
            apply(buffer, width, height, op);
            proof {
                lemma_apply_push(start, wi, hi, ops, op);
                ops = ops.push(op);
            }
        },
        None => {},
    }
    proof {
        assert(ops =~= tail_ops(
            wi,
            n as int,
            match active_move {
                Some(m) => Some(m@),
                None => None,
            },
        ));
    }
}

/// Draws the solver's plan over a frame `width` pixels wide and `height`
/// high, stored row by row: the panel with its progress bar, a slot per move
/// among the first 24 coloured by whether it was played, is being played or is
/// to come, and the move being played. Pixels outside the frame stay as they
/// were.
pub fn draw_move_overlay(
    buffer: &mut Vec<u32>,
    width: usize,
    height: usize,
    planned_moves: &Vec<Move>,
    performed_moves: usize,
    active_move: Option<Move>,
)
    requires
        old(buffer)@.len() >= width * height,
        progress_fits(width as int, planned_moves@.len() as int, performed_moves as int),
    ensures
        final(buffer)@ == apply_ops(
            old(buffer)@,
            width as int,
            height as int,
            overlay_ops(
                width as int,
                plan_v(planned_moves@),
                performed_moves as int,
                match active_move {
                    Some(m) => Some(m@),
                    None => None,
                },
            ),
        ),
{
    let ghost start = buffer@;
    let ghost wi = width as int;
    let ghost hi = height as int;
    let n = planned_moves.len();
    draw_panel(buffer, width, height, n, performed_moves);
    proof {
        lemma_apply_len(start, wi, hi, panel_ops(wi, n as int, performed_moves as int));
    }
    let ghost mid = buffer@;
    draw_slots(buffer, width, height, planned_moves, performed_moves);
    proof {
        lemma_apply_len(
            mid,
            wi,
            hi,
            slots_ops(
                plan_v(planned_moves@),
                performed_moves as int,
                slot_span(wi, n as int),
                min(n as int, 24),
            ),
        );
    }
    draw_tail(buffer, width, height, n, active_move);
    proof {
        let a = panel_ops(wi, n as int, performed_moves as int);
        let b = slots_ops(
            plan_v(planned_moves@),
            performed_moves as int,
            slot_span(wi, n as int),
            min(n as int, 24),
        );
        let c = tail_ops(
            wi,
            n as int,
            match active_move {
                Some(m) => Some(m@),
                None => None,
            },
        );
        lemma_apply_concat(start, wi, hi, a, b);
        lemma_apply_concat(start, wi, hi, a + b, c);
    }
}

/// The operation paints only inside the rectangle of columns `x0` to `x1` and
/// rows `y0` to `y1`, ends excluded; an outline at most as thick as it is
/// wide and high.
pub open spec fn op_within(op: DrawOp, x0: int, y0: int, x1: int, y1: int) -> bool {
    match op {
        DrawOp::Fill { x, y, w, h, .. } => x0 <= x && x + w <= x1 && y0 <= y && y + h <= y1,
        DrawOp::Outline { x, y, w, h, thickness, .. } => {
            &&& x0 <= x && x + w <= x1 && y0 <= y && y + h <= y1
            &&& thickness <= w && thickness <= h
        },
    }
}

proof fn lemma_outline_within(
    width: int,
    height: int,
    x: int,
    y: int,
    w: int,
    h: int,
    t: int,
    row: int,
    col: int,
)
    requires
        0 <= x,
        0 <= y,
        0 < w,
        0 < h,
        t <= w,
        t <= h,
        outline_covers(width, height, x, y, w, h, t, row, col),
    ensures
        x <= col < x + w,
        y <= row < y + h,
    decreases t,
{
    if t > 0 {
        if outline_covers(width, height, x, y, w, h, t - 1, row, col) {
            lemma_outline_within(width, height, x, y, w, h, t - 1, row, col);
        }
    }
}

proof fn lemma_op_within(op: DrawOp, width: int, height: int, row: int, col: int, x0: int, y0: int, x1: int, y1: int)
    requires
        op_within(op, x0, y0, x1, y1),
        op_covers(op, width, height, row, col),
    ensures
        x0 <= col < x1,
        y0 <= row < y1,
{
    match op {
        DrawOp::Fill { .. } => {},
        DrawOp::Outline { x, y, w, h, thickness, .. } => {
            lemma_outline_within(
                width,
                height,
                x as int,
                y as int,
                w as int,
                h as int,
                thickness as int,
                row,
                col,
            );
        },
    }
}

/// Operations that all paint inside a rectangle leave the pixels outside it
/// as they were.
proof fn lemma_apply_outside(
    buf: Seq<u32>,
    width: int,
    height: int,
    ops: Seq<DrawOp>,
    x0: int,
    y0: int,
    x1: int,
    y1: int,
    i: int,
)
    requires
        width > 0,
        0 <= i < buf.len(),
        forall|k: int| 0 <= k < ops.len() ==> #[trigger] op_within(ops[k], x0, y0, x1, y1),
        !(x0 <= i % width < x1 && y0 <= i / width < y1),
    ensures
        apply_ops(buf, width, height, ops).len() == buf.len(),
        apply_ops(buf, width, height, ops)[i] == buf[i],
    decreases ops.len(),
{
    if ops.len() > 0 {
        let init = ops.drop_last();
        assert forall|k: int| 0 <= k < init.len() implies #[trigger] op_within(init[k], x0, y0, x1, y1) by {
            assert(init[k] == ops[k]);
        }
        lemma_apply_outside(buf, width, height, init, x0, y0, x1, y1, i);
        assert(op_within(ops[ops.len() - 1], x0, y0, x1, y1));
        if paints(ops.last(), width, height, i) {
            lemma_op_within(ops.last(), width, height, i / width, i % width, x0, y0, x1, y1);
        }
    }
}

proof fn lemma_slots_within(moves: Seq<(usize, usize)>, performed: int, width: int, k: int)
    requires
        width >= 72,
        0 <= k <= min(max(moves.len() as int, 1), 24),
        k <= moves.len(),
    ensures
        forall|q: int|
            0 <= q < slots_ops(moves, performed, slot_span(width, moves.len() as int), k).len()
                ==> #[trigger] op_within(
                slots_ops(moves, performed, slot_span(width, moves.len() as int), k)[q],
                12,
                12,
                12 + panel_width(width),
                90,
            ),
    decreases k,
{
    let sw = slot_span(width, moves.len() as int);
    let ops = slots_ops(moves, performed, sw, k);
    if k > 0 {
        lemma_slots_within(moves, performed, width, k - 1);
        let prev = slots_ops(moves, performed, sw, k - 1);
        let last = slot_ops(moves[k - 1], k - 1, performed, sw);
        let slots = min(max(moves.len() as int, 1), 24);
        let bar = sat_sub(panel_width(width), 24);
        assert(bar >= 24);
        assert(sw * slots <= bar) by (nonlinear_arith)
            requires
                sw == bar / slots,
                slots > 0,
                bar >= 0,
        ;
        assert((k - 1) * sw + sw <= bar) by (nonlinear_arith)
            requires
                sw * slots <= bar,
                0 <= k - 1 < slots,
                sw >= 0,
        ;
        assert forall|q: int| 0 <= q < ops.len() implies #[trigger] op_within(ops[q], 12, 12, 12 + panel_width(width), 90) by {
            if q < prev.len() {
                assert(ops[q] == prev[q]);
            } else {
                assert(ops[q] == last[q - prev.len()]);
            }
        }
    }
}

/// The overlay paints only inside its panel: in a frame at least 72 pixels
/// wide, a pixel outside rows 12 to 89 or outside the panel's columns, from
/// 12 to 11 plus the panel's width, keeps its value. In narrower frames the
/// slots and the box of the move being played may reach past the panel.
pub proof fn lemma_overlay_stays_in_panel(
    buf: Seq<u32>,
    width: int,
    height: int,
    moves: Seq<(usize, usize)>,
    performed: int,
    active: Option<(usize, usize)>,
    i: int,
)
    requires
        width >= 72,
        width <= usize::MAX,
        0 <= performed <= usize::MAX,
        0 <= i < buf.len(),
        !(12 <= i % width < 12 + panel_width(width) && 12 <= i / width < 90),
    ensures
        apply_ops(buf, width, height, overlay_ops(width, moves, performed, active))[i] == buf[i],
{
    let n = moves.len() as int;
    let ops = overlay_ops(width, moves, performed, active);
    let a = panel_ops(width, n, performed);
    let b = slots_ops(moves, performed, slot_span(width, n), min(n, 24));
    let c = tail_ops(width, n, active);
    lemma_slots_within(moves, performed, width, min(n, 24));
    let pw = panel_width(width);
    let bar = sat_sub(pw, 24);
    if n > 0 {
        let prog = min(performed, n);
        assert((sat_sub(bar, 2) * prog) / n <= sat_sub(bar, 2)) by (nonlinear_arith)
            requires
                0 <= prog <= n,
                n > 0,
                sat_sub(bar, 2) >= 0,
        ;
    }
    assert(48 <= pw <= 420);
    assert forall|q: int| 0 <= q < a.len() implies #[trigger] op_within(a[q], 12, 12, 12 + pw, 90) by {
        if q == 4 {
            let prog = min(performed, n);
            assert(a[q] == DrawOp::Fill {
                x: 25,
                y: 71,
                w: ((sat_sub(bar, 2) * prog) / n) as usize,
                h: 8,
                color: PROGRESS_FILL_COLOR,
            });
        }
    }
    assert forall|q: int| 0 <= q < c.len() implies #[trigger] op_within(c[q], 12, 12, 12 + pw, 90) by {
        if n > 24 {
            if q == 0 {
                assert(c[q] == DrawOp::Fill {
                    x: (12 + sat_sub(pw, 16)) as usize,
                    y: 26,
                    w: 4,
                    h: 28,
                    color: MOVE_PENDING_COLOR,
                });
            }
        }
    }
    assert forall|q: int| 0 <= q < ops.len() implies #[trigger] op_within(ops[q], 12, 12, 12 + pw, 90) by {
        if q < a.len() {
            assert(ops[q] == a[q]);
        } else if q < a.len() + b.len() {
            assert(ops[q] == b[q - a.len()]);
        } else {
            assert(ops[q] == c[q - a.len() - b.len()]);
        }
    }
    lemma_apply_outside(buf, width, height, ops, 12, 12, 12 + pw, 90, i);
}

} // verus!
