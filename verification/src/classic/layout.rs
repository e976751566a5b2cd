//! Bottle positions of the classic game, one per bottle, each with the
//! offsets of its layers.
use vstd::prelude::*;

use crate::classic::pixels::{best_layout_index, fit_count, samples_v, score_layout_fit};
use crate::color::Bgr;
use crate::position::Pos;
use crate::text::push_str;

verus! {

/// Horizontal correction from a bottle's listed position to where it is sampled.
pub const X_MEASURE_OFFSET: i32 = 6;
/// Vertical correction from a bottle's listed position to where it is sampled.
pub const Y_MEASURE_OFFSET: i32 = -5;

/// Where a bottle stands: the position of its top layer and the offsets of
/// its layers from there, top layer first.
#[derive(Debug, Clone, Eq, PartialEq, Hash)]
pub struct BottlePosition {
    pub base_pos: Pos,
    pub layer_offsets: Vec<Pos>,
}

/// A named arrangement of bottle positions.
#[derive(Debug, Clone, Hash, Eq, PartialEq)]
pub struct BottleLayout {
    pub name: String,
    pub positions: Vec<BottlePosition>,
}

/// A bottle position by base position and layer offsets.
pub type PositionView = (Pos, Seq<Pos>);

pub open spec fn position_v(p: BottlePosition) -> PositionView {
    (p.base_pos, p.layer_offsets@)
}

pub open spec fn positions_v(ps: Seq<BottlePosition>) -> Seq<PositionView> {
    ps.map_values(|p: BottlePosition| position_v(p))
}

/// Offsets of `count` layers spaced `spacing` apart, going down.
pub open spec fn vertical_offsets(spacing: i32, count: usize) -> Seq<Pos> {
    Seq::new(count as nat, |i: int| Pos(0, (i * spacing) as i32))
}

/// The positions of a row of `count` bottles from `start`, `step` apart, each
/// moved by the measuring offsets, with `layers` layers `spacing` apart.
pub open spec fn row_positions(
    start: Pos,
    step: Pos,
    count: nat,
    spacing: i32,
    layers: usize,
) -> Seq<PositionView> {
    Seq::new(
        count,
        |col: int|
            (
                Pos(
                    (start.0 + col * step.0 + X_MEASURE_OFFSET) as i32,
                    (start.1 + col * step.1 + Y_MEASURE_OFFSET) as i32,
                ),
                vertical_offsets(spacing, layers),
            ),
    )
}

/// The ten-bottle arrangement: two rows of five.
pub open spec fn ten_positions() -> Seq<PositionView> {
    row_positions(Pos(41, 223), Pos(69, 0), 5, 35, 4) + row_positions(
        Pos(41, 440),
        Pos(69, 0),
        5,
        35,
        4,
    )
}

/// The eleven-bottle arrangement: six above five.
pub open spec fn eleven_positions() -> Seq<PositionView> {
    row_positions(Pos(34, 244), Pos(58, 0), 6, 31, 4) + row_positions(
        Pos(56, 436),
        Pos(58, 0),
        5,
        31,
        4,
    )
}

/// The twelve-bottle arrangement: two rows of six.
pub open spec fn twelve_positions() -> Seq<PositionView> {
    row_positions(Pos(34, 244), Pos(58, 0), 6, 31, 4) + row_positions(
        Pos(34, 436),
        Pos(58, 0),
        6,
        31,
        4,
    )
}

/// The sum of two positions, if it fits.
pub open spec fn pos_sum(a: Pos, b: Pos) -> (int, int) {
    (a.0 + b.0, a.1 + b.1)
}

impl BottlePosition {
    /// A bottle position with the given layer offsets.
    pub fn new(base_pos: Pos, layer_offsets: Vec<Pos>) -> (r: Self)
        ensures
            r.base_pos == base_pos,
            r.layer_offsets@ == layer_offsets@,
    {
        Self { base_pos, layer_offsets }
    }

    /// A bottle whose `layer_count` layers lie straight down from `base_pos`,
    /// `layer_spacing` apart.
    pub fn vertical(base_pos: Pos, layer_spacing: i32, layer_count: usize) -> (r: Self)
        requires
            layer_count <= i32::MAX,
            i32::MIN <= layer_count * layer_spacing <= i32::MAX,
        ensures
            r.base_pos == base_pos,
            r.layer_offsets@ == vertical_offsets(layer_spacing, layer_count),
    {
        let mut offsets: Vec<Pos> = Vec::new();
        let mut i: usize = 0;
        while i < layer_count
            invariant
                i <= layer_count,
                layer_count <= i32::MAX,
                i32::MIN <= layer_count * layer_spacing <= i32::MAX,
                offsets@ == vertical_offsets(layer_spacing, layer_count).subrange(0, i as int),
            decreases layer_count - i,
        {
            proof {
                if layer_spacing >= 0 {
                    assert(0 <= i * layer_spacing <= layer_count * layer_spacing) by (nonlinear_arith)
                        requires
                            i < layer_count,
                            0 <= layer_spacing,
                    ;
                } else {
                    assert(layer_count * layer_spacing <= i * layer_spacing <= 0) by (nonlinear_arith)
                        requires
                            i < layer_count,
                            layer_spacing < 0,
                    ;
                }
            }
            let dy = (i as i32) * layer_spacing;
            offsets.push(Pos(0, dy));
            proof {
                assert(dy == i * layer_spacing);
                assert(vertical_offsets(layer_spacing, layer_count)[i as int] == Pos(0, dy));
                assert(offsets@ =~= vertical_offsets(layer_spacing, layer_count).subrange(
                    0,
                    i + 1,
                ));
            }
            i = i + 1;
        }
        proof {
            assert(offsets@ =~= vertical_offsets(layer_spacing, layer_count));
        }
        Self::new(base_pos, offsets)
    }
}

/// Appends a row of bottle positions.
fn push_row(
    positions: &mut Vec<BottlePosition>,
    start: Pos,
    step: Pos,
    count: usize,
    spacing: i32,
    layers: usize,
)
    requires
        0 <= start.0 <= 1000,
        0 <= start.1 <= 1000,
        0 <= step.0 <= 1000,
        0 <= step.1 <= 1000,
        count <= 100,
        0 <= spacing <= 1000,
        layers <= 100,
    ensures
        positions_v(final(positions)@) == positions_v(old(positions)@) + row_positions(
            start,
            step,
            count as nat,
            spacing,
            layers,
        ),
{
    let ghost before = positions_v(positions@);
    let mut col: usize = 0;
    while col < count
        invariant
            col <= count,
            0 <= start.0 <= 1000,
            0 <= start.1 <= 1000,
            0 <= step.0 <= 1000,
            0 <= step.1 <= 1000,
            count <= 100,
            0 <= spacing <= 1000,
            layers <= 100,
            positions_v(positions@) == before + row_positions(
                start,
                step,
                count as nat,
                spacing,
                layers,
            ).subrange(0, col as int),
        decreases count - col,
    {
        let c = col as i32;
        proof {
            assert(0 <= c * step.0 <= 100 * 1000) by (nonlinear_arith)
                requires
                    0 <= c <= 100,
                    0 <= step.0 <= 1000,
            ;
            assert(0 <= c * step.1 <= 100 * 1000) by (nonlinear_arith)
                requires
                    0 <= c <= 100,
                    0 <= step.1 <= 1000,
            ;
            assert(layers * spacing <= 100 * 1000) by (nonlinear_arith)
                requires
                    layers <= 100,
                    0 <= spacing <= 1000,
            ;
        }
        let base = Pos(start.0 + c * step.0 + X_MEASURE_OFFSET, start.1 + c * step.1 + Y_MEASURE_OFFSET);
        let p = BottlePosition::vertical(base, spacing, layers);
        let ghost old_positions = positions@;
        positions.push(p);
        proof {
            assert(position_v(p) == row_positions(start, step, count as nat, spacing, layers)[col as int]);
            assert(positions_v(positions@) =~= positions_v(old_positions).push(position_v(p)));
            assert(positions_v(positions@) =~= before + row_positions(
                start,
                step,
                count as nat,
                spacing,
                layers,
            ).subrange(0, col + 1));
        }
        col = col + 1;
    }
    proof {
        assert(row_positions(start, step, count as nat, spacing, layers).subrange(0, count as int)
            =~= row_positions(start, step, count as nat, spacing, layers));
    }
}

fn named(name: &str) -> (r: String)
    ensures
        r@ == name@,
{
    let mut s = String::new();
    push_str(&mut s, name);
    proof {
        assert(s@ =~= name@);
    }
    s
}

impl BottleLayout {
    /// A layout with the given name and positions.
    pub fn new(name: String, positions: Vec<BottlePosition>) -> (r: Self)
        ensures
            r.name@ == name@,
            positions_v(r.positions@) == positions_v(positions@),
    {
        Self { name, positions }
    }

    /// How many bottles the layout holds.
    pub fn bottle_count(&self) -> (r: usize)
        ensures
            r == self.positions@.len(),
    {
        self.positions.len()
    }

    /// Where to sample layer `layer_index` of bottle `bottle_index`: the
    /// bottle's base position moved by the layer's offset.
    pub fn get_sample_position(&self, bottle_index: usize, layer_index: usize) -> (r: Option<Pos>)
        requires
            bottle_index < self.positions@.len() && layer_index
                < self.positions@[bottle_index as int].layer_offsets@.len() ==> {
                let p = self.positions@[bottle_index as int];
                let s = pos_sum(p.base_pos, p.layer_offsets@[layer_index as int]);
                i32::MIN <= s.0 <= i32::MAX && i32::MIN <= s.1 <= i32::MAX
            },
        ensures
            r is Some <==> (bottle_index < self.positions@.len() && layer_index
                < self.positions@[bottle_index as int].layer_offsets@.len()),
            r matches Some(q) ==> {
                let p = self.positions@[bottle_index as int];
                pos_sum(p.base_pos, p.layer_offsets@[layer_index as int]) == (q.0 as int, q.1 as int)
            },
    {
        if bottle_index >= self.positions.len() {
            return None;
        }
        let bottle_pos = &self.positions[bottle_index];
        if layer_index >= bottle_pos.layer_offsets.len() {
            return None;
        }
        let layer_offset = bottle_pos.layer_offsets[layer_index];
        Some(Pos(bottle_pos.base_pos.0 + layer_offset.0, bottle_pos.base_pos.1 + layer_offset.1))
    }

    /// Where to click to pick bottle `bottle_index`: the base position moved by
    /// the offset of its middle layer, or the base position of a bottle
    /// without layers.
    pub fn get_click_position(&self, bottle_index: usize) -> (r: Option<Pos>)
        requires
            bottle_index < self.positions@.len() ==> click_fits(
                self.positions@[bottle_index as int],
            ),
        ensures
            r is Some <==> bottle_index < self.positions@.len(),
            r matches Some(q) ==> click_of(self.positions@[bottle_index as int]) == (
                q.0 as int,
                q.1 as int,
            ),
    {
        if bottle_index >= self.positions.len() {
            return None;
        }
        let bottle_pos = &self.positions[bottle_index];
        if bottle_pos.layer_offsets.len() == 0 {
            return Some(bottle_pos.base_pos);
        }
        let mid_index = bottle_pos.layer_offsets.len() / 2;
        let layer_offset = bottle_pos.layer_offsets[mid_index];
        Some(Pos(bottle_pos.base_pos.0 + layer_offset.0, bottle_pos.base_pos.1 + layer_offset.1))
    }

    /// The known layouts: ten, eleven and twelve bottles.
    pub fn get_layouts() -> (r: Vec<Self>)
        ensures
            r@.len() == 3,
            r@[0].name@ == "10-bottles"@ && positions_v(r@[0].positions@) == ten_positions(),
            r@[1].name@ == "11-bottles"@ && positions_v(r@[1].positions@) == eleven_positions(),
            r@[2].name@ == "12-bottles"@ && positions_v(r@[2].positions@) == twelve_positions(),
    {
        vec![Self::ten_bottle_layout(), Self::eleven_bottle_layout(), Self::twelve_bottle_layout()]
    }

    /// The standard layout of two rows of five bottles.
    pub fn ten_bottle_layout() -> (r: Self)
        ensures
            r.name@ == "10-bottles"@,
            positions_v(r.positions@) == ten_positions(),
    {
        let mut positions: Vec<BottlePosition> = Vec::new();
        push_row(&mut positions, Pos(41, 223), Pos(69, 0), 5, 35, 4);
        push_row(&mut positions, Pos(41, 440), Pos(69, 0), 5, 35, 4);
        proof {
            assert(positions_v(positions@) =~= ten_positions());
        }
        Self::new(named("10-bottles"), positions)
    }

    /// The layout of six bottles above five.
    pub fn eleven_bottle_layout() -> (r: Self)
        ensures
            r.name@ == "11-bottles"@,
            positions_v(r.positions@) == eleven_positions(),
    {
        let mut positions: Vec<BottlePosition> = Vec::new();
        push_row(&mut positions, Pos(34, 244), Pos(58, 0), 6, 31, 4);
        push_row(&mut positions, Pos(56, 436), Pos(58, 0), 5, 31, 4);
        proof {
            assert(positions_v(positions@) =~= eleven_positions());
        }
        Self::new(named("11-bottles"), positions)
    }

    /// The layout of two rows of six bottles.
    pub fn twelve_bottle_layout() -> (r: Self)
        ensures
            r.name@ == "12-bottles"@,
            positions_v(r.positions@) == twelve_positions(),
    {
        let mut positions: Vec<BottlePosition> = Vec::new();
        push_row(&mut positions, Pos(34, 244), Pos(58, 0), 6, 31, 4);
        push_row(&mut positions, Pos(34, 436), Pos(58, 0), 6, 31, 4);
        proof {
            assert(positions_v(positions@) =~= twelve_positions());
        }
        Self::new(named("12-bottles"), positions)
    }
}

/// Where a bottle is clicked: its base position moved by the offset of its
/// middle layer, or its base position when it has no layers.
pub open spec fn click_of(p: BottlePosition) -> (int, int) {
    if p.layer_offsets@.len() == 0 {
        (p.base_pos.0 as int, p.base_pos.1 as int)
    } else {
        pos_sum(p.base_pos, p.layer_offsets@[(p.layer_offsets@.len() / 2) as int])
    }
}

/// The click position of a bottle fits in `i32`.
pub open spec fn click_fits(p: BottlePosition) -> bool {
    let c = click_of(p);
    i32::MIN <= c.0 <= i32::MAX && i32::MIN <= c.1 <= i32::MAX
}

/// Where to click bottle `index` of the layout.
pub fn get_bottle_position(layout: &BottleLayout, index: usize) -> (r: Pos)
    requires
        index < layout.positions@.len(),
        click_fits(layout.positions@[index as int]),
    ensures
        click_of(layout.positions@[index as int]) == (r.0 as int, r.1 as int),
{
    match layout.get_click_position(index) {
        Some(p) => p,
        None => Pos(0, 0),
    }
}

/// The name of the known layout at `k`, in the order of `get_layouts()`.
pub open spec fn known_layout_name(k: int) -> Seq<char> {
    if k == 0 {
        "10-bottles"@
    } else if k == 1 {
        "11-bottles"@
    } else {
        "12-bottles"@
    }
}

/// The positions of the known layout at `k`, in the order of `get_layouts()`.
pub open spec fn known_layout_positions(k: int) -> Seq<PositionView> {
    if k == 0 {
        ten_positions()
    } else if k == 1 {
        eleven_positions()
    } else {
        twelve_positions()
    }
}

/// The score of each known layout, given its samples.
pub open spec fn layout_scores(samples: Seq<Vec<Vec<Option<Bgr>>>>) -> Seq<nat> {
    Seq::new(samples.len(), |k: int| fit_count(samples_v(samples[k]@)))
}

impl BottleLayout {
    /// The known layout that fits the image best: the first with the most
    /// bottles showing a colour, given for each known layout, in the order of
    /// `get_layouts()`, the pixels sampled at the layers of its bottles.
    pub fn detect_layout(samples: &Vec<Vec<Vec<Option<Bgr>>>>) -> (r: Self)
        requires
            samples@.len() == 3,
        ensures
            exists|k: int|
                #![trigger known_layout_name(k)]
                0 <= k < 3 && (forall|j: int|
                    0 <= j < 3 ==> layout_scores(samples@)[j] <= layout_scores(samples@)[k]) && (
                forall|j: int| 0 <= j < k ==> layout_scores(samples@)[j] < layout_scores(samples@)[k])
                    && r.name@ == known_layout_name(k) && positions_v(r.positions@)
                    == known_layout_positions(k),
    {
        let mut scores: Vec<usize> = Vec::new();
        let mut k: usize = 0;
        while k < samples.len()
            invariant
                samples@.len() == 3,
                k <= 3,
                scores@.len() == k,
                forall|j: int| 0 <= j < k ==> scores@[j] == layout_scores(samples@)[j],
            decreases 3 - k,
        {
            let score = score_layout_fit(&samples[k]);
            scores.push(score);
            k = k + 1;
        }
        let best = best_layout_index(&scores);
        let mut layouts = Self::get_layouts();
        let ghost all = layouts@;
        let chosen = layouts.remove(best);
        proof {
            let kk = best as int;
            let sc = layout_scores(samples@);
            assert(chosen == all[kk]);
            assert forall|j: int| 0 <= j < 3 implies sc[j] <= sc[kk] by {
                assert(scores@[j] <= scores@[kk]);
            }
            assert forall|j: int| 0 <= j < kk implies sc[j] < sc[kk] by {
                assert(scores@[j] < scores@[kk]);
            }
            assert(chosen.name@ == known_layout_name(kk));
            assert(positions_v(chosen.positions@) == known_layout_positions(kk));
        }
        chosen
    }
}

} // verus!
