//! Where the bottles of a level stand on the screen, for each known
//! arrangement of bottles in rows.
use vstd::prelude::*;

use crate::position::Pos;
use crate::rows::{boxes_ok, components_spec, detect_row_pattern, row_keys, stable_order, BoundingBox};

verus! {

/// A row of bottles: where the first one stands, the step to the next one and
/// how many there are.
#[derive(Debug, Clone, Copy, PartialEq, Eq, Structural)]
pub struct LayoutRow {
    pub start_position: Pos,
    pub spacing: Pos,
    pub bottle_count: usize,
}

/// An arrangement of bottles on the screen.
#[derive(Debug, PartialEq, Eq)]
pub struct BottleLayout {
    friendly_name: &'static str,
    layer_spacing: i32,
    layer_count: usize,
    rows: Vec<LayoutRow>,
}

/// A layout by name, layer spacing, layer count and rows.
pub type LayoutView = (Seq<char>, i32, usize, Seq<LayoutRow>);

/// The numbers of a row are small enough for every position it yields to fit.
pub open spec fn row_fits(r: LayoutRow) -> bool {
    &&& -10000 <= r.start_position.0 <= 10000
    &&& -10000 <= r.start_position.1 <= 10000
    &&& -1000 <= r.spacing.0 <= 1000
    &&& -1000 <= r.spacing.1 <= 1000
    &&& r.bottle_count <= 100
}

pub open spec fn layout_fits(v: LayoutView) -> bool {
    &&& 0 <= v.1 <= 1000
    &&& v.2 <= 100
    &&& v.3.len() <= 10
    &&& forall|i: int| 0 <= i < v.3.len() ==> row_fits(#[trigger] v.3[i])
}

/// How many bottles the rows hold together.
pub open spec fn rows_bottle_count(rows: Seq<LayoutRow>) -> nat
    decreases rows.len(),
{
    if rows.len() == 0 {
        0
    } else {
        rows[0].bottle_count as nat + rows_bottle_count(rows.drop_first())
    }
}

/// Where bottle `index` stands: counted row by row, the `k`-th bottle of a row
/// stands `k` steps from the row's start.
pub open spec fn row_click_position(rows: Seq<LayoutRow>, index: int) -> Option<(int, int)>
    decreases rows.len(),
{
    if rows.len() == 0 || index < 0 {
        None
    } else if index < rows[0].bottle_count {
        Some(
            (
                rows[0].start_position.0 + rows[0].spacing.0 * index,
                rows[0].start_position.1 + rows[0].spacing.1 * index,
            ),
        )
    } else {
        row_click_position(rows.drop_first(), index - rows[0].bottle_count)
    }
}

/// How many layers above the bottom one a layer lies below the top one.
pub open spec fn layer_offset(layer_count: usize, layer_index: usize) -> int {
    let top = if layer_count >= 1 {
        layer_count - 1
    } else {
        0
    };
    if top >= layer_index {
        top - layer_index
    } else {
        0
    }
}

pub open spec fn row(x: i32, y: i32, dx: i32, dy: i32, count: usize) -> LayoutRow {
    LayoutRow { start_position: Pos(x, y), spacing: Pos(dx, dy), bottle_count: count }
}

/// The known layouts, in the order in which they are tried.
pub open spec fn known_layouts() -> Seq<LayoutView> {
    seq![
        ("ten_bottle_layout"@, 35i32, 4usize, seq![row(41, 223, 69, 0, 5), row(41, 440, 69, 0, 5)]),
        (
            "eleven_bottle_layout"@,
            31i32,
            4usize,
            seq![row(34, 244, 58, 0, 6), row(56, 436, 61, 0, 5)],
        ),
        (
            "twelve_bottle_layout"@,
            31i32,
            4usize,
            seq![row(34, 244, 58, 0, 6), row(34, 436, 58, 0, 6)],
        ),
        ("five_bottle_layout"@, 35i32, 4usize, seq![row(39, 336, 70, 0, 5)]),
        ("six_bottle_layout"@, 31i32, 4usize, seq![row(32, 338, 59, 0, 6)]),
        (
            "seven_bottle_layout"@,
            38i32,
            4usize,
            seq![row(50, 207, 86, 0, 4), row(72, 444, 106, 0, 3)],
        ),
        (
            "twelve_bottle_layout_alternative"@,
            28i32,
            4usize,
            seq![row(61, 156, 76, 0, 4), row(60, 340, 76, 0, 4), row(61, 528, 76, 0, 4)],
        ),
        (
            "eight_bottle_layout"@,
            35i32,
            4usize,
            seq![row(49, 208, 84, 0, 4), row(51, 446, 84, 0, 4)],
        ),
        (
            "nine_bottle_layout"@,
            32i32,
            4usize,
            seq![row(38, 225, 70, 0, 5), row(61, 440, 77, 0, 4)],
        ),
        (
            "nine_bottle_layout_alternative"@,
            33i32,
            4usize,
            seq![row(63, 225, 77, 0, 4), row(39, 444, 70, 0, 5)],
        ),
    ]
}

impl View for BottleLayout {
    type V = LayoutView;

    closed spec fn view(&self) -> LayoutView {
        (self.friendly_name@, self.layer_spacing, self.layer_count, self.rows@)
    }
}

fn layout_row(x: i32, y: i32, dx: i32, dy: i32, count: usize) -> (r: LayoutRow)
    ensures
        r == row(x, y, dx, dy, count),
{
    LayoutRow { start_position: Pos(x, y), spacing: Pos(dx, dy), bottle_count: count }
}

impl BottleLayout {
    #[verifier::type_invariant]
    spec fn fits(self) -> bool {
        layout_fits(self@)
    }

    fn new(
        friendly_name: &'static str,
        layer_spacing: i32,
        layer_count: usize,
        rows: Vec<LayoutRow>,
    ) -> (r: Self)
        requires
            layout_fits((friendly_name@, layer_spacing, layer_count, rows@)),
        ensures
            r@ == (friendly_name@, layer_spacing, layer_count, rows@),
    {
        Self { friendly_name, layer_spacing, layer_count, rows }
    }

    pub fn friendly_name(&self) -> (r: &str)
        ensures
            r@ == self@.0,
    {
        self.friendly_name
    }

    /// The vertical distance between two layers of a bottle, in pixels.
    pub fn layer_spacing(&self) -> (r: i32)
        ensures
            r == self@.1,
    {
        self.layer_spacing
    }

    pub fn layer_count(&self) -> (r: usize)
        ensures
            r == self@.2,
    {
        self.layer_count
    }

    pub fn rows(&self) -> (r: &[LayoutRow])
        ensures
            r@ == self@.3,
    {
        self.rows.as_slice()
    }

    /// How many bottles the layout holds.
    pub fn bottle_count(&self) -> (r: usize)
        ensures
            r == rows_bottle_count(self@.3),
    {
        proof {
            use_type_invariant(self);
        }
        let mut total: usize = 0;
        let mut i: usize = self.rows.len();
        proof {
            assert(self.rows@.subrange(i as int, i as int) =~= Seq::<LayoutRow>::empty());
        }
        while i > 0
            invariant
                i <= self.rows@.len(),
                self.rows@.len() <= 10,
                forall|k: int| 0 <= k < self.rows@.len() ==> row_fits(#[trigger] self.rows@[k]),
                total == rows_bottle_count(self.rows@.subrange(i as int, self.rows@.len() as int)),
                total <= 100 * (self.rows@.len() - i),
            decreases i,
        {
            let ghost tail = self.rows@.subrange(i as int, self.rows@.len() as int);
            i = i - 1;
            proof {
                let t = self.rows@.subrange(i as int, self.rows@.len() as int);
                assert(t.drop_first() =~= tail);
                assert(t[0] == self.rows@[i as int]);
                assert(row_fits(self.rows@[i as int]));
            }
            total = total + self.rows[i].bottle_count;
        }
        proof {
            assert(self.rows@.subrange(0, self.rows@.len() as int) =~= self.rows@);
        }
        total
    }

    /// The known layouts.
    pub fn get_layouts() -> (r: Vec<Self>)
        ensures
            r@.len() == known_layouts().len(),
            forall|i: int| 0 <= i < r@.len() ==> (#[trigger] r@[i])@ == known_layouts()[i],
    {
        let mut out: Vec<Self> = Vec::new();
        let rows = vec![layout_row(41, 223, 69, 0, 5), layout_row(41, 440, 69, 0, 5)];
        out.push(Self::new("ten_bottle_layout", 35, 4, rows));
        let rows = vec![layout_row(34, 244, 58, 0, 6), layout_row(56, 436, 61, 0, 5)];
        out.push(Self::new("eleven_bottle_layout", 31, 4, rows));
        let rows = vec![layout_row(34, 244, 58, 0, 6), layout_row(34, 436, 58, 0, 6)];
        out.push(Self::new("twelve_bottle_layout", 31, 4, rows));
        let rows = vec![layout_row(39, 336, 70, 0, 5)];
        out.push(Self::new("five_bottle_layout", 35, 4, rows));
        let rows = vec![layout_row(32, 338, 59, 0, 6)];
        out.push(Self::new("six_bottle_layout", 31, 4, rows));
        let rows = vec![layout_row(50, 207, 86, 0, 4), layout_row(72, 444, 106, 0, 3)];
        out.push(Self::new("seven_bottle_layout", 38, 4, rows));
        let rows = vec![
            layout_row(61, 156, 76, 0, 4),
            layout_row(60, 340, 76, 0, 4),
            layout_row(61, 528, 76, 0, 4),
        ];
        out.push(Self::new("twelve_bottle_layout_alternative", 28, 4, rows));
        let rows = vec![layout_row(49, 208, 84, 0, 4), layout_row(51, 446, 84, 0, 4)];
        out.push(Self::new("eight_bottle_layout", 35, 4, rows));
        let rows = vec![layout_row(38, 225, 70, 0, 5), layout_row(61, 440, 77, 0, 4)];
        out.push(Self::new("nine_bottle_layout", 32, 4, rows));
        let rows = vec![layout_row(63, 225, 77, 0, 4), layout_row(39, 444, 70, 0, 5)];
        out.push(Self::new("nine_bottle_layout_alternative", 33, 4, rows));
        proof {
            assert forall|i: int| 0 <= i < out@.len() implies (#[trigger] out@[i])@
                == known_layouts()[i] by {
                if i == 0 {
                    assert(out@[i]@.3 =~= known_layouts()[i].3);
                } else if i == 1 {
                    assert(out@[i]@.3 =~= known_layouts()[i].3);
                } else if i == 2 {
                    assert(out@[i]@.3 =~= known_layouts()[i].3);
                } else if i == 3 {
                    assert(out@[i]@.3 =~= known_layouts()[i].3);
                } else if i == 4 {
                    assert(out@[i]@.3 =~= known_layouts()[i].3);
                } else if i == 5 {
                    assert(out@[i]@.3 =~= known_layouts()[i].3);
                } else if i == 6 {
                    assert(out@[i]@.3 =~= known_layouts()[i].3);
                } else if i == 7 {
                    assert(out@[i]@.3 =~= known_layouts()[i].3);
                } else if i == 8 {
                    assert(out@[i]@.3 =~= known_layouts()[i].3);
                } else {
                    assert(out@[i]@.3 =~= known_layouts()[i].3);
                }
            }
        }
        out
    }

    /// Where to click to pick bottle `bottle_index`, if the layout has it.
    pub fn get_click_position(&self, bottle_index: usize) -> (r: Option<Pos>)
        ensures
            r is Some <==> row_click_position(self@.3, bottle_index as int) is Some,
            r matches Some(p) ==> row_click_position(self@.3, bottle_index as int) == Some(
                (p.0 as int, p.1 as int),
            ),
    {
        proof {
            use_type_invariant(self);
        }
        let mut index: usize = bottle_index;
        let mut i: usize = 0;
        proof {
            assert(self.rows@.subrange(0, self.rows@.len() as int) =~= self.rows@);
        }
        while i < self.rows.len()
            invariant
                i <= self.rows@.len(),
                self.rows@.len() <= 10,
                forall|k: int| 0 <= k < self.rows@.len() ==> row_fits(#[trigger] self.rows@[k]),
                row_click_position(self.rows@, bottle_index as int) == row_click_position(
                    self.rows@.subrange(i as int, self.rows@.len() as int),
                    index as int,
                ),
            decreases self.rows@.len() - i,
        {
            let r = self.rows[i];
            proof {
                let t = self.rows@.subrange(i as int, self.rows@.len() as int);
                assert(t[0] == r);
                assert(t.drop_first() =~= self.rows@.subrange(i + 1, self.rows@.len() as int));
                assert(row_fits(r));
            }
            if index < r.bottle_count {
                let k = index as i32;
                proof {
                    assert(-1000 * 100 <= r.spacing.0 * k <= 1000 * 100) by (nonlinear_arith)
                        requires
                            -1000 <= r.spacing.0 <= 1000,
                            0 <= k <= 100,
                    ;
                    assert(-1000 * 100 <= r.spacing.1 * k <= 1000 * 100) by (nonlinear_arith)
                        requires
                            -1000 <= r.spacing.1 <= 1000,
                            0 <= k <= 100,
                    ;
                }
                return Some(
                    Pos(
                        r.start_position.0 + r.spacing.0 * k,
                        r.start_position.1 + r.spacing.1 * k,
                    ),
                );
            }
            index = index - r.bottle_count;
            i = i + 1;
        }
        None
    }

    /// Where to sample layer `layer_index` of bottle `bottle_index`: above the
    /// click position by one layer spacing for each layer between it and the
    /// top layer.
    pub fn get_sample_position(&self, bottle_index: usize, layer_index: usize) -> (r: Option<Pos>)
        ensures
            r is Some <==> row_click_position(self@.3, bottle_index as int) is Some,
            r matches Some(p) ==> {
                let c = row_click_position(self@.3, bottle_index as int)->0;
                &&& p.0 == c.0
                &&& p.1 == c.1 - self@.1 * layer_offset(self@.2, layer_index)
            },
    {
        proof {
            use_type_invariant(self);
        }
        let click_position = match self.get_click_position(bottle_index) {
            Some(p) => p,
            None => {
                return None;
            },
        };
        let offset = self.layer_count.saturating_sub(1).saturating_sub(layer_index) as i32;
        proof {
            assert(0 <= offset <= 100);
            assert(0 <= self.layer_spacing * offset <= 1000 * 100) by (nonlinear_arith)
                requires
                    0 <= self.layer_spacing <= 1000,
                    0 <= offset <= 100,
            ;
            lemma_click_position_bounds(self@.3, bottle_index as int);
        }
        Some(Pos(click_position.0, click_position.1 - self.layer_spacing * offset))
    }

    /// The click positions of all bottles of the layout, in order.
    pub fn bottle_positions(&self) -> (r: Vec<Pos>)
        ensures
            r@.len() == rows_bottle_count(self@.3),
            forall|i: int|
                0 <= i < r@.len() ==> row_click_position(self@.3, i) == Some(
                    ((#[trigger] r@[i]).0 as int, r@[i].1 as int),
                ),
    {
        let n = self.bottle_count();
        let mut out: Vec<Pos> = Vec::new();
        let mut i: usize = 0;
        while i < n
            invariant
                i <= n,
                n == rows_bottle_count(self@.3),
                forall|k: int|
                    0 <= k < out@.len() ==> row_click_position(self@.3, k) == Some(
                        ((#[trigger] out@[k]).0 as int, out@[k].1 as int),
                    ),
                out@.len() == i,
            decreases n - i,
        {
            proof {
                lemma_click_position_exists(self@.3, i as int);
            }
            match self.get_click_position(i) {
                Some(p) => {
                    out.push(p);
                },
                None => {},
            }
            i = i + 1;
        }
        out
    }

    /// How many bottles each row holds, from the top row down.
    pub fn row_pattern(&self) -> (r: Vec<usize>)
        ensures
            r@.len() == self@.3.len(),
            forall|i: int| 0 <= i < r@.len() ==> #[trigger] r@[i] == self@.3[i].bottle_count,
    {
        let mut out: Vec<usize> = Vec::new();
        let mut i: usize = 0;
        while i < self.rows.len()
            invariant
                i <= self.rows@.len(),
                out@.len() == i,
                forall|k: int| 0 <= k < i ==> #[trigger] out@[k] == self.rows@[k].bottle_count,
            decreases self.rows@.len() - i,
        {
            out.push(self.rows[i].bottle_count);
            i = i + 1;
        }
        out
    }

    /// A layout equal to this one.
    pub fn duplicate(&self) -> (r: Self)
        ensures
            r@ == self@,
    {
        proof {
            use_type_invariant(self);
        }
        let mut rows: Vec<LayoutRow> = Vec::new();
        let mut i: usize = 0;
        while i < self.rows.len()
            invariant
                i <= self.rows@.len(),
                rows@ == self.rows@.subrange(0, i as int),
            decreases self.rows@.len() - i,
        {
            rows.push(self.rows[i]);
            proof {
                assert(rows@ =~= self.rows@.subrange(0, i + 1));
            }
            i = i + 1;
        }
        proof {
            assert(rows@ =~= self.rows@);
        }
        Self::new(self.friendly_name, self.layer_spacing, self.layer_count, rows)
    }
}

proof fn lemma_click_position_bounds(rows: Seq<LayoutRow>, index: int)
    requires
        forall|k: int| 0 <= k < rows.len() ==> row_fits(#[trigger] rows[k]),
    ensures
        row_click_position(rows, index) matches Some(c) ==> -110000 <= c.0 <= 110000 && -110000
            <= c.1 <= 110000,
    decreases rows.len(),
{
    if rows.len() > 0 && index >= 0 {
        assert(row_fits(rows[0]));
        if index < rows[0].bottle_count {
            let r = rows[0];
            assert(-100000 <= r.spacing.0 * index <= 100000) by (nonlinear_arith)
                requires
                    -1000 <= r.spacing.0 <= 1000,
                    0 <= index <= 100,
            ;
            assert(-100000 <= r.spacing.1 * index <= 100000) by (nonlinear_arith)
                requires
                    -1000 <= r.spacing.1 <= 1000,
                    0 <= index <= 100,
            ;
        } else {
            assert forall|k: int| 0 <= k < rows.drop_first().len() implies row_fits(
                #[trigger] rows.drop_first()[k],
            ) by {
                assert(rows.drop_first()[k] == rows[k + 1]);
            }
            lemma_click_position_bounds(rows.drop_first(), index - rows[0].bottle_count);
        }
    }
}

proof fn lemma_click_position_exists(rows: Seq<LayoutRow>, index: int)
    requires
        0 <= index < rows_bottle_count(rows),
    ensures
        row_click_position(rows, index) is Some,
    decreases rows.len(),
{
    if rows.len() > 0 && index >= rows[0].bottle_count {
        lemma_click_position_exists(rows.drop_first(), index - rows[0].bottle_count);
    }
}

/// How many bottles each row holds.
pub open spec fn pattern_of(rows: Seq<LayoutRow>) -> Seq<usize> {
    rows.map_values(|r: LayoutRow| r.bottle_count)
}

/// The sum of a row pattern.
pub open spec fn pattern_total(p: Seq<usize>) -> nat
    decreases p.len(),
{
    if p.len() == 0 {
        0
    } else {
        pattern_total(p.drop_last()) + p.last() as nat
    }
}

/// How far a layout's bottle count is from the number of bottles seen.
pub open spec fn distance(l: LayoutView, observed: Seq<usize>) -> int {
    let d = rows_bottle_count(l.3) - pattern_total(observed);
    if d >= 0 {
        d
    } else {
        -d
    }
}

proof fn lemma_rows_count_bound(rows: Seq<LayoutRow>)
    requires
        forall|k: int| 0 <= k < rows.len() ==> row_fits(#[trigger] rows[k]),
    ensures
        rows_bottle_count(rows) <= 100 * rows.len(),
    decreases rows.len(),
{
    if rows.len() > 0 {
        assert(row_fits(rows[0]));
        assert forall|k: int| 0 <= k < rows.drop_first().len() implies row_fits(
            #[trigger] rows.drop_first()[k],
        ) by {
            assert(rows.drop_first()[k] == rows[k + 1]);
        }
        lemma_rows_count_bound(rows.drop_first());
    }
}

fn same_pattern(a: &Vec<usize>, b: &Vec<usize>) -> (r: bool)
    ensures
        r == (a@ == b@),
{
    if a.len() != b.len() {
        return false;
    }
    let mut i: usize = 0;
    while i < a.len()
        invariant
            i <= a.len(),
            a.len() == b.len(),
            forall|k: int| 0 <= k < i ==> a@[k] == b@[k],
        decreases a.len() - i,
    {
        if a[i] != b[i] {
            return false;
        }
        i = i + 1;
    }
    proof {
        assert(a@ =~= b@);
    }
    true
}

fn sum_pattern(p: &Vec<usize>) -> (r: usize)
    requires
        pattern_total(p@) <= isize::MAX,
    ensures
        r == pattern_total(p@),
{
    let mut total: usize = 0;
    let mut i: usize = 0;
    while i < p.len()
        invariant
            i <= p.len(),
            pattern_total(p@) <= isize::MAX,
            total == pattern_total(p@.subrange(0, i as int)),
        decreases p.len() - i,
    {
        proof {
            assert(p@.subrange(0, i + 1).drop_last() =~= p@.subrange(0, i as int));
            lemma_pattern_total_prefix(p@, i + 1);
        }
        total = total + p[i];
        i = i + 1;
    }
    proof {
        assert(p@.subrange(0, p@.len() as int) =~= p@);
    }
    total
}

proof fn lemma_pattern_total_prefix(p: Seq<usize>, i: int)
    requires
        0 <= i <= p.len(),
    ensures
        pattern_total(p.subrange(0, i)) <= pattern_total(p),
    decreases p.len() - i,
{
    if i < p.len() {
        lemma_pattern_total_prefix(p, i + 1);
        assert(p.subrange(0, i + 1).drop_last() =~= p.subrange(0, i));
    } else {
        assert(p.subrange(0, i) =~= p);
    }
}

fn nearness(a: usize, b: usize) -> (r: usize)
    ensures
        r == if a >= b {
            a - b
        } else {
            b - a
        },
{
    if a >= b {
        a - b
    } else {
        b - a
    }
}

/// The top layer of a bottle is sampled where the bottle is clicked, and each
/// layer below it one layer spacing further up the screen from the next.
pub proof fn lemma_top_layer_sampled_at_click(l: LayoutView, bottle_index: int, layer_index: usize)
    requires
        l.2 >= 1,
        layer_index <= l.2 - 1,
    ensures
        layer_offset(l.2, layer_index) == l.2 - 1 - layer_index,
        layer_index == l.2 - 1 ==> layer_offset(l.2, layer_index) == 0,
{
}

/// The layout chosen for the rows seen: the first known layout with exactly
/// these row sizes, else the first whose bottle count is nearest to the number
/// of bottles seen.
pub open spec fn chosen_layout(r: LayoutView, observed: Seq<usize>) -> bool {
    let ls = known_layouts();
    let exact = exists|i: int| 0 <= i < ls.len() && pattern_of(#[trigger] ls[i].3) == observed;
    &&& exact ==> exists|i: int|
        0 <= i < ls.len() && r == #[trigger] ls[i] && pattern_of(ls[i].3) == observed && forall|j: int|
            0 <= j < i ==> pattern_of(#[trigger] ls[j].3) != observed
    &&& !exact ==> exists|i: int|
        0 <= i < ls.len() && r == #[trigger] ls[i] && (forall|j: int|
            0 <= j < ls.len() ==> distance(#[trigger] ls[j], observed) >= distance(ls[i], observed))
            && (forall|j: int| 0 <= j < i ==> distance(#[trigger] ls[j], observed) > distance(ls[i], observed))
}

/// The layout for the rows seen on the screen: the first known layout with
/// exactly these row sizes, else the first whose bottle count is nearest to
/// the number of bottles seen.
pub fn layout_for_row_pattern(observed_pattern: &Vec<usize>) -> (r: BottleLayout)
    requires
        pattern_total(observed_pattern@) <= isize::MAX,
    ensures
        chosen_layout(r@, observed_pattern@),

{
    let candidates = BottleLayout::get_layouts();
    let ghost ls = known_layouts();
    let mut i: usize = 0;
    while i < candidates.len()
        invariant
            i <= candidates@.len(),
            ls == known_layouts(),
            candidates@.len() == ls.len(),
            forall|k: int| 0 <= k < candidates@.len() ==> (#[trigger] candidates@[k])@ == ls[k],
            forall|k: int| 0 <= k < i ==> pattern_of(#[trigger] ls[k].3) != observed_pattern@,
        decreases candidates@.len() - i,
    {
        let pattern = candidates[i].row_pattern();
        if same_pattern(&pattern, observed_pattern) {
            proof {
                assert(pattern@ =~= pattern_of(ls[i as int].3));
                assert(pattern_of(ls[i as int].3) == observed_pattern@);
            }
            let found = candidates[i].duplicate();
            proof {
                let ii = i as int;
                assert(pattern_of(known_layouts()[ii].3) == observed_pattern@);
                assert(found@ == known_layouts()[ii]);
            }
            return found;
        }
        proof {
            assert(pattern@ =~= pattern_of(ls[i as int].3));
        }
        i = i + 1;
    }
    let observed = sum_pattern(observed_pattern);
    let mut best: usize = 0;
    let mut best_distance: usize = nearness(candidates[0].bottle_count(), observed);
    let mut j: usize = 1;
    while j < candidates.len()
        invariant
            1 <= j <= candidates@.len(),
            ls == known_layouts(),
            candidates@.len() == ls.len(),
            forall|k: int| 0 <= k < candidates@.len() ==> (#[trigger] candidates@[k])@ == ls[k],
            best < j,
            observed == pattern_total(observed_pattern@),
            best_distance == distance(ls[best as int], observed_pattern@),
            forall|k: int| 0 <= k < j ==> distance(#[trigger] ls[k], observed_pattern@) >= best_distance,
            forall|k: int| 0 <= k < best ==> distance(#[trigger] ls[k], observed_pattern@) > best_distance,
        decreases candidates@.len() - j,
    {
        let d = nearness(candidates[j].bottle_count(), observed);
        if d < best_distance {
            best = j;
            best_distance = d;
        }
        j = j + 1;
    }
    let found = candidates[best].duplicate();
    proof {
        assert(found@ == ls[best as int]);
        assert(!(exists|i: int|
            0 <= i < ls.len() && pattern_of(#[trigger] ls[i].3) == observed_pattern@));
    }
    found
}

impl BottleLayout {
    /// The layout of the bottles whose bounding boxes are seen on the board:
    /// the layout chosen for the numbers of boxes in the rows, rows from top
    /// to bottom, as `detect_row_pattern` finds them.
    pub fn detect_layout(bounds: &Vec<BoundingBox>) -> (r: BottleLayout)
        requires
            boxes_ok(bounds@),
            bounds@.len() <= isize::MAX,
        ensures
            exists|cs: Seq<Seq<usize>>, perm: Seq<usize>|
                #![trigger stable_order(row_keys(bounds@, cs), perm)]
                components_spec(bounds@, cs) && stable_order(row_keys(bounds@, cs), perm)
                    && chosen_layout(
                    r@,
                    Seq::new(cs.len(), |a: int| cs[perm[a] as int].len() as usize),
                ),
    {
        let pattern = detect_row_pattern(bounds);
        let r = layout_for_row_pattern(&pattern);
        proof {
            let (cs, perm) = choose|cs: Seq<Seq<usize>>, perm: Seq<usize>|
                #![trigger stable_order(row_keys(bounds@, cs), perm)]
                components_spec(bounds@, cs) && stable_order(row_keys(bounds@, cs), perm) && pattern@
                    == Seq::new(cs.len(), |a: int| cs[perm[a] as int].len() as usize);
            assert(stable_order(row_keys(bounds@, cs), perm));
        }
        r
    }
}

} // verus!
