//! The decisions of bottle detection that do not need the image: matching a
//! sampled colour against the colours known so far, classifying a layer, the
//! grouping of bounding boxes into rows, and where to click a bottle.
use vstd::prelude::*;

use crate::color::{color_distance_sq, spec_color_distance_sq, Bgr, BottleColor};
use crate::position::Pos;
use crate::rows::{stable_order, stable_order_by, BoundingBox};

verus! {

/// Largest squared distance below which a sampled colour matches a known one.
pub const COLOR_MATCH_DISTANCE: u32 = 900;

/// The channels of a visible colour.
pub open spec fn fill_of(c: BottleColor) -> Option<Bgr> {
    match c {
        BottleColor::Fill(b, g, r) => Some((b, g, r)),
        _ => None,
    }
}

/// The known colour at `i` is visible and no farther from `avg` than `bound`
/// allows: below it when `bounded`, anywhere otherwise.
pub open spec fn candidate(known: Seq<BottleColor>, avg: Bgr, i: int, bounded: bool) -> bool {
    &&& fill_of(known[i]) is Some
    &&& (bounded ==> spec_color_distance_sq(avg, fill_of(known[i])->0) < COLOR_MATCH_DISTANCE)
}

/// The known colour at `i` is the first of the nearest candidates.
pub open spec fn nearest_at(known: Seq<BottleColor>, avg: Bgr, i: int, bounded: bool) -> bool {
    let d = spec_color_distance_sq(avg, fill_of(known[i])->0);
    &&& 0 <= i < known.len()
    &&& candidate(known, avg, i, bounded)
    &&& forall|j: int|
        0 <= j < known.len() && candidate(known, avg, j, bounded) ==> {
            let dj = #[trigger] spec_color_distance_sq(avg, fill_of(known[j])->0);
            &&& j < i ==> dj > d
            &&& j > i ==> dj >= d
        }
}

/// The colour among the known ones nearest to `avg`, the first of them when
/// several are as near; when `bounded`, only those closer than
/// `COLOR_MATCH_DISTANCE` count.
pub open spec fn nearest_spec(known: Seq<BottleColor>, avg: Bgr, bounded: bool, r: Option<Bgr>) -> bool {
    match r {
        Some(c) => exists|i: int| nearest_at(known, avg, i, bounded) && fill_of(known[i]) == Some(c),
        None => forall|j: int| 0 <= j < known.len() ==> !candidate(known, avg, j, bounded),
    }
}

proof fn lemma_distance_bound(p: Bgr, t: Bgr)
    ensures
        0 <= spec_color_distance_sq(p, t) <= 3 * 255 * 255,
{
    let (a, b, c) = ((p.0 - t.0) as int, (p.1 - t.1) as int, (p.2 - t.2) as int);
    assert(0 <= a * a <= 255 * 255) by (nonlinear_arith)
        requires
            -255 <= a <= 255,
    ;
    assert(0 <= b * b <= 255 * 255) by (nonlinear_arith)
        requires
            -255 <= b <= 255,
    ;
    assert(0 <= c * c <= 255 * 255) by (nonlinear_arith)
        requires
            -255 <= c <= 255,
    ;
}

fn nearest_color(avg: Bgr, known_colors: &Vec<BottleColor>, bounded: bool) -> (r: Option<Bgr>)
    ensures
        nearest_spec(known_colors@, avg, bounded, r),
{
    let ghost known = known_colors@;
    let mut closest: Option<Bgr> = None;
    let ghost mut at: int = -1;
    let mut min_distance = u32::MAX;
    let mut i: usize = 0;
    while i < known_colors.len()
        invariant
            known == known_colors@,
            i <= known.len(),
            closest is None ==> forall|j: int| 0 <= j < i ==> !candidate(known, avg, j, bounded),
            closest is None ==> min_distance == u32::MAX,
            closest matches Some(c) ==> {
                &&& 0 <= at < i
                &&& candidate(known, avg, at, bounded)
                &&& fill_of(known[at]) == Some(c)
                &&& min_distance == spec_color_distance_sq(avg, c)
                &&& forall|j: int|
                    0 <= j < i && candidate(known, avg, j, bounded) ==> {
                        let dj = #[trigger] spec_color_distance_sq(avg, fill_of(known[j])->0);
                        &&& j < at ==> dj > min_distance
                        &&& j > at ==> dj >= min_distance
                    }
            },
        decreases known.len() - i,
    {
        match known_colors[i] {
            BottleColor::Fill(b, g, r) => {
                let color: Bgr = (b, g, r);
                let distance = color_distance_sq(&avg, &color);
                proof {
                    lemma_distance_bound(avg, color);
                }
                if distance < min_distance && (!bounded || distance < COLOR_MATCH_DISTANCE) {
                    min_distance = distance;
                    closest = Some(color);
                    proof {
                        at = i as int;
                    }
                }
            },
            _ => {},
        }
        i = i + 1;
    }
    proof {
        if closest is Some {
            assert(nearest_at(known, avg, at, bounded));
        }
    }
    closest
}

/// The known colour nearest to the sampled colour `avg`, among those closer
/// than `COLOR_MATCH_DISTANCE`; the first of them in the list when several
/// are as near.
pub fn nearest_known_color(avg: Bgr, known_colors: &Vec<BottleColor>) -> (r: Option<Bgr>)
    ensures
        nearest_spec(known_colors@, avg, true, r),
{
    nearest_color(avg, known_colors, true)
}

/// The known colour nearest to the sampled colour `avg`, however far; the
/// first of them in the list when several are as near.
pub fn nearest_color_unbounded(avg: Bgr, known_colors: &Vec<BottleColor>) -> (r: Option<Bgr>)
    ensures
        nearest_spec(known_colors@, avg, false, r),
{
    nearest_color(avg, known_colors, false)
}

/// The colour of a layer, from what the image shows of it: whether it looks
/// empty, the range of its brightness, and its average colour. A layer whose
/// brightness spans more than 180 is a mystery; otherwise it takes the nearest
/// known colour, or its average colour, which becomes known.
pub open spec fn layer_color_spec(
    looks_empty: bool,
    min_v: u8,
    max_v: u8,
    avg: Bgr,
    known: Seq<BottleColor>,
    r: BottleColor,
    known_after: Seq<BottleColor>,
) -> bool {
    if looks_empty {
        r == BottleColor::Empty && known_after == known
    } else if max_v - min_v > 180 {
        r == BottleColor::Mystery && known_after == known
    } else if exists|j: int| 0 <= j < known.len() && candidate(known, avg, j, true) {
        &&& known_after == known
        &&& exists|i: int|
            nearest_at(known, avg, i, true) && r == known[i]
    } else {
        &&& r == BottleColor::Fill(avg.0, avg.1, avg.2)
        &&& known_after == known.push(r)
    }
}

/// Classifies a layer as `layer_color_spec` says, adding a new colour to the
/// known ones.
pub fn classify_layer_color_or_add_to_known(
    looks_empty: bool,
    min_v: u8,
    max_v: u8,
    avg: Bgr,
    known_colors: &mut Vec<BottleColor>,
) -> (r: BottleColor)
    ensures
        layer_color_spec(looks_empty, min_v, max_v, avg, old(known_colors)@, r, final(known_colors)@),
{
    if looks_empty {
        return BottleColor::Empty;
    }
    let spread = if max_v >= min_v {
        max_v - min_v
    } else {
        0
    };
    if spread > 180 {
        return BottleColor::Mystery;
    }
    match nearest_known_color(avg, known_colors) {
        Some(c) => {
            let ghost known = known_colors@;
            proof {
                let i = choose|i: int| nearest_at(known, avg, i, true) && fill_of(known[i]) == Some(c);
                assert(known[i] == BottleColor::Fill(c.0, c.1, c.2));
            }
            BottleColor::Fill(c.0, c.1, c.2)
        },
        None => {
            let color = BottleColor::Fill(avg.0, avg.1, avg.2);
            known_colors.push(color);
            color
        },
    }
}

/// Where to click a bottle whose bounding box lies at `(x, y)` with the given
/// size inside the game board, which starts at column 0 and row 143 of the
/// frame: the centre of the box.
pub fn bottle_click_position(x: i32, y: i32, width: i32, height: i32) -> (r: Pos)
    requires
        0 <= x,
        0 <= y,
        0 <= width,
        0 <= height,
        x + width / 2 <= i32::MAX,
        143 + y + height / 2 <= i32::MAX,
    ensures
        r == Pos((x + width / 2) as i32, (143 + y + height / 2) as i32),
{
    Pos(x + width / 2, 143 + y + height / 2)
}

/// Half of `w`, rounded toward zero.
pub open spec fn half(w: int) -> int {
    if w >= 0 {
        w / 2
    } else {
        -((-w) / 2)
    }
}

/// The centre column of a box.
pub open spec fn center(b: BoundingBox) -> int {
    b.x + half(b.width as int)
}

/// The first group from `j` on whose centre lies less than 10 columns from
/// `c`.
pub open spec fn first_near(gs: Seq<(int, Seq<usize>)>, c: int, j: int) -> Option<int>
    decreases gs.len() - j,
{
    if j < 0 || j >= gs.len() {
        None
    } else if -10 < gs[j].0 - c < 10 {
        Some(j)
    } else {
        first_near(gs, c, j + 1)
    }
}

/// The groups after the part at position `i` with centre `c` joined them: the
/// first group near enough takes it, else it starts a group of its own.
pub open spec fn join(gs: Seq<(int, Seq<usize>)>, c: int, i: usize) -> Seq<(int, Seq<usize>)> {
    match first_near(gs, c, 0) {
        Some(g) => gs.update(g, (gs[g].0, gs[g].1.push(i))),
        None => gs.push((c, seq![i])),
    }
}

/// The groups of the first `k` parts, each joining in turn.
pub open spec fn groups_of(bs: Seq<BoundingBox>, k: int) -> Seq<(int, Seq<usize>)>
    decreases k,
{
    if k <= 0 {
        Seq::empty()
    } else {
        join(groups_of(bs, k - 1), center(bs[k - 1]), (k - 1) as usize)
    }
}

/// The top rows of the parts of a group.
pub open spec fn y_keys(bs: Seq<BoundingBox>, g: Seq<usize>) -> Seq<i32> {
    Seq::new(g.len(), |p: int| bs[g[p] as int].y)
}

/// For the groups of exactly three parts, in order, the middle one by top
/// row, given for each group the order of its parts by top row.
pub open spec fn middles(gs: Seq<(int, Seq<usize>)>, orders: Seq<Seq<usize>>) -> Seq<usize>
    decreases gs.len(),
{
    if gs.len() == 0 {
        Seq::empty()
    } else {
        let rest = middles(gs.drop_last(), orders);
        let g = gs.last().1;
        if g.len() == 3 {
            rest.push(g[orders[gs.len() - 1][1] as int])
        } else {
            rest
        }
    }
}

proof fn lemma_middles_prefix(
    gs: Seq<(int, Seq<usize>)>,
    orders: Seq<Seq<usize>>,
    g: int,
    o: Seq<usize>,
)
    requires
        gs.len() <= g < orders.len(),
    ensures
        middles(gs, orders) == middles(gs, orders.update(g, o)),
    decreases gs.len(),
{
    if gs.len() > 0 {
        lemma_middles_prefix(gs.drop_last(), orders, g, o);
        assert(orders.update(g, o)[gs.len() - 1] == orders[gs.len() - 1]);
    }
}

fn first_near_group(groups: &Vec<(i64, Vec<usize>)>, c: i64) -> (r: Option<usize>)
    requires
        forall|g: int| 0 <= g < groups@.len() ==> i32::MIN * 2 <= (#[trigger] groups@[g]).0 <= i32::MAX * 2,
        i32::MIN * 2 <= c <= i32::MAX * 2,
    ensures
        r matches Some(g) ==> g < groups@.len() && first_near(groups_v(groups@), c as int, 0) == Some(
            g as int,
        ),
        r is None ==> first_near(groups_v(groups@), c as int, 0) is None,
{
    let ghost gs = groups_v(groups@);
    let mut j: usize = 0;
    while j < groups.len()
        invariant
            gs == groups_v(groups@),
            j <= groups@.len(),
            forall|g: int| 0 <= g < groups@.len() ==> i32::MIN * 2 <= (#[trigger] groups@[g]).0 <= i32::MAX * 2,
            i32::MIN * 2 <= c <= i32::MAX * 2,
            first_near(gs, c as int, 0) == first_near(gs, c as int, j as int),
        decreases groups@.len() - j,
    {
        let d = groups[j].0 - c;
        if -10 < d && d < 10 {
            return Some(j);
        }
        j = j + 1;
    }
    None
}

/// Groups by their centre and their parts, by view.
pub open spec fn groups_v(groups: Seq<(i64, Vec<usize>)>) -> Seq<(int, Seq<usize>)> {
    groups.map_values(|g: (i64, Vec<usize>)| (g.0 as int, g.1@))
}

/// The parts of hidden bottles seen on the board are grouped by their centre
/// column, each joining the first group whose centre lies less than 10
/// columns away or starting a new one; a hidden bottle shows as exactly three
/// parts stacked, and its flask is the middle one by top row. Gives the
/// positions of the flasks among `bounds`, group by group.
pub fn curtain_flask_indices(bounds: &Vec<BoundingBox>) -> (r: Vec<usize>)
    ensures
        exists|orders: Seq<Seq<usize>>|
            #![trigger middles(groups_of(bounds@, bounds@.len() as int), orders)]
            {
                let gs = groups_of(bounds@, bounds@.len() as int);
                &&& orders.len() == gs.len()
                &&& forall|g: int|
                    0 <= g < gs.len() && gs[g].1.len() == 3 ==> #[trigger] stable_order(
                        y_keys(bounds@, gs[g].1),
                        orders[g],
                    )
                &&& r@ == middles(gs, orders)
            },
{
    let ghost bs = bounds@;
    let mut groups: Vec<(i64, Vec<usize>)> = Vec::new();
    let mut i: usize = 0;
    while i < bounds.len()
        invariant
            bs == bounds@,
            i <= bs.len(),
            groups_v(groups@) == groups_of(bs, i as int),
            forall|g: int| 0 <= g < groups@.len() ==> i32::MIN * 2 <= (#[trigger] groups@[g]).0 <= i32::MAX * 2,
            forall|g: int, p: int| 0 <= g < groups@.len() && 0 <= p < groups@[g].1@.len() ==> #[trigger] groups@[g].1@[p] < i,
        decreases bs.len() - i,
    {
        let b = bounds[i];
        let c: i64 = b.x as i64 + (b.width / 2) as i64;
        let ghost before = groups@;
        match first_near_group(&groups, c) {
            Some(g) => {
                let (gc, mut members) = groups.remove(g);
                members.push(i);
                groups.insert(g, (gc, members));
                proof {
                    assert(groups_v(groups@) =~= groups_v(before).update(
                        g as int,
                        (groups_v(before)[g as int].0, groups_v(before)[g as int].1.push(i)),
                    ));
                }
            },
            None => {
                let mut members: Vec<usize> = Vec::new();
                members.push(i);
                groups.push((c, members));
                proof {
                    assert(members@ =~= seq![i]);
                    assert(groups_v(groups@) =~= groups_v(before).push((c as int, seq![i])));
                }
            },
        }
        proof {
            assert(center(bs[i as int]) == c as int);
        }
        i = i + 1;
    }
    let ghost gs = groups_v(groups@);
    let ghost mut orders: Seq<Seq<usize>> = Seq::new(groups@.len(), |g: int| Seq::<usize>::empty());
    let mut flasks: Vec<usize> = Vec::new();
    let mut g: usize = 0;
    while g < groups.len()
        invariant
            bs == bounds@,
            gs == groups_v(groups@),
            gs == groups_of(bs, bs.len() as int),
            g <= groups@.len(),
            orders.len() == gs.len(),
            forall|q: int, p: int| 0 <= q < groups@.len() && 0 <= p < groups@[q].1@.len() ==> #[trigger] groups@[q].1@[p] < bs.len(),
            forall|q: int|
                0 <= q < g && gs[q].1.len() == 3 ==> #[trigger] stable_order(y_keys(bs, gs[q].1), orders[q]),
            flasks@ == middles(gs.subrange(0, g as int), orders),
        decreases groups@.len() - g,
    {
        let members = &groups[g].1;
        proof {
            assert(gs[g as int].1 == members@);
            assert(gs.subrange(0, g + 1).drop_last() =~= gs.subrange(0, g as int));
        }
        if members.len() == 3 {
            let mut ys: Vec<i32> = Vec::new();
            let mut p: usize = 0;
            while p < 3
                invariant
                    members@.len() == 3,
                    forall|q: int| 0 <= q < 3 ==> #[trigger] members@[q] < bs.len(),
                    bs == bounds@,
                    p <= 3,
                    ys@ == y_keys(bs, members@).subrange(0, p as int),
                decreases 3 - p,
            {
                ys.push(bounds[members[p]].y);
                proof {
                    assert(ys@ =~= y_keys(bs, members@).subrange(0, p + 1));
                }
                p = p + 1;
            }
            proof {
                assert(ys@ =~= y_keys(bs, members@));
            }
            let order = stable_order_by(&ys);
            proof {
                let old_orders = orders;
                lemma_middles_prefix(gs.subrange(0, g as int), old_orders, g as int, order@);
                orders = orders.update(g as int, order@);
            }
            flasks.push(members[order[1]]);
        }
        g = g + 1;
    }
    proof {
        assert(gs.subrange(0, gs.len() as int) =~= gs);
    }
    flasks
}

} // verus!
