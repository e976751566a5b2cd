//! A bottle of coloured layers and the rules for pouring between bottles.
use vstd::prelude::*;

use crate::color::BottleColor;
use crate::position::Pos;

verus! {

/// How many layers a bottle holds.
pub const FULL_BOTTLE_COUNT: usize = 4;

/// Whether a bottle is hidden behind a curtain until some colour is solved.
#[derive(Debug, Clone, Copy, PartialEq, Eq, Structural, Hash, PartialOrd, Ord)]
pub enum HiddenRequirement {
    NoRequirement,
    /// Hidden until a bottle of this colour is solved.
    Locked(BottleColor),
    /// Was hidden behind this colour and has been revealed.
    Unlocked(BottleColor),
}

impl Default for HiddenRequirement {
    fn default() -> (r: Self)
        ensures
            r == HiddenRequirement::NoRequirement,
    {
        HiddenRequirement::NoRequirement
    }
}

/// One layer: its colour and whether it was a mystery layer when the level began.
pub type Layer = (BottleColor, bool);

/// A bottle. Its layers are stored from the bottom (index 0) to the top.
#[derive(Debug, Clone, Hash, PartialEq, Eq)]
pub struct Bottle {
    fills: Vec<Layer>,
    hidden_requirement: HiddenRequirement,
    click_position: Option<Pos>,
}

/// The colours of a sequence of layers.
pub open spec fn colors_of(fills: Seq<Layer>) -> Seq<BottleColor> {
    fills.map_values(|l: Layer| l.0)
}

/// How many layers just under the end of `fills` have colour `c` and were not
/// mystery layers, counted from the end down to the first that differs.
pub open spec fn same_below(fills: Seq<Layer>, c: BottleColor) -> nat
    decreases fills.len(),
{
    if fills.len() == 0 {
        0
    } else if fills.last().0 == c && !fills.last().1 {
        1 + same_below(fills.drop_last(), c)
    } else {
        0
    }
}

/// The size of the top run of layers that pour together: the top layer, and
/// below it the layers of the same colour that were not mystery layers, unless
/// the top layer itself was a mystery layer.
pub open spec fn top_run(fills: Seq<Layer>) -> nat {
    if fills.len() == 0 {
        0
    } else if fills.last().1 {
        1
    } else {
        1 + same_below(fills.drop_last(), fills.last().0)
    }
}

/// The layers of a bottle built from colours, each marked as a mystery layer
/// when its colour is `Mystery`.
pub open spec fn layers_from_colors(colors: Seq<BottleColor>) -> Seq<Layer> {
    colors.map_values(|c: BottleColor| (c, c == BottleColor::Mystery))
}

/// The layers of a bottle built from colours and the colours it began with:
/// a layer is marked as a mystery layer when the layer at the same height was
/// a mystery layer at the beginning.
pub open spec fn layers_with_initial(colors: Seq<BottleColor>, initial: Seq<BottleColor>) -> Seq<
    Layer,
> {
    Seq::new(
        colors.len(),
        |i: int| (colors[i], i < initial.len() && initial[i] == BottleColor::Mystery),
    )
}

pub open spec fn requirement_color(h: HiddenRequirement) -> Option<BottleColor> {
    match h {
        HiddenRequirement::NoRequirement => None,
        HiddenRequirement::Locked(c) => Some(c),
        HiddenRequirement::Unlocked(c) => Some(c),
    }
}

/// What a bottle holds: its layers, its hidden requirement and where to click it.
pub type BottleView = (Seq<Layer>, HiddenRequirement, Option<Pos>);

pub open spec fn v_locked(v: BottleView) -> bool {
    v.1 is Locked
}

pub open spec fn v_count(v: BottleView) -> nat {
    v.0.len()
}

/// The top run that would pour out of a bottle, as amount and colour; none
/// for a locked hidden bottle or an empty one.
pub open spec fn v_top_fill(v: BottleView) -> Option<(nat, BottleColor)> {
    if v_locked(v) || v_count(v) == 0 {
        None
    } else {
        Some((top_run(v.0), v.0.last().0))
    }
}

/// Four layers of one colour that is not `Mystery`, in a bottle that is not
/// locked.
pub open spec fn v_solved(v: BottleView) -> bool {
    &&& !v_locked(v)
    &&& v_count(v) == FULL_BOTTLE_COUNT
    &&& forall|i: int|
        0 <= i < v_count(v) ==> #[trigger] v.0[i].0 == v.0[0].0 && v.0[i].0
            != BottleColor::Mystery
}

pub open spec fn v_solved_color(v: BottleView) -> Option<BottleColor> {
    if v_solved(v) {
        Some(v.0[0].0)
    } else {
        None
    }
}

/// The pouring rule, from `src` into `dst`: neither bottle is locked, the
/// destination has room, the source is not empty, and either the destination
/// is empty or its top colour is that of the source's top, is not `Mystery`,
/// and the whole top run of the source fits.
pub open spec fn v_can_fill(dst: BottleView, src: BottleView) -> bool {
    &&& !v_locked(dst)
    &&& !v_locked(src)
    &&& v_count(dst) < FULL_BOTTLE_COUNT
    &&& v_count(src) != 0
    &&& (v_count(dst) == 0 || {
        let dst_top = dst.0.last().0;
        &&& dst_top == src.0.last().0
        &&& dst_top != BottleColor::Mystery
        &&& v_count(dst) + top_run(src.0) <= FULL_BOTTLE_COUNT
    })
}

/// The destination after the top run of `src` was poured into it; the poured
/// layers are no longer mystery layers.
pub open spec fn v_poured_into(dst: BottleView, src: BottleView) -> BottleView {
    let run = top_run(src.0);
    let c = src.0.last().0;
    (dst.0 + Seq::new(run, |i: int| (c, false)), dst.1, dst.2)
}

/// The source after its top run was poured out.
pub open spec fn v_poured_out(src: BottleView) -> BottleView {
    (src.0.subrange(0, src.0.len() - top_run(src.0)), src.1, src.2)
}

/// A locked requirement becomes unlocked.
pub open spec fn v_unlocked(v: BottleView) -> BottleView {
    (v.0, match v.1 {
        HiddenRequirement::Locked(c) => HiddenRequirement::Unlocked(c),
        h => h,
    }, v.2)
}

impl View for Bottle {
    type V = BottleView;

    closed spec fn view(&self) -> BottleView {
        (self.fills@, self.hidden_requirement, self.click_position)
    }
}

impl Bottle {
    pub open spec fn layers(&self) -> Seq<Layer> {
        self@.0
    }

    pub open spec fn requirement(&self) -> HiddenRequirement {
        self@.1
    }

    pub open spec fn spec_click(&self) -> Option<Pos> {
        self@.2
    }

    pub open spec fn spec_colors(&self) -> Seq<BottleColor> {
        colors_of(self.layers())
    }

    pub open spec fn spec_locked(&self) -> bool {
        v_locked(self@)
    }

    pub open spec fn spec_count(&self) -> nat {
        v_count(self@)
    }

    pub open spec fn spec_full(&self) -> bool {
        self.spec_count() >= FULL_BOTTLE_COUNT
    }

    pub open spec fn spec_top_fill(&self) -> Option<(nat, BottleColor)> {
        v_top_fill(self@)
    }

    pub open spec fn spec_solved(&self) -> bool {
        v_solved(self@)
    }

    pub open spec fn spec_solved_color(&self) -> Option<BottleColor> {
        v_solved_color(self@)
    }

    pub open spec fn spec_can_fill_from(&self, other: &Bottle) -> bool {
        v_can_fill(self@, other@)
    }

    /// A bottle whose layers are the given colours, marking `Mystery` layers as
    /// mystery layers, with no hidden requirement.
    pub fn from_fills(fills: Vec<BottleColor>, click_position: Option<Pos>) -> (r: Self)
        ensures
            r@ == (layers_from_colors(fills@), HiddenRequirement::NoRequirement, click_position),
    {
        let mut layers: Vec<Layer> = Vec::new();
        let mut i: usize = 0;
        while i < fills.len()
            invariant
                i <= fills.len(),
                layers@ == layers_from_colors(fills@.subrange(0, i as int)),
            decreases fills.len() - i,
        {
            let c = fills[i];
            let m = match c {
                BottleColor::Mystery => true,
                _ => false,
            };
            layers.push((c, m));
            proof {
                assert(layers@ =~= layers_from_colors(fills@.subrange(0, i + 1)));
            }
            i = i + 1;
        }
        proof {
            assert(fills@.subrange(0, fills.len() as int) =~= fills@);
        }
        Bottle { fills: layers, hidden_requirement: HiddenRequirement::NoRequirement, click_position }
    }

    /// A bottle whose layers are the given colours; a layer is marked as a
    /// mystery layer when the initial colour at its height was `Mystery`.
    pub fn from_fills_with_initial(
        fills: Vec<BottleColor>,
        initial: Vec<BottleColor>,
        click_position: Option<Pos>,
    ) -> (r: Self)
        ensures
            r@ == (layers_with_initial(fills@, initial@), HiddenRequirement::NoRequirement, click_position),
    {
        let mut layers: Vec<Layer> = Vec::new();
        let mut i: usize = 0;
        while i < fills.len()
            invariant
                i <= fills.len(),
                layers@ == layers_with_initial(fills@, initial@).subrange(0, i as int),
            decreases fills.len() - i,
        {
            let m = if i < initial.len() {
                match initial[i] {
                    BottleColor::Mystery => true,
                    _ => false,
                }
            } else {
                false
            };
            layers.push((fills[i], m));
            proof {
                assert(layers@ =~= layers_with_initial(fills@, initial@).subrange(0, i + 1));
            }
            i = i + 1;
        }
        proof {
            assert(layers@ =~= layers_with_initial(fills@, initial@));
        }
        Bottle { fills: layers, hidden_requirement: HiddenRequirement::NoRequirement, click_position }
    }

    /// An empty bottle hidden until a bottle of `requirement` is solved.
    pub fn from_hidden_requirement(requirement: BottleColor, click_position: Option<Pos>) -> (r:
        Self)
        ensures
            r@ == (Seq::<Layer>::empty(), HiddenRequirement::Locked(requirement), click_position),
    {
        Bottle {
            fills: Vec::new(),
            hidden_requirement: HiddenRequirement::Locked(requirement),
            click_position,
        }
    }

    /// An empty bottle that was hidden behind `requirement` and is revealed.
    pub fn from_unlocked_hidden_requirement(
        requirement: BottleColor,
        click_position: Option<Pos>,
    ) -> (r: Self)
        ensures
            r@ == (Seq::<Layer>::empty(), HiddenRequirement::Unlocked(requirement), click_position),
    {
        Bottle {
            fills: Vec::new(),
            hidden_requirement: HiddenRequirement::Unlocked(requirement),
            click_position,
        }
    }

    pub fn hidden_requirement_state(&self) -> (r: HiddenRequirement)
        ensures
            r == self.requirement(),
    {
        self.hidden_requirement
    }

    /// The colour the bottle is or was hidden behind.
    pub fn hidden_requirement(&self) -> (r: Option<BottleColor>)
        ensures
            r == requirement_color(self.requirement()),
    {
        match self.hidden_requirement {
            HiddenRequirement::Locked(requirement) => Some(requirement),
            HiddenRequirement::Unlocked(requirement) => Some(requirement),
            HiddenRequirement::NoRequirement => None,
        }
    }

    /// The colour the bottle is still hidden behind.
    pub fn get_locked_hidden_requirement(&self) -> (r: Option<BottleColor>)
        ensures
            r == (match self.requirement() {
                HiddenRequirement::Locked(c) => Some(c),
                _ => None,
            }),
    {
        match self.hidden_requirement {
            HiddenRequirement::Locked(requirement) => Some(requirement),
            _ => None,
        }
    }

    pub fn is_hidden_and_locked(&self) -> (r: bool)
        ensures
            r == self.spec_locked(),
    {
        match self.hidden_requirement {
            HiddenRequirement::Locked(_) => true,
            _ => false,
        }
    }

    /// A locked hidden bottle that shows no layers yet.
    pub fn is_hidden_and_empty(&self) -> (r: bool)
        ensures
            r == (self.spec_locked() && self.spec_count() == 0),
    {
        self.is_hidden_and_locked() && self.is_empty()
    }

    pub fn set_hidden_requirement(&mut self, requirement: HiddenRequirement)
        ensures
            final(self)@ == (old(self).layers(), requirement, old(self).spec_click()),
    {
        self.hidden_requirement = requirement;
    }

    /// A locked requirement becomes unlocked; any other stays as it is.
    pub fn unlock_hidden_requirement(&mut self)
        ensures
            final(self)@ == v_unlocked(old(self)@),
    {
        if let HiddenRequirement::Locked(requirement) = self.hidden_requirement {
            self.hidden_requirement = HiddenRequirement::Unlocked(requirement);
        }
    }

    /// An unlocked requirement becomes locked again; any other stays as it is.
    pub fn lock_hidden_requirement(&mut self)
        ensures
            final(self)@ == (old(self).layers(), match old(self).requirement() {
                HiddenRequirement::Unlocked(c) => HiddenRequirement::Locked(c),
                h => h,
            }, old(self).spec_click()),
    {
        if let HiddenRequirement::Unlocked(requirement) = self.hidden_requirement {
            self.hidden_requirement = HiddenRequirement::Locked(requirement);
        }
    }

    /// The layers, to change them in place.
    pub fn get_fills_mut(&mut self) -> (r: &mut Vec<Layer>)
        ensures
            r@ == old(self).layers(),
            final(self)@ == (final(r)@, old(self).requirement(), old(self).spec_click()),
    {
        &mut self.fills
    }

    /// Takes over the layers of `other`.
    pub fn set_fills_from_bottle(&mut self, other: &Bottle)
        ensures
            final(self)@ == (other.layers(), old(self).requirement(), old(self).spec_click()),
    {
        self.fills = copy_layers(&other.fills);
    }

    /// The colours of the layers, from the bottom up.
    pub fn get_fills(&self) -> (r: Vec<BottleColor>)
        ensures
            r@ == self.spec_colors(),
    {
        let mut out: Vec<BottleColor> = Vec::new();
        let mut i: usize = 0;
        while i < self.fills.len()
            invariant
                i <= self.fills.len(),
                out@ == colors_of(self.fills@.subrange(0, i as int)),
            decreases self.fills.len() - i,
        {
            out.push(self.fills[i].0);
            proof {
                assert(out@ =~= colors_of(self.fills@.subrange(0, i + 1)));
            }
            i = i + 1;
        }
        proof {
            assert(self.fills@.subrange(0, self.fills.len() as int) =~= self.fills@);
        }
        out
    }

    /// The run on top that would pour out: how many layers and their colour.
    pub fn get_top_fill(&self) -> (r: Option<(usize, BottleColor)>)
        ensures
            r is Some <==> self.spec_top_fill() is Some,
            r matches Some((a, c)) ==> self.spec_top_fill() == Some((a as nat, c)),
    {
        if self.is_hidden_and_locked() {
            return None;
        }
        let n = self.fills.len();
        if n == 0 {
            return None;
        }
        let (top_color, top_mystery) = self.fills[n - 1];
        if top_mystery {
            return Some((1, top_color));
        }
        let ghost below = self.fills@.drop_last();
        let mut amount: usize = 1;
        let mut j: usize = n - 1;
        while j > 0
            invariant
                j <= n - 1,
                n == self.fills@.len(),
                n >= 1,
                below == self.fills@.subrange(0, n - 1),
                amount >= 1,
                amount + j <= n,
                amount - 1 + same_below(self.fills@.subrange(0, j as int), top_color)
                    == same_below(below, top_color),
            ensures
                amount + j <= n,
                amount >= 1,
                amount - 1 == same_below(below, top_color),
            decreases j,
        {
            let (c, m) = self.fills[j - 1];
            proof {
                assert(self.fills@.subrange(0, j as int).drop_last() =~= self.fills@.subrange(
                    0,
                    j - 1,
                ));
            }
            if c == top_color && !m {
                amount = amount + 1;
                j = j - 1;
            } else {
                proof {
                    assert(self.fills@.subrange(0, j as int).last() == self.fills@[j - 1]);
                    assert(same_below(self.fills@.subrange(0, j as int), top_color) == 0);
                }
                break;
            }
        }
        proof {
            assert(self.fills@.drop_last() =~= self.fills@.subrange(0, n - 1));
            assert(self.fills@.last() == (top_color, top_mystery));
            assert(amount - 1 == same_below(below, top_color));
            assert(top_run(self.fills@) == 1 + same_below(self.fills@.drop_last(), top_color));
            assert(self.layers() == self.fills@);
        }
        Some((amount, top_color))
    }

    pub fn is_full(&self) -> (r: bool)
        ensures
            r == self.spec_full(),
    {
        self.fills.len() >= FULL_BOTTLE_COUNT
    }

    pub fn get_fill_count(&self) -> (r: usize)
        ensures
            r == self.spec_count(),
    {
        self.fills.len()
    }

    pub fn is_empty(&self) -> (r: bool)
        ensures
            r == (self.spec_count() == 0),
    {
        self.fills.len() == 0
    }

    pub fn is_solved(&self) -> (r: bool)
        ensures
            r == self.spec_solved(),
    {
        if self.is_hidden_and_locked() {
            return false;
        }
        if self.fills.len() != FULL_BOTTLE_COUNT {
            return false;
        }
        let first = self.fills[0].0;
        let mut i: usize = 0;
        while i < self.fills.len()
            invariant
                i <= self.fills.len(),
                self.fills.len() == FULL_BOTTLE_COUNT,
                first == self.fills@[0].0,
                forall|k: int|
                    0 <= k < i ==> #[trigger] self.fills@[k].0 == first && self.fills@[k].0
                        != BottleColor::Mystery,
            decreases self.fills.len() - i,
        {
            let c = self.fills[i].0;
            if !(c == first) {
                return false;
            }
            if let BottleColor::Mystery = c {
                return false;
            }
            i = i + 1;
        }
        true
    }

    /// The colour of a solved bottle.
    pub fn solved_color(&self) -> (r: Option<BottleColor>)
        ensures
            r == self.spec_solved_color(),
    {
        if self.is_solved() {
            Some(self.fills[0].0)
        } else {
            None
        }
    }

    /// Whether the top run of `other` can be poured into this bottle.
    pub fn can_fill_from(&self, other: &Bottle) -> (r: bool)
        ensures
            r == self.spec_can_fill_from(other),
    {
        if self.is_hidden_and_locked() || other.is_hidden_and_locked() {
            return false;
        }
        if self.is_full() || other.is_empty() {
            return false;
        }
        let (other_top_amount, other_top_color) = match other.get_top_fill() {
            Some((amount, color)) => (amount, color),
            None => {
                return false;
            },
        };
        if self.is_empty() {
            return true;
        }
        let self_top_color = self.fills[self.fills.len() - 1].0;
        if !(self_top_color == other_top_color) {
            return false;
        }
        if let BottleColor::Mystery = self_top_color {
            return false;
        }
        other_top_amount <= FULL_BOTTLE_COUNT - self.fills.len()
    }

    /// Pours the top run of `source` into this bottle.
    pub fn fill_from(&mut self, source: &mut Bottle)
        requires
            old(self).spec_can_fill_from(old(source)),
            old(self).spec_count() + top_run(old(source).layers()) <= FULL_BOTTLE_COUNT,
        ensures
            final(self)@ == v_poured_into(old(self)@, old(source)@),
            final(source)@ == v_poured_out(old(source)@),
    {
        let (amount, color) = match source.get_top_fill() {
            Some(t) => t,
            None => (0, BottleColor::Empty),
        };
        let ghost old_self = self.fills@;
        let ghost old_source = source.fills@;
        proof {
            lemma_top_run_bounds(old_source);
        }
        let mut k: usize = 0;
        while k < amount
            invariant
                k <= amount,
                amount == top_run(old_source),
                color == old_source.last().0,
                amount <= old_source.len(),
                self.fills@ == old_self + Seq::new(k as nat, |i: int| (color, false)),
                source.fills@ == old_source.subrange(0, old_source.len() - k),
                self.hidden_requirement == old(self).hidden_requirement,
                self.click_position == old(self).click_position,
                source.hidden_requirement == old(source).hidden_requirement,
                source.click_position == old(source).click_position,
            decreases amount - k,
        {
            self.fills.push((color, false));
            source.fills.pop();
            proof {
                assert(self.fills@ =~= old_self + Seq::new((k + 1) as nat, |i: int| (color, false)));
                assert(source.fills@ =~= old_source.subrange(0, old_source.len() - (k + 1)));
            }
            k = k + 1;
        }
    }

    /// Where to click to pick this bottle.
    pub fn click_position(&self) -> (r: &Option<Pos>)
        ensures
            *r == self.spec_click(),
    {
        &self.click_position
    }

    /// A bottle equal to this one.
    pub fn duplicate(&self) -> (r: Bottle)
        ensures
            r@ == self@,
    {
        Bottle {
            fills: copy_layers(&self.fills),
            hidden_requirement: self.hidden_requirement,
            click_position: self.click_position,
        }
    }

    /// Whether two bottles hold the same layers, hidden requirement and click
    /// position.
    pub fn same_as(&self, other: &Bottle) -> (r: bool)
        ensures
            r == (self@ == other@),
    {
        if !(self.hidden_requirement == other.hidden_requirement) {
            return false;
        }
        let same_click = match (self.click_position, other.click_position) {
            (None, None) => true,
            (Some(a), Some(b)) => a == b,
            _ => false,
        };
        if !same_click {
            return false;
        }
        if self.fills.len() != other.fills.len() {
            return false;
        }
        let mut i: usize = 0;
        while i < self.fills.len()
            invariant
                i <= self.fills.len(),
                self.fills.len() == other.fills.len(),
                forall|k: int| 0 <= k < i ==> self.fills@[k] == other.fills@[k],
            decreases self.fills.len() - i,
        {
            let (c1, m1) = self.fills[i];
            let (c2, m2) = other.fills[i];
            if !(c1 == c2) || m1 != m2 {
                return false;
            }
            i = i + 1;
        }
        proof {
            assert(self.fills@ =~= other.fills@);
        }
        true
    }
}

impl Default for Bottle {
    fn default() -> (r: Self)
        ensures
            r@ == (Seq::<Layer>::empty(), HiddenRequirement::NoRequirement, None::<Pos>),
    {
        Bottle { fills: Vec::new(), hidden_requirement: HiddenRequirement::NoRequirement, click_position: None }
    }
}

fn copy_layers(v: &Vec<Layer>) -> (r: Vec<Layer>)
    ensures
        r@ == v@,
{
    let mut out: Vec<Layer> = Vec::new();
    let mut i: usize = 0;
    while i < v.len()
        invariant
            i <= v.len(),
            out@ == v@.subrange(0, i as int),
        decreases v.len() - i,
    {
        out.push(v[i]);
        proof {
            assert(out@ =~= v@.subrange(0, i + 1));
        }
        i = i + 1;
    }
    proof {
        assert(out@ =~= v@);
    }
    out
}

/// The top run never counts more layers than the bottle holds.
pub proof fn lemma_top_run_bounds(fills: Seq<Layer>)
    ensures
        top_run(fills) <= fills.len(),
        fills.len() > 0 ==> top_run(fills) >= 1,
{
    if fills.len() > 0 && !fills.last().1 {
        lemma_same_below_bound(fills.drop_last(), fills.last().0);
    }
}

pub proof fn lemma_same_below_bound(fills: Seq<Layer>, c: BottleColor)
    ensures
        same_below(fills, c) <= fills.len(),
    decreases fills.len(),
{
    if fills.len() > 0 {
        lemma_same_below_bound(fills.drop_last(), c);
    }
}

} // verus!
