//! Bottles of the classic game.
use vstd::prelude::*;

verus! {

/// How many layers a bottle holds.
pub const FULL_BOTTLE_COUNT: usize = 4;

/// The colours of the classic game.
#[derive(Debug, Clone, Copy, PartialEq, Eq, Structural, PartialOrd, Ord, Hash)]
pub enum BottleColor {
    Yellow,
    Red,
    Green,
    LightBlue,
    MediumBlue,
    Blue,
    Purple,
    Pink,
    Orange,
    Mystery,
}

/// The colours of the colour table, in its order.
pub open spec fn color_table() -> Seq<BottleColor> {
    seq![
        BottleColor::Yellow,
        BottleColor::Red,
        BottleColor::Green,
        BottleColor::LightBlue,
        BottleColor::MediumBlue,
        BottleColor::Blue,
        BottleColor::Purple,
        BottleColor::Pink,
        BottleColor::Orange,
        BottleColor::Mystery,
    ]
}

impl BottleColor {
    /// The colours of the colour table, `Mystery` last.
    pub fn values() -> (r: Vec<BottleColor>)
        ensures
            r@ == color_table(),
    {
        let v = vec![
            BottleColor::Yellow,
            BottleColor::Red,
            BottleColor::Green,
            BottleColor::LightBlue,
            BottleColor::MediumBlue,
            BottleColor::Blue,
            BottleColor::Purple,
            BottleColor::Pink,
            BottleColor::Orange,
            BottleColor::Mystery,
        ];
        proof {
            assert(v@ =~= color_table());
        }
        v
    }
}

/// How many layers on top of `fills` have the colour of the top layer.
pub open spec fn top_amount(fills: Seq<BottleColor>) -> nat
    decreases fills.len(),
{
    if fills.len() == 0 {
        0
    } else if fills.len() >= 2 && fills[fills.len() - 2] == fills.last() {
        1 + top_amount(fills.drop_last())
    } else {
        1
    }
}

/// The run on top of a bottle: how many layers and their colour.
pub open spec fn top_fill(fills: Seq<BottleColor>) -> Option<(nat, BottleColor)> {
    if fills.len() == 0 {
        None
    } else {
        Some((top_amount(fills), fills.last()))
    }
}

/// Four layers of one colour.
pub open spec fn solved(fills: Seq<BottleColor>) -> bool {
    fills.len() == FULL_BOTTLE_COUNT && forall|i: int| 0 <= i < fills.len() ==> #[trigger] fills[i]
        == fills[0]
}

/// The pouring rule, from `src` into `dst`: the destination has room, the
/// source is not empty, and the destination is empty or its top colour is
/// the source's and the whole top run fits.
pub open spec fn can_fill(dst: Seq<BottleColor>, src: Seq<BottleColor>) -> bool {
    &&& dst.len() < FULL_BOTTLE_COUNT
    &&& src.len() != 0
    &&& (dst.len() == 0 || (dst.last() == src.last() && dst.len() + top_amount(src)
        <= FULL_BOTTLE_COUNT))
}

pub proof fn lemma_top_amount_bounds(fills: Seq<BottleColor>)
    ensures
        top_amount(fills) <= fills.len(),
        fills.len() > 0 ==> top_amount(fills) >= 1,
    decreases fills.len(),
{
    if fills.len() > 0 {
        lemma_top_amount_bounds(fills.drop_last());
    }
}

/// A bottle; its layers are stored from the bottom (index 0) to the top.
#[derive(Debug, Clone, Hash, PartialEq, Eq)]
pub struct Bottle {
    pub fills: Vec<BottleColor>,
}

impl Bottle {
    pub fn from_fills(fills: Vec<BottleColor>) -> (r: Self)
        ensures
            r.fills@ == fills@,
    {
        Bottle { fills }
    }

    pub fn get_fills(&self) -> (r: &Vec<BottleColor>)
        ensures
            r@ == self.fills@,
    {
        &self.fills
    }

    /// The layers, to change them in place.
    pub fn get_fills_mut(&mut self) -> (r: &mut Vec<BottleColor>)
        ensures
            r@ == old(self).fills@,
            final(self).fills@ == final(r)@,
    {
        &mut self.fills
    }

    /// The run on top: how many layers and their colour.
    pub fn get_top_fill(&self) -> (r: Option<(usize, BottleColor)>)
        ensures
            r is Some <==> top_fill(self.fills@) is Some,
            r matches Some((a, c)) ==> top_fill(self.fills@) == Some((a as nat, c)),
    {
        let n = self.fills.len();
        if n == 0 {
            return None;
        }
        let top = self.fills[n - 1];
        let mut amount: usize = 1;
        let mut j: usize = n - 1;
        proof {
            assert(self.fills@.subrange(0, n as int) =~= self.fills@);
        }
        while j > 0
            invariant
                1 <= amount,
                j + amount == n,
                n == self.fills@.len(),
                top == self.fills@[n - 1],
                top_amount(self.fills@) == amount - 1 + top_amount(self.fills@.subrange(0, j + 1)),
                forall|k: int| j <= k < n ==> self.fills@[k] == top,
            ensures
                top_amount(self.fills@) == amount,
            decreases j,
        {
            let ghost pre = self.fills@.subrange(0, j + 1);
            proof {
                assert(pre.drop_last() =~= self.fills@.subrange(0, j as int));
                assert(pre.last() == top);
                assert(pre[pre.len() - 2] == self.fills@[j - 1]);
            }
            if self.fills[j - 1] == top {
                amount = amount + 1;
                j = j - 1;
            } else {
                break;
            }
        }
        proof {
            if j == 0 {
                assert(self.fills@.subrange(0, 1).len() == 1);
            }
        }
        Some((amount, top))
    }

    pub fn is_full(&self) -> (r: bool)
        ensures
            r == (self.fills@.len() >= FULL_BOTTLE_COUNT),
    {
        self.fills.len() >= FULL_BOTTLE_COUNT
    }

    pub fn get_fill_count(&self) -> (r: usize)
        ensures
            r == self.fills@.len(),
    {
        self.fills.len()
    }

    pub fn is_empty(&self) -> (r: bool)
        ensures
            r == (self.fills@.len() == 0),
    {
        self.fills.len() == 0
    }

    /// Four layers of one colour.
    pub fn is_solved(&self) -> (r: bool)
        ensures
            r == solved(self.fills@),
    {
        if self.fills.len() != FULL_BOTTLE_COUNT {
            return false;
        }
        let first = self.fills[0];
        let mut i: usize = 0;
        while i < self.fills.len()
            invariant
                i <= self.fills@.len(),
                first == self.fills@[0],
                forall|k: int| 0 <= k < i ==> #[trigger] self.fills@[k] == first,
            decreases self.fills@.len() - i,
        {
            if self.fills[i] != first {
                return false;
            }
            i = i + 1;
        }
        true
    }

    /// Whether the top run of `other` can be poured into this bottle.
    pub fn can_fill_from(&self, other: &Bottle) -> (r: bool)
        ensures
            r == can_fill(self.fills@, other.fills@),
    {
        if self.is_full() || other.is_empty() {
            return false;
        }
        let (other_top_amount, other_top_color) = match other.get_top_fill() {
            Some(t) => t,
            None => {
                return false;
            },
        };
        if self.is_empty() {
            return true;
        }
        let self_top_color = self.fills[self.fills.len() - 1];
        if self_top_color != other_top_color {
            return false;
        }
        other_top_amount <= FULL_BOTTLE_COUNT - self.fills.len()
    }

    /// Pours the top run of `source` into this bottle.
    pub fn fill_from(&mut self, source: &mut Bottle)
        requires
            can_fill(old(self).fills@, old(source).fills@),
            old(self).fills@.len() + top_amount(old(source).fills@) <= FULL_BOTTLE_COUNT,
        ensures
            final(self).fills@ == old(self).fills@ + Seq::new(
                top_amount(old(source).fills@),
                |i: int| old(source).fills@.last(),
            ),
            final(source).fills@ == old(source).fills@.subrange(
                0,
                old(source).fills@.len() - top_amount(old(source).fills@),
            ),
    {
        let (amount, color) = match source.get_top_fill() {
            Some(t) => t,
            None => (0, BottleColor::Mystery),
        };
        let ghost old_self = self.fills@;
        let ghost old_source = source.fills@;
        proof {
            lemma_top_amount_bounds(old_source);
        }
        let mut k: usize = 0;
        while k < amount
            invariant
                k <= amount,
                amount == top_amount(old_source),
                color == old_source.last(),
                amount <= old_source.len(),
                self.fills@ == old_self + Seq::new(k as nat, |i: int| color),
                source.fills@ == old_source.subrange(0, old_source.len() - k),
            decreases amount - k,
        {
            self.fills.push(color);
            source.fills.pop();
            proof {
                assert(self.fills@ =~= old_self + Seq::new((k + 1) as nat, |i: int| color));
                assert(source.fills@ =~= old_source.subrange(0, old_source.len() - (k + 1)));
            }
            k = k + 1;
        }
    }

    /// A bottle equal to this one.
    pub fn duplicate(&self) -> (r: Bottle)
        ensures
            r.fills@ == self.fills@,
    {
        let mut out: Vec<BottleColor> = Vec::new();
        let mut i: usize = 0;
        while i < self.fills.len()
            invariant
                i <= self.fills@.len(),
                out@ == self.fills@.subrange(0, i as int),
            decreases self.fills@.len() - i,
        {
            out.push(self.fills[i]);
            proof {
                assert(out@ =~= self.fills@.subrange(0, i + 1));
            }
            i = i + 1;
        }
        proof {
            assert(out@ =~= self.fills@);
        }
        Bottle { fills: out }
    }
}

impl Default for Bottle {
    fn default() -> (r: Self)
        ensures
            r.fills@.len() == 0,
    {
        Bottle { fills: Vec::new() }
    }
}

/// The two fixed arrangements of the classic game.
#[derive(Debug, Clone, Copy, PartialEq, Eq, Structural)]
pub enum BottleLayout {
    /// Two rows of five bottles.
    Standard10,
    /// Three rows of four bottles.
    Extended12,
}

impl BottleLayout {
    pub fn rows(&self) -> (r: usize)
        ensures
            r == (match *self {
                BottleLayout::Standard10 => 2usize,
                BottleLayout::Extended12 => 3usize,
            }),
    {
        match *self {
            BottleLayout::Standard10 => 2,
            BottleLayout::Extended12 => 3,
        }
    }

    pub fn cols(&self) -> (r: usize)
        ensures
            r == (match *self {
                BottleLayout::Standard10 => 5usize,
                BottleLayout::Extended12 => 4usize,
            }),
    {
        match *self {
            BottleLayout::Standard10 => 5,
            BottleLayout::Extended12 => 4,
        }
    }

    /// How many bottles the arrangement holds: rows times columns.
    pub fn total_bottles(&self) -> (r: usize)
        ensures
            r == (match *self {
                BottleLayout::Standard10 => 10usize,
                BottleLayout::Extended12 => 12usize,
            }),
    {
        self.rows() * self.cols()
    }
}

impl Default for BottleLayout {
    fn default() -> (r: Self)
        ensures
            r == BottleLayout::Standard10,
    {
        BottleLayout::Standard10
    }
}

} // verus!
