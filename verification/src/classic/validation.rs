//! Checks of what the detection read from a frame: how many bottles it found,
//! how many hold a layer, and whether any holds more than a bottle can, held
//! against what a layout is expected to show.
use vstd::prelude::*;

use crate::classic::bottle::{Bottle, BottleColor};
use crate::classic::pixels::{pixel_color, read_pixel};
use crate::color::Bgr;
use crate::text::{decimal, push_decimal, push_str};

verus! {

/// What the detection found.
#[derive(Debug, Clone)]
pub struct DetectionResult {
    pub is_valid: bool,
    pub bottle_count: usize,
    pub filled_bottles: usize,
    pub empty_bottles: usize,
    pub issues: Vec<String>,
}

/// What a layout is expected to show.
#[derive(Debug, Clone)]
pub struct ExpectedBottles {
    pub total_bottles: usize,
    pub min_filled_bottles: usize,
    pub max_filled_bottles: usize,
}

/// How many of the bottles hold a layer.
pub open spec fn filled_count(bs: Seq<Bottle>) -> nat
    decreases bs.len(),
{
    if bs.len() == 0 {
        0
    } else {
        filled_count(bs.drop_last()) + if bs.last().fills@.len() > 0 {
            1nat
        } else {
            0nat
        }
    }
}

/// The issue noted for bottle `idx` holding `count` layers.
pub open spec fn overfull_issue(idx: nat, count: nat) -> Seq<char> {
    "Bottle "@ + decimal(idx) + " has "@ + decimal(count) + " fills (max 4 expected)"@
}

/// The issues noted for the bottles holding more than four layers, in order.
pub open spec fn overfull_issues(bs: Seq<Bottle>) -> Seq<Seq<char>>
    decreases bs.len(),
{
    if bs.len() == 0 {
        Seq::empty()
    } else if bs.last().fills@.len() > 4 {
        overfull_issues(bs.drop_last()).push(overfull_issue((bs.len() - 1) as nat, bs.last().fills@.len()))
    } else {
        overfull_issues(bs.drop_last())
    }
}

/// The issue noted when no bottle holds a layer.
pub open spec fn no_filled_issue() -> Seq<char> {
    "No filled bottles detected - this seems unlikely"@
}

pub open spec fn strings_v(v: Seq<String>) -> Seq<Seq<char>> {
    v.map_values(|s: String| s@)
}

/// The checks of `bottles`: the counts, an issue for each bottle holding
/// more than four layers and one when there are bottles but none holds a
/// layer; the result is valid when there is no issue.
pub open spec fn checks(r: DetectionResult, bottles: Seq<Bottle>) -> bool {
    let none_filled = filled_count(bottles) == 0 && bottles.len() > 0;
    &&& r.bottle_count == bottles.len()
    &&& r.filled_bottles == filled_count(bottles)
    &&& r.empty_bottles == bottles.len() - filled_count(bottles)
    &&& strings_v(r.issues@) == overfull_issues(bottles) + if none_filled {
        seq![no_filled_issue()]
    } else {
        Seq::empty()
    }
    &&& r.is_valid == (overfull_issues(bottles).len() == 0 && !none_filled)
}

proof fn lemma_filled_bound(bs: Seq<Bottle>)
    ensures
        filled_count(bs) <= bs.len(),
    decreases bs.len(),
{
    if bs.len() > 0 {
        lemma_filled_bound(bs.drop_last());
    }
}

/// The colours read from a bottle's samples, in the order sampled: a layer
/// outside the frame, or whose pixel shows no colour, is left out.
pub open spec fn read_colors(samples: Seq<Option<Bgr>>) -> Seq<BottleColor>
    decreases samples.len(),
{
    if samples.len() == 0 {
        Seq::empty()
    } else {
        read_colors(samples.drop_last()) + match samples.last() {
            Some(p) => match pixel_color(p) {
                Some(c) => seq![c],
                None => Seq::empty(),
            },
            None => Seq::empty(),
        }
    }
}

/// Whether the bottles read from a frame look plausible: none holds more
/// than four layers, and together they hold at most two layers more than
/// four per bottle. The second holds whenever the first does.
pub fn validate_detected_bottles(bottles: &Vec<Bottle>) -> (r: bool)
    requires
        bottles@.len() * 4 + 2 <= usize::MAX,
    ensures
        r == forall|b: int| 0 <= b < bottles@.len() ==> (#[trigger] bottles@[b]).fills@.len() <= 4,
{
    let mut total_fills: usize = 0;
    let mut i: usize = 0;
    while i < bottles.len()
        invariant
            i <= bottles@.len(),
            bottles@.len() * 4 + 2 <= usize::MAX,
            total_fills <= i * 4,
            forall|b: int| 0 <= b < i ==> (#[trigger] bottles@[b]).fills@.len() <= 4,
        decreases bottles@.len() - i,
    {
        if bottles[i].get_fill_count() > 4 {
            return false;
        }
        total_fills = total_fills + bottles[i].get_fill_count();
        i = i + 1;
    }
    let max_expected_fills = bottles.len() * 4;
    total_fills <= max_expected_fills + 2
}

/// Helpers for checking detections in tests.
pub struct TestUtils;

impl TestUtils {
    /// The bottles read from the pixels sampled at each layer of each bottle
    /// of a layout, top layer first (`None` where the position lies outside
    /// the frame): each bottle holds the colours read, from the bottom up.
    pub fn detect_bottles_from_image(samples: &Vec<Vec<Option<Bgr>>>) -> (r: Vec<Bottle>)
        ensures
            r@.len() == samples@.len(),
            forall|b: int|
                0 <= b < samples@.len() ==> (#[trigger] r@[b]).fills@ == read_colors(
                    samples@[b]@,
                ).reverse(),
    {
        let mut out: Vec<Bottle> = Vec::new();
        let mut b: usize = 0;
        while b < samples.len()
            invariant
                b <= samples@.len(),
                out@.len() == b,
                forall|k: int|
                    0 <= k < b ==> (#[trigger] out@[k]).fills@ == read_colors(samples@[k]@).reverse(),
            decreases samples@.len() - b,
        {
            let layers = &samples[b];
            let mut colors: Vec<BottleColor> = Vec::new();
            let mut l: usize = 0;
            while l < layers.len()
                invariant
                    l <= layers@.len(),
                    colors@ == read_colors(layers@.subrange(0, l as int)),
                decreases layers@.len() - l,
            {
                proof {
                    let pre = layers@.subrange(0, l + 1);
                    assert(pre.drop_last() =~= layers@.subrange(0, l as int));
                    assert(pre.last() == layers@[l as int]);
                }
                match layers[l] {
                    Some(pixel) => match read_pixel(pixel) {
                        Some(c) => {
                            colors.push(c);
                        },
                        None => {},
                    },
                    None => {},
                }
                proof {
                    let pre = layers@.subrange(0, l + 1);
                    assert(colors@ =~= read_colors(pre));
                }
                l = l + 1;
            }
            proof {
                assert(layers@.subrange(0, layers@.len() as int) =~= layers@);
            }
            let mut fills: Vec<BottleColor> = Vec::new();
            let mut j: usize = colors.len();
            while j > 0
                invariant
                    j <= colors@.len(),
                    fills@ == colors@.subrange(j as int, colors@.len() as int).reverse(),
                decreases j,
            {
                j = j - 1;
                fills.push(colors[j]);
                proof {
                    assert(fills@ =~= colors@.subrange(j as int, colors@.len() as int).reverse());
                }
            }
            proof {
                assert(colors@.subrange(0, colors@.len() as int) =~= colors@);
            }
            out.push(Bottle::from_fills(fills));
            b = b + 1;
        }
        out
    }

    /// Counts what the detection found in `bottles` and notes its issues.
    pub fn validate_detection(bottles: &Vec<Bottle>) -> (r: DetectionResult)
        ensures
            checks(r, bottles@),
    {
        let mut filled: usize = 0;
        let mut empty: usize = 0;
        let mut overfull: bool = false;
        let mut issues: Vec<String> = Vec::new();
        let mut i: usize = 0;
        while i < bottles.len()
            invariant
                i <= bottles@.len(),
                filled == filled_count(bottles@.subrange(0, i as int)),
                empty == i - filled,
                strings_v(issues@) == overfull_issues(bottles@.subrange(0, i as int)),
                overfull == (overfull_issues(bottles@.subrange(0, i as int)).len() > 0),
            decreases bottles@.len() - i,
        {
            let ghost pre = bottles@.subrange(0, i + 1);
            proof {
                assert(pre.drop_last() =~= bottles@.subrange(0, i as int));
                assert(pre.last() == bottles@[i as int]);
                lemma_filled_bound(bottles@.subrange(0, i as int));
            }
            let bottle = &bottles[i];
            if bottle.is_empty() {
                empty = empty + 1;
            } else {
                filled = filled + 1;
            }
            let count = bottle.get_fill_count();
            if count > 4 {
                overfull = true;
                let mut issue = String::new();
                push_str(&mut issue, "Bottle ");
                push_decimal(&mut issue, i as u64);
                push_str(&mut issue, " has ");
                push_decimal(&mut issue, count as u64);
                push_str(&mut issue, " fills (max 4 expected)");
                let ghost before = issues@;
                issues.push(issue);
                proof {
                    assert(strings_v(issues@) =~= strings_v(before).push(overfull_issue(i as nat, count as nat)));
                }
            }
            i = i + 1;
        }
        proof {
            assert(bottles@.subrange(0, bottles@.len() as int) =~= bottles@);
        }
        let none_filled = filled == 0 && bottles.len() > 0;
        if none_filled {
            let mut issue = String::new();
            push_str(&mut issue, "No filled bottles detected - this seems unlikely");
            let ghost before = issues@;
            issues.push(issue);
            proof {
                assert(strings_v(issues@) =~= strings_v(before) + seq![no_filled_issue()]);
            }
        } else {
            proof {
                assert(strings_v(issues@) =~= strings_v(issues@) + Seq::<Seq<char>>::empty());
            }
        }
        DetectionResult {
            is_valid: !overfull && !none_filled,
            bottle_count: bottles.len(),
            filled_bottles: filled,
            empty_bottles: empty,
            issues,
        }
    }
}

impl ExpectedBottles {
    /// Ten bottles, eight to ten of them holding a layer.
    pub fn for_10_bottle_layout() -> (r: Self)
        ensures
            r.total_bottles == 10 && r.min_filled_bottles == 8 && r.max_filled_bottles == 10,
    {
        ExpectedBottles { total_bottles: 10, min_filled_bottles: 8, max_filled_bottles: 10 }
    }

    /// The layout of twelve positions shows eleven bottles, nine to eleven of
    /// them holding a layer.
    pub fn for_12_bottle_layout() -> (r: Self)
        ensures
            r.total_bottles == 11 && r.min_filled_bottles == 9 && r.max_filled_bottles == 11,
    {
        ExpectedBottles { total_bottles: 11, min_filled_bottles: 9, max_filled_bottles: 11 }
    }

    /// Whether a valid result found the expected number of bottles, with a
    /// number of filled ones in the expected range.
    pub fn validate(&self, result: &DetectionResult) -> (r: bool)
        ensures
            r == (result.is_valid && result.bottle_count == self.total_bottles
                && self.min_filled_bottles <= result.filled_bottles <= self.max_filled_bottles),
    {
        result.is_valid && result.bottle_count == self.total_bottles && result.filled_bottles
            >= self.min_filled_bottles && result.filled_bottles <= self.max_filled_bottles
    }
}

} // verus!
