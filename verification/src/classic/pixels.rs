//! The pixel values of the classic game's colours, and how a sampled pixel is
//! read as a colour.
use vstd::prelude::*;

use crate::classic::bottle::BottleColor;
use crate::color::{color_distance_sq, spec_color_distance_sq, Bgr};

verus! {

/// The pixel of each colour of the classic game, in the table's order.
pub open spec fn color_pixels() -> Seq<(BottleColor, Bgr)> {
    seq![
        (BottleColor::Yellow, (0x20u8, 0xdfu8, 0xfbu8)),
        (BottleColor::Red, (0x24u8, 0x1au8, 0xdfu8)),
        (BottleColor::Green, (0x1eu8, 0xdeu8, 0x46u8)),
        (BottleColor::LightBlue, (0xfeu8, 0xf8u8, 0x2cu8)),
        (BottleColor::MediumBlue, (0xfbu8, 0xb7u8, 0x52u8)),
        (BottleColor::Blue, (0xf9u8, 0x4au8, 0x19u8)),
        (BottleColor::Purple, (0xd9u8, 0x00u8, 0x8cu8)),
        (BottleColor::Pink, (0xccu8, 0x12u8, 0xd2u8)),
        (BottleColor::Orange, (0x1cu8, 0x7cu8, 0xf3u8)),
        (BottleColor::Mystery, (0x36u8, 0x36u8, 0x36u8)),
    ]
}

/// The pixel of an empty layer, `#713d2c`.
pub open spec fn empty_pixel() -> Bgr {
    (0x2cu8, 0x3du8, 0x71u8)
}

/// Each channel of `pixel` lies within `tolerance` of the target's.
pub open spec fn within_tolerance(pixel: Bgr, target: Bgr, tolerance: u8) -> bool {
    &&& -tolerance <= pixel.0 - target.0 <= tolerance
    &&& -tolerance <= pixel.1 - target.1 <= tolerance
    &&& -tolerance <= pixel.2 - target.2 <= tolerance
}

fn channel_diff(a: u8, b: u8) -> (r: u8)
    ensures
        r as int == if a >= b {
            a - b
        } else {
            b - a
        },
{
    if a >= b {
        a - b
    } else {
        b - a
    }
}

/// Whether each channel of `pixel` lies within `tolerance` of the target's.
pub fn is_color_within_tolerance(pixel: &Bgr, target: &Bgr, tolerance: u8) -> (r: bool)
    ensures
        r == within_tolerance(*pixel, *target, tolerance),
{
    let b_diff = channel_diff(pixel.0, target.0);
    let g_diff = channel_diff(pixel.1, target.1);
    let r_diff = channel_diff(pixel.2, target.2);
    b_diff <= tolerance && g_diff <= tolerance && r_diff <= tolerance
}

fn color_pixel_table() -> (r: Vec<(BottleColor, Bgr)>)
    ensures
        r@ == color_pixels(),
{
    let v = vec![
        (BottleColor::Yellow, (0x20u8, 0xdfu8, 0xfbu8)),
        (BottleColor::Red, (0x24u8, 0x1au8, 0xdfu8)),
        (BottleColor::Green, (0x1eu8, 0xdeu8, 0x46u8)),
        (BottleColor::LightBlue, (0xfeu8, 0xf8u8, 0x2cu8)),
        (BottleColor::MediumBlue, (0xfbu8, 0xb7u8, 0x52u8)),
        (BottleColor::Blue, (0xf9u8, 0x4au8, 0x19u8)),
        (BottleColor::Purple, (0xd9u8, 0x00u8, 0x8cu8)),
        (BottleColor::Pink, (0xccu8, 0x12u8, 0xd2u8)),
        (BottleColor::Orange, (0x1cu8, 0x7cu8, 0xf3u8)),
        (BottleColor::Mystery, (0x36u8, 0x36u8, 0x36u8)),
    ];
    proof {
        assert(v@ =~= color_pixels());
    }
    v
}

/// The entry at `i` of the table is the first of those nearest to `pixel`.
pub open spec fn nearest_entry(pixel: Bgr, i: int) -> bool {
    let t = color_pixels();
    let d = spec_color_distance_sq(pixel, t[i].1);
    &&& 0 <= i < t.len()
    &&& forall|j: int|
        0 <= j < t.len() ==> {
            let dj = #[trigger] spec_color_distance_sq(pixel, t[j].1);
            &&& j < i ==> dj > d
            &&& j > i ==> dj >= d
        }
}

impl BottleColor {
    /// Whether the pixel shows an empty layer: within 30 of its pixel on each
    /// channel.
    pub fn is_empty_pixel(pixel: &Bgr) -> (r: bool)
        ensures
            r == within_tolerance(*pixel, empty_pixel(), 30),
    {
        let empty: Bgr = (0x2c, 0x3d, 0x71);
        is_color_within_tolerance(pixel, &empty, 30)
    }

    /// The colour a sampled pixel shows: none for an empty layer; otherwise
    /// the first of the table's colours nearest to it, when its squared
    /// distance is at most 2500.
    pub fn from_pixel_value(pixel: Bgr) -> (r: Option<Self>)
        ensures
            within_tolerance(pixel, empty_pixel(), 30) ==> r is None,
            !within_tolerance(pixel, empty_pixel(), 30) ==> exists|i: int|
                #[trigger] nearest_entry(pixel, i) && r == if spec_color_distance_sq(
                    pixel,
                    color_pixels()[i].1,
                ) <= 2500 {
                    Some(color_pixels()[i].0)
                } else {
                    None
                },
    {
        if Self::is_empty_pixel(&pixel) {
            return None;
        }
        let table = color_pixel_table();
        let mut best = table[0].0;
        let mut best_dist = color_distance_sq(&pixel, &table[0].1);
        let ghost mut at: int = 0;
        let mut i: usize = 1;
        while i < table.len()
            invariant
                table@ == color_pixels(),
                1 <= i <= table@.len(),
                0 <= at < i,
                best == table@[at].0,
                best_dist == spec_color_distance_sq(pixel, table@[at].1),
                forall|j: int|
                    0 <= j < i ==> {
                        let dj = #[trigger] spec_color_distance_sq(pixel, table@[j].1);
                        &&& j < at ==> dj > best_dist
                        &&& j > at ==> dj >= best_dist
                    },
            decreases table@.len() - i,
        {
            let dist = color_distance_sq(&pixel, &table[i].1);
            if dist < best_dist {
                best = table[i].0;
                best_dist = dist;
                proof {
                    at = i as int;
                }
            }
            i = i + 1;
        }
        proof {
            assert(nearest_entry(pixel, at));
        }
        if best_dist <= 2500 {
            Some(best)
        } else {
            None
        }
    }

    /// The pixel of a colour.
    pub fn to_pixel_value(self) -> (r: Bgr)
        ensures
            exists|i: int|
                0 <= i < color_pixels().len() && color_pixels()[i].0 == self && r
                    == color_pixels()[i].1,
    {
        let table = color_pixel_table();
        let mut i: usize = 0;
        while i < table.len()
            invariant
                table@ == color_pixels(),
                i <= table@.len(),
                forall|j: int| 0 <= j < i ==> table@[j].0 != self,
            decreases table@.len() - i,
        {
            if table[i].0 == self {
                return table[i].1;
            }
            i = i + 1;
        }
        proof {
            assert(table@[self_index(self)].0 == self);
        }
        table[0].1
    }
}

spec fn self_index(c: BottleColor) -> int {
    match c {
        BottleColor::Yellow => 0,
        BottleColor::Red => 1,
        BottleColor::Green => 2,
        BottleColor::LightBlue => 3,
        BottleColor::MediumBlue => 4,
        BottleColor::Blue => 5,
        BottleColor::Purple => 6,
        BottleColor::Pink => 7,
        BottleColor::Orange => 8,
        BottleColor::Mystery => 9,
    }
}

/// At most one entry of the table is the first nearest to a pixel.
proof fn lemma_nearest_unique(pixel: Bgr, i: int, j: int)
    requires
        nearest_entry(pixel, i),
        nearest_entry(pixel, j),
    ensures
        i == j,
{
    let t = color_pixels();
    let di = spec_color_distance_sq(pixel, t[i].1);
    let dj = spec_color_distance_sq(pixel, t[j].1);
    if i < j {
        assert(di > dj);
        assert(dj >= di);
    } else if j < i {
        assert(dj > di);
        assert(di >= dj);
    }
}

/// The colour `from_pixel_value` reads from a pixel.
pub open spec fn pixel_color(pixel: Bgr) -> Option<BottleColor> {
    if within_tolerance(pixel, empty_pixel(), 30) {
        None
    } else {
        let i = choose|i: int| nearest_entry(pixel, i);
        if spec_color_distance_sq(pixel, color_pixels()[i].1) <= 2500 {
            Some(color_pixels()[i].0)
        } else {
            None
        }
    }
}

/// `from_pixel_value` reads `pixel_color`.
pub(crate) fn read_pixel(pixel: Bgr) -> (r: Option<BottleColor>)
    ensures
        r == pixel_color(pixel),
{
    let r = BottleColor::from_pixel_value(pixel);
    proof {
        if !within_tolerance(pixel, empty_pixel(), 30) {
            let i = choose|i: int|
                #[trigger] nearest_entry(pixel, i) && r == if spec_color_distance_sq(
                    pixel,
                    color_pixels()[i].1,
                ) <= 2500 {
                    Some(color_pixels()[i].0)
                } else {
                    None
                };
            let k = choose|k: int| nearest_entry(pixel, k);
            lemma_nearest_unique(pixel, i, k);
        }
    }
    r
}

/// The pixel shows one of the game's colours: it is not an empty layer, and
/// some colour of the table lies within a squared distance of 2500.
pub open spec fn shows_color(p: Bgr) -> bool {
    &&& !within_tolerance(p, empty_pixel(), 30)
    &&& exists|i: int|
        0 <= i < color_pixels().len() && #[trigger] spec_color_distance_sq(p, color_pixels()[i].1)
            <= 2500
}

/// Some sampled layer of the bottle shows a colour; none is sampled where
/// the position lies outside the image.
pub open spec fn bottle_shows_color(samples: Seq<Option<Bgr>>) -> bool {
    exists|l: int| 0 <= l < samples.len() && (#[trigger] samples[l] matches Some(p) && shows_color(p))
}

/// How many bottles show a colour.
pub open spec fn fit_count(samples: Seq<Seq<Option<Bgr>>>) -> nat
    decreases samples.len(),
{
    if samples.len() == 0 {
        0
    } else {
        fit_count(samples.drop_last()) + if bottle_shows_color(samples.last()) {
            1nat
        } else {
            0nat
        }
    }
}

/// The samples of a layout, by view.
pub open spec fn samples_v(samples: Seq<Vec<Option<Bgr>>>) -> Seq<Seq<Option<Bgr>>> {
    samples.map_values(|v: Vec<Option<Bgr>>| v@)
}

fn reads_as_color(pixel: Bgr) -> (r: bool)
    ensures
        r == shows_color(pixel),
{
    let c = BottleColor::from_pixel_value(pixel);
    proof {
        if !within_tolerance(pixel, empty_pixel(), 30) {
            let i = choose|i: int|
                #[trigger] nearest_entry(pixel, i) && c == if spec_color_distance_sq(
                    pixel,
                    color_pixels()[i].1,
                ) <= 2500 {
                    Some(color_pixels()[i].0)
                } else {
                    None
                };
            if shows_color(pixel) {
                let j = choose|j: int|
                    0 <= j < color_pixels().len() && #[trigger] spec_color_distance_sq(
                        pixel,
                        color_pixels()[j].1,
                    ) <= 2500;
                assert(spec_color_distance_sq(pixel, color_pixels()[j].1) >= spec_color_distance_sq(
                    pixel,
                    color_pixels()[i].1,
                ));
            }
            if c is Some {
                assert(spec_color_distance_sq(pixel, color_pixels()[i].1) <= 2500);
            }
        }
    }
    c.is_some()
}

/// How well a layout fits the image: how many of its bottles show a colour
/// at one of their layers, given for each bottle the pixels sampled at its
/// layers, none where the position lies outside the image.
pub fn score_layout_fit(samples: &Vec<Vec<Option<Bgr>>>) -> (r: usize)
    ensures
        r == fit_count(samples_v(samples@)),
{
    let ghost all = samples_v(samples@);
    let mut score: usize = 0;
    let mut b: usize = 0;
    while b < samples.len()
        invariant
            all == samples_v(samples@),
            b <= samples@.len(),
            score == fit_count(all.subrange(0, b as int)),
            score <= b,
        decreases samples@.len() - b,
    {
        let bottle = &samples[b];
        let mut shows = false;
        let mut l: usize = 0;
        while l < bottle.len()
            invariant
                l <= bottle@.len(),
                shows == exists|k: int|
                    0 <= k < l && (#[trigger] bottle@[k] matches Some(p) && shows_color(p)),
            decreases bottle@.len() - l,
        {
            match bottle[l] {
                Some(pixel) => {
                    if reads_as_color(pixel) {
                        shows = true;
                        proof {
                            assert(bottle@[l as int] matches Some(p) && shows_color(p));
                        }
                    }
                },
                None => {},
            }
            l = l + 1;
        }
        proof {
            assert(all[b as int] == bottle@);
            assert(all.subrange(0, b + 1).drop_last() =~= all.subrange(0, b as int));
            assert(shows == bottle_shows_color(all[b as int]));
        }
        if shows {
            score = score + 1;
        }
        b = b + 1;
    }
    proof {
        assert(all.subrange(0, all.len() as int) =~= all);
    }
    score
}

/// The first layout with the highest score, which is the first layout when
/// none scores above zero.
pub fn best_layout_index(scores: &Vec<usize>) -> (r: usize)
    requires
        scores@.len() > 0,
    ensures
        r < scores@.len(),
        forall|j: int| 0 <= j < scores@.len() ==> scores@[j] <= scores@[r as int],
        forall|j: int| 0 <= j < r ==> scores@[j] < scores@[r as int],
{
    let mut best: usize = 0;
    let mut best_score: usize = 0;
    let mut i: usize = 0;
    while i < scores.len()
        invariant
            i <= scores@.len(),
            scores@.len() > 0,
            best < scores@.len(),
            i > 0 ==> best < i && best_score == scores@[best as int],
            i == 0 ==> best == 0 && best_score == 0,
            forall|j: int| 0 <= j < i ==> scores@[j] <= best_score,
            forall|j: int| 0 <= j < best ==> scores@[j] < best_score || best_score == 0,
            best_score == 0 ==> best == 0,
        decreases scores@.len() - i,
    {
        if scores[i] > best_score {
            best_score = scores[i];
            best = i;
        } else if i == 0 {
            best_score = scores[0];
        }
        i = i + 1;
    }
    best
}

} // verus!
