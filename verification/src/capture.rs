//! Records of levels captured for discovery: what was seen at a level's start,
//! what was resolved by its end, and the manifest that collects them.
use vstd::prelude::*;

use crate::bottle::{colors_of, requirement_color, v_count, v_locked, Bottle, BottleView};
use crate::color::BottleColor;
use crate::discovery::{count_total_mystery_colors, layer_total, total_mystery};
use crate::layout::{rows_bottle_count, BottleLayout};
use crate::notation::{bottles_to_sequence, sequence_text};
use crate::rules::state_v;
use crate::text::{decimal, push_char, push_decimal, push_str};

verus! {

/// One captured level.
#[derive(Debug)]
pub struct DiscoveryLevelCapture {
    pub id: u64,
    pub image_filename: String,
    pub expected_bottles: String,
    pub resolved_bottles: Option<String>,
    pub layout_name: String,
    pub bottle_count: usize,
    pub mystery_count_at_start: usize,
    pub captured_at_ms: u64,
}

/// All captured levels.
#[derive(Debug)]
pub struct DiscoveryCaptureManifest {
    pub levels: Vec<DiscoveryLevelCapture>,
}

impl Default for DiscoveryCaptureManifest {
    fn default() -> (r: Self)
        ensures
            r.levels@.len() == 0,
    {
        DiscoveryCaptureManifest { levels: Vec::new() }
    }
}

/// A level being captured.
#[derive(Debug)]
pub struct DiscoveryCaptureContext {
    pub level: DiscoveryLevelCapture,
}

/// The name of the image of a captured level.
pub open spec fn capture_image_name(id: u64) -> Seq<char> {
    "discovery-level-"@ + decimal(id as nat) + ".png"@
}

/// A new capture of a level: its image name from its number, the bottles seen
/// at its start in letters, the layout's name and size, and how many mystery
/// layers the bottles hold.
pub fn new_discovery_capture(
    capture_id: u64,
    captured_at_ms: u64,
    layout: &BottleLayout,
    bottles: &Vec<Bottle>,
) -> (r: DiscoveryCaptureContext)
    requires
        layer_total(state_v(bottles@)) <= usize::MAX,
    ensures
        r.level.id == capture_id,
        r.level.image_filename@ == capture_image_name(capture_id),
        r.level.expected_bottles@ == sequence_text(state_v(bottles@)),
        r.level.resolved_bottles is None,
        r.level.layout_name@ == layout@.0,
        r.level.bottle_count == rows_bottle_count(layout@.3),
        r.level.mystery_count_at_start == total_mystery(state_v(bottles@)),
        r.level.captured_at_ms == captured_at_ms,
{
    let mut image_filename = String::new();
    push_str(&mut image_filename, "discovery-level-");
    push_decimal(&mut image_filename, capture_id);
    push_str(&mut image_filename, ".png");
    proof {
        assert(image_filename@ =~= capture_image_name(capture_id));
    }
    let mut layout_name = String::new();
    push_str(&mut layout_name, layout.friendly_name());
    proof {
        assert(layout_name@ =~= layout@.0);
    }
    DiscoveryCaptureContext {
        level: DiscoveryLevelCapture {
            id: capture_id,
            image_filename,
            expected_bottles: bottles_to_sequence(bottles),
            resolved_bottles: None,
            layout_name,
            bottle_count: layout.bottle_count(),
            mystery_count_at_start: count_total_mystery_colors(bottles),
            captured_at_ms,
        },
    }
}

/// The largest number of the captured levels.
pub open spec fn max_id(levels: Seq<DiscoveryLevelCapture>) -> nat
    decreases levels.len(),
{
    if levels.len() == 0 {
        0
    } else {
        let m = max_id(levels.drop_last());
        if levels.last().id > m {
            levels.last().id as nat
        } else {
            m
        }
    }
}

/// The number for the next captured level: one more than the largest so far,
/// staying at the largest `u64`.
pub fn next_discovery_capture_id(manifest: &DiscoveryCaptureManifest) -> (r: u64)
    ensures
        r == if max_id(manifest.levels@) < u64::MAX {
            max_id(manifest.levels@) + 1
        } else {
            u64::MAX as nat
        },
{
    let mut best: u64 = 0;
    let mut i: usize = 0;
    while i < manifest.levels.len()
        invariant
            i <= manifest.levels@.len(),
            best == max_id(manifest.levels@.subrange(0, i as int)),
        decreases manifest.levels@.len() - i,
    {
        proof {
            assert(manifest.levels@.subrange(0, i + 1).drop_last() =~= manifest.levels@.subrange(
                0,
                i as int,
            ));
        }
        if manifest.levels[i].id > best {
            best = manifest.levels[i].id;
        }
        i = i + 1;
    }
    proof {
        assert(manifest.levels@.subrange(0, manifest.levels@.len() as int) =~= manifest.levels@);
    }
    best.saturating_add(1)
}

impl DiscoveryCaptureContext {
    /// Records the bottles resolved by the level's end, in letters.
    pub fn set_resolved_bottles(&mut self, bottles: &Vec<Bottle>)
        ensures
            final(self).level.resolved_bottles matches Some(t) && t@ == sequence_text(
                state_v(bottles@),
            ),
            final(self).level.id == old(self).level.id,
            final(self).level.image_filename == old(self).level.image_filename,
            final(self).level.expected_bottles == old(self).level.expected_bottles,
            final(self).level.layout_name == old(self).level.layout_name,
            final(self).level.bottle_count == old(self).level.bottle_count,
            final(self).level.mystery_count_at_start == old(self).level.mystery_count_at_start,
            final(self).level.captured_at_ms == old(self).level.captured_at_ms,
    {
        self.level.resolved_bottles = Some(bottles_to_sequence(bottles));
    }

    /// Enters the captured level into the manifest: it replaces the entry with
    /// the same bottles at the start, or is added; entries are then ordered by
    /// number, entries with equal numbers keeping their order.
    pub fn finalize(self, manifest: &mut DiscoveryCaptureManifest)
        ensures
            final(manifest).levels@.to_multiset() == merged_levels(
                old(manifest).levels@,
                self.level,
            ).to_multiset(),
            forall|i: int, j: int|
                0 <= i < j < final(manifest).levels@.len() ==> (#[trigger] final(manifest).levels@[i]).id <= (#[trigger] final(manifest).levels@[j]).id,
    {
        upsert_discovery_capture(manifest, self.level);
    }
}

/// The first entry with the same bottles at the start.
pub open spec fn same_start_index(levels: Seq<DiscoveryLevelCapture>, expected: Seq<char>) -> Option<
    int,
>
    decreases levels.len(),
{
    if levels.len() == 0 {
        None
    } else if levels[0].expected_bottles@ == expected {
        Some(0)
    } else {
        match same_start_index(levels.drop_first(), expected) {
            Some(k) => Some(k + 1),
            None => None,
        }
    }
}

/// The entries with the capture entered: in place of the first entry with the
/// same bottles at the start, or at the end.
pub open spec fn merged_levels(levels: Seq<DiscoveryLevelCapture>, capture: DiscoveryLevelCapture) -> Seq<
    DiscoveryLevelCapture,
> {
    match same_start_index(levels, capture.expected_bottles@) {
        Some(k) => levels.update(k, capture),
        None => levels.push(capture),
    }
}

fn same_text(a: &String, b: &String) -> (r: bool)
    ensures
        r == (a@ == b@),
{
    let n = a.as_str().unicode_len();
    let m = b.as_str().unicode_len();
    if n != m {
        return false;
    }
    let mut i: usize = 0;
    while i < n
        invariant
            n == a@.len(),
            m == b@.len(),
            n == m,
            i <= n,
            forall|k: int| 0 <= k < i ==> a@[k] == b@[k],
        decreases n - i,
    {
        if a.as_str().get_char(i) != b.as_str().get_char(i) {
            return false;
        }
        i = i + 1;
    }
    proof {
        assert(a@ =~= b@);
    }
    true
}

/// Enters `capture` into the manifest, as `finalize` says.
fn upsert_discovery_capture(manifest: &mut DiscoveryCaptureManifest, capture: DiscoveryLevelCapture)
    ensures
        final(manifest).levels@.to_multiset() == merged_levels(
            old(manifest).levels@,
            capture,
        ).to_multiset(),
        forall|i: int, j: int|
            0 <= i < j < final(manifest).levels@.len() ==> (#[trigger] final(manifest).levels@[i]).id <= (#[trigger] final(manifest).levels@[j]).id,
{
    let ghost levels = manifest.levels@;
    let mut i: usize = 0;
    let mut found: Option<usize> = None;
    proof {
        assert(levels.subrange(0, levels.len() as int) =~= levels);
    }
    while i < manifest.levels.len()
        invariant_except_break
            found is None,
        invariant
            i <= manifest.levels@.len(),
            manifest.levels@ == levels,
            same_start_index(levels, capture.expected_bottles@) == match same_start_index(
                levels.subrange(i as int, levels.len() as int),
                capture.expected_bottles@,
            ) {
                Some(k) => Some(k + i),
                None => None::<int>,
            },
        ensures
            manifest.levels@ == levels,
            found matches Some(k) ==> same_start_index(levels, capture.expected_bottles@) == Some(
                k as int,
            ) && k < levels.len(),
            found is None ==> same_start_index(levels, capture.expected_bottles@) is None,
        decreases manifest.levels@.len() - i,
    {
        let ghost rest = levels.subrange(i as int, levels.len() as int);
        proof {
            assert(rest.drop_first() =~= levels.subrange(i + 1, levels.len() as int));
            assert(rest[0] == levels[i as int]);
        }
        if same_text(&manifest.levels[i].expected_bottles, &capture.expected_bottles) {
            found = Some(i);
            break;
        }
        i = i + 1;
    }
    proof {
        if found is None && i >= levels.len() {
            assert(levels.subrange(i as int, levels.len() as int) =~= Seq::<
                DiscoveryLevelCapture,
            >::empty());
        }
    }
    let mut levels_vec: Vec<DiscoveryLevelCapture> = Vec::new();
    std::mem::swap(&mut levels_vec, &mut manifest.levels);
    match found {
        Some(k) => {
            levels_vec.set(k, capture);
        },
        None => {
            levels_vec.push(capture);
        },
    }
    let sorted = sort_levels_by_id(levels_vec);
    manifest.levels = sorted;
}

/// The entries ordered by number; entries with equal numbers keep their order.
fn sort_levels_by_id(levels: Vec<DiscoveryLevelCapture>) -> (r: Vec<DiscoveryLevelCapture>)
    ensures
        r@.to_multiset() == levels@.to_multiset(),
        forall|i: int, j: int| 0 <= i < j < r@.len() ==> (#[trigger] r@[i]).id <= (#[trigger] r@[j]).id,
{
    let ghost orig = levels@;
    let mut input = levels;
    let mut out: Vec<DiscoveryLevelCapture> = Vec::new();
    let mut taken: usize = 0;
    assert(orig.len() == input.len());
    proof {
        assert(out@ =~= orig.subrange(0, 0));
    }
    while input.len() > 0
        invariant
            taken + input@.len() == orig.len(),
            orig.len() <= usize::MAX,
            input@ == orig.subrange(taken as int, orig.len() as int),
            out@.to_multiset() == orig.subrange(0, taken as int).to_multiset(),
            out@.len() == taken,
            forall|i: int, j: int| 0 <= i < j < out@.len() ==> (#[trigger] out@[i]).id <= (#[trigger] out@[j]).id,
        decreases input@.len(),
    {
        let item = input.remove(0);
        proof {
            assert(item == orig[taken as int]);
        }
        let mut pos: usize = out.len();
        while pos > 0
            invariant
                pos <= out@.len(),
                forall|q: int| pos <= q < out@.len() ==> (#[trigger] out@[q]).id > item.id,
            ensures
                pos <= out@.len(),
                forall|q: int| pos <= q < out@.len() ==> (#[trigger] out@[q]).id > item.id,
                pos > 0 ==> out@[pos - 1].id <= item.id,
            decreases pos,
        {
            if out[pos - 1].id <= item.id {
                break;
            }
            pos = pos - 1;
        }
        let ghost before = out@;
        out.insert(pos, item);
        proof {
            vstd::seq_lib::to_multiset_insert(before, pos as int, item);
            assert(orig.subrange(0, taken + 1) =~= orig.subrange(0, taken as int).push(item));
            vstd::seq_lib::to_multiset_build(orig.subrange(0, taken as int), item);
            assert(input@ =~= orig.subrange(taken + 1, orig.len() as int));
            assert forall|i: int, j: int| 0 <= i < j < out@.len() implies (#[trigger] out@[i]).id
                <= (#[trigger] out@[j]).id by {
                if i < pos && j > pos {
                    assert(out@[i] == before[i]);
                    assert(out@[j] == before[j - 1]);
                } else if i < pos && j == pos {
                    assert(out@[i] == before[i]);
                    if i < pos - 1 {
                        assert(before[i].id <= before[pos - 1].id);
                    }
                } else if i == pos {
                    assert(out@[j] == before[j - 1]);
                } else if i > pos {
                    assert(out@[i] == before[i - 1]);
                    assert(out@[j] == before[j - 1]);
                } else {
                    assert(out@[i] == before[i]);
                    assert(out@[j] == before[j]);
                }
            }
        }
        taken = taken + 1;
    }
    proof {
        assert(orig.subrange(0, taken as int) =~= orig);
    }
    out
}

/// A hidden bottle that shows nothing yet.
pub open spec fn hidden_and_empty(v: BottleView) -> bool {
    v_locked(v) && v_count(v) == 0
}

/// What a bottle at the level's start and the same bottle resolved at its end
/// must agree on: where neither is a hidden bottle showing nothing, every
/// layer known at the start is the resolved one; both wait for the same
/// colour; a bottle with a hidden requirement shows nothing at the start; and
/// not both are hidden bottles showing nothing.
pub open spec fn bottle_pair_valid(initial: BottleView, resolved: BottleView) -> bool {
    let a = colors_of(initial.0);
    let b = colors_of(resolved.0);
    &&& (!hidden_and_empty(initial) && !hidden_and_empty(resolved)) ==> forall|j: int|
        0 <= j < a.len() && j < b.len() ==> #[trigger] a[j] == BottleColor::Mystery || a[j] == b[j]
    &&& requirement_color(initial.1) == requirement_color(resolved.1)
    &&& !(requirement_color(initial.1) is Some && v_count(initial) != 0)
    &&& !(hidden_and_empty(initial) && hidden_and_empty(resolved))
}

/// A level whose bottles fit, bottle by bottle, as `is_level_valid` accepts
/// them, has each initial bottle and its resolved bottle wait for the same
/// hidden colour, or both for none; so a bottle that waits for different
/// colours at the start and at the end makes the level invalid.
pub proof fn lemma_valid_level_keeps_requirements(initial: Seq<BottleView>, resolved: Seq<BottleView>)
    ensures
        (initial.len() == resolved.len() && forall|i: int|
            0 <= i < initial.len() ==> bottle_pair_valid(#[trigger] initial[i], resolved[i])) ==> forall|
            i: int,
        |
            0 <= i < initial.len() ==> requirement_color((#[trigger] initial[i]).1) == requirement_color(
                resolved[i].1,
            ),
        (exists|i: int|
            0 <= i < initial.len() && i < resolved.len() && requirement_color((#[trigger] initial[i]).1)
                != requirement_color(resolved[i].1)) ==> !(initial.len() == resolved.len() && forall|i: int|
            0 <= i < initial.len() ==> bottle_pair_valid(#[trigger] initial[i], resolved[i])),
        (initial.len() == resolved.len() && forall|i: int|
            0 <= i < initial.len() ==> bottle_pair_valid(#[trigger] initial[i], resolved[i])) ==> forall|
            i: int,
            j: int,
        |
            0 <= i < initial.len() && !hidden_and_empty(initial[i]) && !hidden_and_empty(resolved[i]) && 0
                <= j < initial[i].0.len() && j < resolved[i].0.len() && (#[trigger] initial[i].0[j]).0
                != BottleColor::Mystery ==> initial[i].0[j].0 == resolved[i].0[j].0,
{
    assert forall|i: int, j: int|
        (initial.len() == resolved.len() && forall|i: int|
            0 <= i < initial.len() ==> bottle_pair_valid(#[trigger] initial[i], resolved[i])) && 0 <= i
            < initial.len() && !hidden_and_empty(initial[i]) && !hidden_and_empty(resolved[i]) && 0 <= j
            < initial[i].0.len() && j < resolved[i].0.len() && (#[trigger] initial[i].0[j]).0
            != BottleColor::Mystery implies initial[i].0[j].0 == resolved[i].0[j].0 by {
        assert(bottle_pair_valid(initial[i], resolved[i]));
        assert(colors_of(initial[i].0)[j] == initial[i].0[j].0);
        assert(colors_of(resolved[i].0)[j] == resolved[i].0[j].0);
    }
}

fn layers_agree(initial: &Bottle, resolved: &Bottle) -> (r: bool)
    ensures
        r == forall|j: int|
            0 <= j < colors_of(initial@.0).len() && j < colors_of(resolved@.0).len()
                ==> #[trigger] colors_of(initial@.0)[j] == BottleColor::Mystery || colors_of(
                initial@.0,
            )[j] == colors_of(resolved@.0)[j],
{
    let a = initial.get_fills();
    let b = resolved.get_fills();
    let mut j: usize = 0;
    while j < a.len() && j < b.len()
        invariant
            j <= a@.len(),
            a@ == colors_of(initial@.0),
            b@ == colors_of(resolved@.0),
            forall|k: int| 0 <= k < j && k < b@.len() ==> #[trigger] a@[k] == BottleColor::Mystery || a@[k] == b@[k],
        decreases a@.len() - j,
    {
        let x = a[j];
        if !(x == BottleColor::Mystery) && !(x == b[j]) {
            return false;
        }
        j = j + 1;
    }
    true
}

/// Whether the bottles resolved by a level's end fit those seen at its start.
pub fn is_level_valid(initial: &Vec<Bottle>, resolved: &Vec<Bottle>) -> (r: bool)
    ensures
        r == (initial@.len() == resolved@.len() && forall|i: int|
            0 <= i < initial@.len() ==> bottle_pair_valid(
                (#[trigger] initial@[i])@,
                resolved@[i]@,
            )),
{
    if initial.len() != resolved.len() {
        return false;
    }
    let mut i: usize = 0;
    while i < initial.len()
        invariant
            i <= initial@.len(),
            initial@.len() == resolved@.len(),
            forall|k: int| 0 <= k < i ==> bottle_pair_valid((#[trigger] initial@[k])@, resolved@[k]@),
        decreases initial@.len() - i,
    {
        let a = &initial[i];
        let b = &resolved[i];
        let a_hidden_empty = a.is_hidden_and_empty();
        let b_hidden_empty = b.is_hidden_and_empty();
        if !a_hidden_empty && !b_hidden_empty {
            if !layers_agree(a, b) {
                return false;
            }
        }
        if !(a.hidden_requirement() == b.hidden_requirement()) {
            return false;
        }
        if a.hidden_requirement().is_some() && !a.is_empty() {
            return false;
        }
        if a_hidden_empty && b_hidden_empty {
            return false;
        }
        i = i + 1;
    }
    true
}

/// The window's pixel for a frame pixel with these red, green and blue
/// channels: `0x00RRGGBB`.
pub open spec fn window_pixel(r: u8, g: u8, b: u8) -> u32 {
    (r * 65536 + g * 256 + b) as u32
}

/// The window's pixels for a frame given as RGBA bytes, four per pixel; the
/// alpha channel is dropped, and so are bytes after the last whole pixel.
pub fn rgba_to_window_pixels(bytes: &Vec<u8>) -> (r: Vec<u32>)
    ensures
        r@.len() == bytes@.len() / 4,
        forall|i: int|
            0 <= i < r@.len() ==> #[trigger] r@[i] == window_pixel(
                bytes@[4 * i],
                bytes@[4 * i + 1],
                bytes@[4 * i + 2],
            ),
{
    let n = bytes.len() / 4;
    let mut pixels: Vec<u32> = Vec::new();
    let mut i: usize = 0;
    while i < n
        invariant
            n == bytes@.len() / 4,
            i <= n,
            pixels@.len() == i,
            forall|k: int|
                0 <= k < i ==> #[trigger] pixels@[k] == window_pixel(
                    bytes@[4 * k],
                    bytes@[4 * k + 1],
                    bytes@[4 * k + 2],
                ),
        decreases n - i,
    {
        proof {
            assert(bytes@.len() == bytes.len());
            assert(4 * i + 3 < bytes@.len()) by (nonlinear_arith)
                requires
                    i < n,
                    n == bytes@.len() / 4,
            ;
        }
        let base = 4 * i;
        let r = bytes[base] as u32;
        let g = bytes[base + 1] as u32;
        let b = bytes[base + 2] as u32;
        pixels.push(r * 65536 + g * 256 + b);
        i = i + 1;
    }
    pixels
}

} // verus!
