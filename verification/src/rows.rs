//! Grouping the bounding boxes of the bottles seen on the board into rows:
//! two boxes that overlap vertically lie in the same row, and so do boxes
//! linked by a chain of such overlaps.
use vstd::prelude::*;

use crate::layout::pattern_total;

verus! {

/// A bounding box: its left column `x`, its top row `y`, and its size.
#[derive(Debug, Clone, Copy, PartialEq, Eq, Structural)]
pub struct BoundingBox {
    pub x: i32,
    pub y: i32,
    pub width: i32,
    pub height: i32,
}

/// The box's bottom row, `y + height`, fits the machine's integers.
pub open spec fn box_ok(b: BoundingBox) -> bool {
    i32::MIN <= b.y + b.height <= i32::MAX
}

pub open spec fn boxes_ok(bs: Seq<BoundingBox>) -> bool {
    forall|i: int| 0 <= i < bs.len() ==> #[trigger] box_ok(bs[i])
}

/// The rows spanned by the two boxes, top to bottom inclusive, meet.
pub open spec fn overlap(a: BoundingBox, b: BoundingBox) -> bool {
    !(a.y + a.height < b.y || b.y + b.height < a.y)
}

/// Whether the rows spanned by the two boxes meet.
pub fn boxes_overlap_vertically(left: &BoundingBox, right: &BoundingBox) -> (r: bool)
    requires
        box_ok(*left),
        box_ok(*right),
    ensures
        r == overlap(*left, *right),
{
    let left_top = left.y;
    let left_bottom = left.y + left.height;
    let right_top = right.y;
    let right_bottom = right.y + right.height;
    !(left_bottom < right_top || right_bottom < left_top)
}

/// The box at position `p` of the list overlaps a box listed before it.
pub open spec fn linked_before(bs: Seq<BoundingBox>, o: Seq<usize>, p: int) -> bool {
    exists|q: int| 0 <= q < p && #[trigger] overlap(bs[o[p] as int], bs[o[q] as int])
}

/// Every box of the list but the first overlaps one listed before it, so
/// that overlaps chain all of them together.
pub open spec fn spanning(bs: Seq<BoundingBox>, o: Seq<usize>) -> bool {
    forall|p: int| 0 < p < o.len() ==> #[trigger] linked_before(bs, o, p)
}

/// The index lies in one of the groups.
pub open spec fn placed(cs: Seq<Seq<usize>>, i: usize) -> bool {
    exists|k: int| 0 <= k < cs.len() && #[trigger] cs[k].contains(i)
}

/// Each of the indices below `n` lies in exactly one of the groups, once, and
/// no group is empty.
pub open spec fn partition(cs: Seq<Seq<usize>>, n: int) -> bool {
    &&& forall|k: int| 0 <= k < cs.len() ==> #[trigger] cs[k].len() > 0 && cs[k].no_duplicates()
    &&& forall|k: int, p: int| 0 <= k < cs.len() && 0 <= p < cs[k].len() ==> #[trigger] cs[k][p] < n
    &&& forall|i: usize| i < n ==> #[trigger] placed(cs, i)
    &&& forall|k1: int, k2: int, i: usize|
        0 <= k1 < cs.len() && 0 <= k2 < cs.len() && #[trigger] cs[k1].contains(i) && #[trigger] cs[k2].contains(i)
            ==> k1 == k2
}

/// No box of one group overlaps a box of another.
pub open spec fn closed(bs: Seq<BoundingBox>, cs: Seq<Seq<usize>>) -> bool {
    forall|k1: int, k2: int, i: usize, j: usize|
        0 <= k1 < cs.len() && 0 <= k2 < cs.len() && k1 != k2 && #[trigger] cs[k1].contains(i)
            && #[trigger] cs[k2].contains(j) ==> !overlap(bs[i as int], bs[j as int])
}

/// The groups are the sets of boxes linked by chains of overlaps: they
/// partition the boxes, no box overlaps one of another group, and the boxes
/// of each group are listed so that each overlaps one listed before it. Each
/// group starts with its smallest index, and the groups come in the order of
/// those indices.
pub open spec fn components_spec(bs: Seq<BoundingBox>, cs: Seq<Seq<usize>>) -> bool {
    &&& partition(cs, bs.len() as int)
    &&& closed(bs, cs)
    &&& forall|k: int| 0 <= k < cs.len() ==> #[trigger] spanning(bs, cs[k])
    &&& forall|k: int, p: int| 0 <= k < cs.len() && 0 <= p < cs[k].len() ==> cs[k][0] <= #[trigger] cs[k][p]
    &&& forall|k1: int, k2: int| 0 <= k1 < k2 < cs.len() ==> #[trigger] cs[k1][0] < #[trigger] cs[k2][0]
}

/// The contents of a list of lists.
pub open spec fn lists_v(r: Seq<Vec<usize>>) -> Seq<Seq<usize>> {
    r.map_values(|v: Vec<usize>| v@)
}

/// What holds of the groups found so far, with `owner` giving for each box
/// the group it was put in, the one being built when it equals `cs.len()`,
/// and -1 when the box was not reached yet.
spec fn groups_inv(bs: Seq<BoundingBox>, cs: Seq<Seq<usize>>, owner: Seq<int>) -> bool {
    &&& owner.len() == bs.len()
    &&& forall|k: int| 0 <= k < cs.len() ==> #[trigger] cs[k].len() > 0 && cs[k].no_duplicates()
    &&& forall|k: int, p: int|
        0 <= k < cs.len() && 0 <= p < cs[k].len() ==> #[trigger] cs[k][p] < bs.len() && owner[cs[k][p] as int] == k
    &&& forall|i: int|
        0 <= i < bs.len() && 0 <= #[trigger] owner[i] < cs.len() ==> cs[owner[i]].contains(i as usize)
    &&& forall|k: int| 0 <= k < cs.len() ==> #[trigger] spanning(bs, cs[k])
    &&& forall|k: int, p: int, j: int|
        0 <= k < cs.len() && 0 <= p < cs[k].len() && 0 <= j < bs.len() && #[trigger] overlap(
            bs[cs[k][p] as int],
            bs[j],
        ) ==> 0 <= owner[j] <= k
    &&& forall|k: int, p: int| 0 <= k < cs.len() && 0 <= p < cs[k].len() ==> cs[k][0] <= #[trigger] cs[k][p]
    &&& forall|k1: int, k2: int| 0 <= k1 < k2 < cs.len() ==> #[trigger] cs[k1][0] < #[trigger] cs[k2][0]
}

proof fn lemma_groups_done(bs: Seq<BoundingBox>, cs: Seq<Seq<usize>>, owner: Seq<int>)
    requires
        groups_inv(bs, cs, owner),
        forall|i: int| 0 <= i < bs.len() ==> 0 <= #[trigger] owner[i] < cs.len(),
    ensures
        components_spec(bs, cs),
{
    assert forall|i: usize| i < bs.len() implies #[trigger] placed(cs, i) by {
        assert(0 <= owner[i as int] < cs.len());
        assert(cs[owner[i as int]].contains(i));
    }
    assert forall|k1: int, k2: int, i: usize|
        0 <= k1 < cs.len() && 0 <= k2 < cs.len() && #[trigger] cs[k1].contains(i)
            && #[trigger] cs[k2].contains(i) implies k1 == k2 by {
        let p1 = choose|p: int| 0 <= p < cs[k1].len() && cs[k1][p] == i;
        let p2 = choose|p: int| 0 <= p < cs[k2].len() && cs[k2][p] == i;
        assert(owner[cs[k1][p1] as int] == k1);
        assert(owner[cs[k2][p2] as int] == k2);
    }
    assert forall|k1: int, k2: int, i: usize, j: usize|
        0 <= k1 < cs.len() && 0 <= k2 < cs.len() && k1 != k2 && #[trigger] cs[k1].contains(i)
            && #[trigger] cs[k2].contains(j) implies !overlap(bs[i as int], bs[j as int]) by {
        let p1 = choose|p: int| 0 <= p < cs[k1].len() && cs[k1][p] == i;
        let p2 = choose|p: int| 0 <= p < cs[k2].len() && cs[k2][p] == j;
        assert(owner[cs[k1][p1] as int] == k1);
        assert(owner[cs[k2][p2] as int] == k2);
        if overlap(bs[i as int], bs[j as int]) {
            assert(overlap(bs[cs[k1][p1] as int], bs[j as int]));
            assert(overlap(bs[cs[k2][p2] as int], bs[i as int]));
        }
    }
}

/// The groups of boxes linked by chains of vertical overlaps, found by a
/// depth-first search from each box not grouped yet, in index order.
pub fn overlap_components(bounds: &Vec<BoundingBox>) -> (r: Vec<Vec<usize>>)
    requires
        boxes_ok(bounds@),
    ensures
        components_spec(bounds@, lists_v(r@)),
{
    let ghost bs = bounds@;
    let n = bounds.len();
    let mut visited: Vec<bool> = Vec::new();
    let mut i0: usize = 0;
    while i0 < n
        invariant
            i0 <= n,
            visited@.len() == i0,
            forall|k: int| 0 <= k < i0 ==> !visited@[k],
        decreases n - i0,
    {
        visited.push(false);
        i0 = i0 + 1;
    }
    let mut rows: Vec<Vec<usize>> = Vec::new();
    let ghost mut owner: Seq<int> = Seq::new(n as nat, |i: int| -1int);
    let mut index: usize = 0;
    while index < n
        invariant
            bs == bounds@,
            n == bs.len(),
            boxes_ok(bs),
            index <= n,
            visited@.len() == n,
            groups_inv(bs, lists_v(rows@), owner),
            forall|i: int| 0 <= i < n ==> (visited@[i] <==> owner[i] >= 0),
            forall|i: int| 0 <= i < n ==> #[trigger] owner[i] < rows@.len(),
            forall|i: int| 0 <= i < index ==> #[trigger] owner[i] >= 0,
            forall|k: int| 0 <= k < rows@.len() ==> (#[trigger] lists_v(rows@)[k])[0] < index,
        decreases n - index,
    {
        if !visited[index] {
            let ghost cs = lists_v(rows@);
            let ghost kk = rows@.len() as int;
            visited.set(index, true);
            proof {
                owner = owner.update(index as int, kk);
            }
            let mut stack: Vec<usize> = Vec::new();
            stack.push(index);
            let ghost mut parent: Seq<int> = seq![0int];
            let mut component: Vec<usize> = Vec::new();
            proof {
                assert(stack@ =~= seq![index]);
                assert forall|i: int| 0 <= i < n implies (#[trigger] owner[i] == kk <==> (
                component@.contains(i as usize) || stack@.contains(i as usize))) by {
                    if i == index {
                        assert(stack@[0] == index);
                    }
                }
            }
            while stack.len() > 0
                invariant
                    bs == bounds@,
                    n == bs.len(),
                    boxes_ok(bs),
                    index < n,
                    visited@.len() == n,
                    cs == lists_v(rows@),
                    kk == cs.len(),
                    groups_inv(bs, cs, owner),
                    forall|i: int| 0 <= i < n ==> (visited@[i] <==> owner[i] >= 0),
                    forall|i: int| 0 <= i < n ==> #[trigger] owner[i] <= kk,
                    forall|i: int| 0 <= i < index ==> 0 <= #[trigger] owner[i] < kk,
                    forall|k: int| 0 <= k < kk ==> (#[trigger] cs[k])[0] < index,
                    forall|i: int|
                        0 <= i < n ==> (#[trigger] owner[i] == kk <==> (component@.contains(
                            i as usize,
                        ) || stack@.contains(i as usize))),
                    forall|p: int| 0 <= p < component@.len() ==> #[trigger] component@[p] < n,
                    forall|t: int| 0 <= t < stack@.len() ==> #[trigger] stack@[t] < n,
                    component@.no_duplicates(),
                    stack@.no_duplicates(),
                    forall|i: usize| !(#[trigger] component@.contains(i) && stack@.contains(i)),
                    spanning(bs, component@),
                    component@.len() == 0 ==> stack@ == seq![index],
                    component@.len() > 0 ==> component@[0] == index,
                    parent.len() == stack@.len(),
                    component@.len() > 0 ==> forall|t: int|
                        0 <= t < stack@.len() ==> 0 <= #[trigger] parent[t] < component@.len()
                            && overlap(bs[stack@[t] as int], bs[component@[parent[t]] as int]),
                    forall|p: int, j: int|
                        0 <= p < component@.len() && 0 <= j < n && #[trigger] overlap(
                            bs[component@[p] as int],
                            bs[j],
                        ) ==> owner[j] >= 0,
                decreases n - component@.len(),
            {
                let ghost old_stack = stack@;
                let ghost old_component = component@;
                let ghost link = parent[parent.len() - 1];
                let current = match stack.pop() {
                    Some(c) => c,
                    None => index,
                };
                proof {
                    parent = parent.drop_last();
                    assert(old_stack.contains(current));
                    assert(!old_component.contains(current));
                }
                component.push(current);
                proof {
                    let cur = component@;
                    assert(old_stack[old_stack.len() - 1] == current);
                    assert forall|i: usize| #[trigger] old_stack.contains(i) <==> (stack@.contains(i) || i
                        == current) by {
                        if old_stack.contains(i) && i != current {
                            let t = choose|t: int| 0 <= t < old_stack.len() && old_stack[t] == i;
                            assert(stack@[t] == i);
                        }
                        if stack@.contains(i) {
                            let t = choose|t: int| 0 <= t < stack@.len() && stack@[t] == i;
                            assert(old_stack[t] == i);
                        }
                    }
                    assert forall|i: usize| #[trigger] cur.contains(i) <==> (old_component.contains(i)
                        || i == current) by {
                        if cur.contains(i) && i != current {
                            let t = choose|t: int| 0 <= t < cur.len() && cur[t] == i;
                            assert(old_component[t] == i);
                        }
                        if old_component.contains(i) {
                            let t = choose|t: int| 0 <= t < old_component.len() && old_component[t] == i;
                            assert(cur[t] == i);
                        }
                        if i == current {
                            assert(cur[cur.len() - 1] == current);
                        }
                    }
                    assert(!stack@.contains(current)) by {
                        if stack@.contains(current) {
                            let t = choose|t: int| 0 <= t < stack@.len() && stack@[t] == current;
                            assert(old_stack[t] == current);
                            assert(old_stack[old_stack.len() - 1] == current);
                        }
                    }
                    assert(cur.no_duplicates());
                    assert forall|p: int| 0 < p < cur.len() implies #[trigger] linked_before(
                        bs,
                        cur,
                        p,
                    ) by {
                        if p < old_component.len() {
                            assert(linked_before(bs, old_component, p));
                            let q = choose|q: int|
                                0 <= q < p && #[trigger] overlap(
                                    bs[old_component[p] as int],
                                    bs[old_component[q] as int],
                                );
                            assert(overlap(bs[cur[p] as int], bs[cur[q] as int]));
                        } else {
                            assert(overlap(bs[cur[p] as int], bs[cur[link] as int]));
                        }
                    }
                    assert(component@.len() <= n) by {
                        assert forall|p: int| 0 <= p < component@.len() implies owner[component@[p] as int] == kk by {
                            assert(component@.contains(component@[p]));
                        }
                        lemma_distinct_bound(component@, n as int);
                    }
                }
                let pos = component.len() - 1;
                let mut j: usize = 0;
                while j < n
                    invariant
                        bs == bounds@,
                        n == bs.len(),
                        boxes_ok(bs),
                        index < n,
                        j <= n,
                        visited@.len() == n,
                        cs == lists_v(rows@),
                        kk == cs.len(),
                        groups_inv(bs, cs, owner),
                        forall|i: int| 0 <= i < n ==> (visited@[i] <==> owner[i] >= 0),
                        forall|i: int| 0 <= i < n ==> #[trigger] owner[i] <= kk,
                        forall|i: int| 0 <= i < index ==> 0 <= #[trigger] owner[i] < kk,
                        forall|k: int| 0 <= k < kk ==> (#[trigger] cs[k])[0] < index,
                        forall|i: int|
                            0 <= i < n ==> (#[trigger] owner[i] == kk <==> (component@.contains(
                                i as usize,
                            ) || stack@.contains(i as usize))),
                        forall|p: int| 0 <= p < component@.len() ==> #[trigger] component@[p] < n,
                        forall|t: int| 0 <= t < stack@.len() ==> #[trigger] stack@[t] < n,
                        component@.no_duplicates(),
                        stack@.no_duplicates(),
                        forall|i: usize| !(#[trigger] component@.contains(i) && stack@.contains(i)),
                        spanning(bs, component@),
                        component@.len() > 0,
                        component@[0] == index,
                        pos == component@.len() - 1,
                        current == component@[pos as int],
                        current < n,
                        parent.len() == stack@.len(),
                        forall|t: int|
                            0 <= t < stack@.len() ==> 0 <= #[trigger] parent[t] < component@.len()
                                && overlap(bs[stack@[t] as int], bs[component@[parent[t]] as int]),
                        forall|p: int, i: int|
                            0 <= p < pos && 0 <= i < n && #[trigger] overlap(
                                bs[component@[p] as int],
                                bs[i],
                            ) ==> owner[i] >= 0,
                        forall|i: int|
                            0 <= i < j && #[trigger] overlap(bs[current as int], bs[i]) ==> owner[i]
                                >= 0,
                    decreases n - j,
                {
                    if j != current && !visited[j] && boxes_overlap_vertically(
                        &bounds[current],
                        &bounds[j],
                    ) {
                        visited.set(j, true);
                        proof {
                            assert(owner[j as int] == -1 || owner[j as int] < 0);
                            assert(!component@.contains(j));
                            assert(!stack@.contains(j));
                            owner = owner.update(j as int, kk);
                            parent = parent.push(pos as int);
                        }
                        let ghost before = stack@;
                        stack.push(j);
                        proof {
                            assert forall|i: usize| #[trigger] stack@.contains(i) <==> (before.contains(i)
                                || i == j) by {
                                if stack@.contains(i) && i != j {
                                    let t = choose|t: int| 0 <= t < stack@.len() && stack@[t] == i;
                                    assert(before[t] == i);
                                }
                                if before.contains(i) {
                                    let t = choose|t: int| 0 <= t < before.len() && before[t] == i;
                                    assert(stack@[t] == i);
                                }
                                if i == j {
                                    assert(stack@[before.len() as int] == j);
                                }
                            }
                        }
                    }
                    j = j + 1;
                }
                proof {
                    assert(owner[current as int] == kk);
                }
            }
            proof {
                assert(component@.len() > 0);
                let cs2 = cs.push(component@);
                assert forall|i: int| 0 <= i < n && #[trigger] owner[i] == kk implies component@.contains(
                    i as usize,
                ) by {}
                assert forall|p: int| 0 <= p < component@.len() implies owner[(#[trigger] component@[p]) as int] == kk by {
                    assert(component@.contains(component@[p]));
                }
                assert forall|p: int| 0 <= p < component@.len() implies index <= #[trigger] component@[p] by {
                    assert(component@.contains(component@[p]));
                    if component@[p] < index {
                        assert(owner[component@[p] as int] < kk);
                    }
                }
                assert(groups_inv(bs, cs2, owner));
            }
            rows.push(component);
            proof {
                assert(lists_v(rows@) =~= cs.push(component@));
            }
        }
        index = index + 1;
    }
    proof {
        lemma_groups_done(bs, lists_v(rows@), owner);
    }
    rows
}

proof fn lemma_distinct_bound(s: Seq<usize>, n: int)
    requires
        0 <= n,
        s.no_duplicates(),
        forall|p: int| 0 <= p < s.len() ==> #[trigger] s[p] < n,
    ensures
        s.len() <= n,
{
    let t = s.map_values(|x: usize| x as int);
    assert(t.no_duplicates()) by {
        assert forall|a: int, b: int| 0 <= a < t.len() && 0 <= b < t.len() && a != b implies t[a]
            != t[b] by {
            assert(s[a] != s[b]);
        }
    }
    t.unique_seq_to_set();
    vstd::set_lib::lemma_int_range(0, n);
    assert(t.to_set().subset_of(vstd::set_lib::set_int_range(0, n))) by {
        assert forall|x: int| t.to_set().contains(x) implies vstd::set_lib::set_int_range(0, n).contains(x) by {
            let p = choose|p: int| 0 <= p < t.len() && t[p] == x;
            assert(s[p] < n);
        }
    }
    vstd::set_lib::lemma_len_subset(t.to_set(), vstd::set_lib::set_int_range(0, n));
}

/// `a` comes before `b` when its key is smaller, or equal with a smaller index.
pub open spec fn key_before(keys: Seq<i32>, a: usize, b: usize) -> bool {
    keys[a as int] < keys[b as int] || (keys[a as int] == keys[b as int] && a < b)
}

/// `perm` lists each index of `keys` once, ordered by key, and by index among
/// equal keys.
pub open spec fn stable_order(keys: Seq<i32>, perm: Seq<usize>) -> bool {
    &&& perm.len() == keys.len()
    &&& perm.no_duplicates()
    &&& forall|a: int| 0 <= a < perm.len() ==> #[trigger] perm[a] < keys.len()
    &&& forall|a: int, b: int|
        0 <= a < b < perm.len() ==> key_before(keys, #[trigger] perm[a], #[trigger] perm[b])
}

/// The indices of `keys` ordered by key, and by index among equal keys.
pub(crate) fn stable_order_by(keys: &Vec<i32>) -> (r: Vec<usize>)
    ensures
        stable_order(keys@, r@),
{
    let ghost ks = keys@;
    let mut perm: Vec<usize> = Vec::new();
    let mut k: usize = 0;
    while k < keys.len()
        invariant
            ks == keys@,
            k <= ks.len(),
            perm@.len() == k,
            perm@.no_duplicates(),
            forall|a: int| 0 <= a < perm@.len() ==> #[trigger] perm@[a] < k,
            forall|a: int, b: int|
                0 <= a < b < perm@.len() ==> key_before(ks, #[trigger] perm@[a], #[trigger] perm@[b]),
        decreases ks.len() - k,
    {
        let mut pos: usize = 0;
        while pos < perm.len() && keys[perm[pos]] <= keys[k]
            invariant
                ks == keys@,
                k < ks.len(),
                pos <= perm@.len(),
                forall|a: int| 0 <= a < perm@.len() ==> #[trigger] perm@[a] < k,
                forall|a: int| 0 <= a < pos ==> ks[(#[trigger] perm@[a]) as int] <= ks[k as int],
            decreases perm@.len() - pos,
        {
            pos = pos + 1;
        }
        let ghost old_perm = perm@;
        perm.insert(pos, k);
        proof {
            let np = perm@;
            assert forall|a: int| 0 <= a < np.len() implies #[trigger] np[a] < k + 1 by {
                if a < pos {
                    assert(np[a] == old_perm[a]);
                } else if a > pos {
                    assert(np[a] == old_perm[a - 1]);
                }
            }
            assert(np.no_duplicates()) by {
                assert forall|a: int, b: int| 0 <= a < np.len() && 0 <= b < np.len() && a != b implies np[a]
                    != np[b] by {
                    if a != pos && b != pos {
                        let oa = if a < pos {
                            a
                        } else {
                            a - 1
                        };
                        let ob = if b < pos {
                            b
                        } else {
                            b - 1
                        };
                        assert(np[a] == old_perm[oa]);
                        assert(np[b] == old_perm[ob]);
                    } else if a == pos {
                        let ob = if b < pos {
                            b
                        } else {
                            b - 1
                        };
                        assert(np[b] == old_perm[ob]);
                    } else {
                        let oa = if a < pos {
                            a
                        } else {
                            a - 1
                        };
                        assert(np[a] == old_perm[oa]);
                    }
                }
            }
            if pos < old_perm.len() {
                assert(ks[old_perm[pos as int] as int] > ks[k as int]);
            }
            assert forall|a: int, b: int| 0 <= a < b < np.len() implies key_before(
                ks,
                #[trigger] np[a],
                #[trigger] np[b],
            ) by {
                if b < pos {
                    assert(np[a] == old_perm[a] && np[b] == old_perm[b]);
                } else if b == pos {
                    assert(np[a] == old_perm[a]);
                    assert(ks[old_perm[a] as int] <= ks[k as int]);
                } else if a < pos {
                    assert(np[a] == old_perm[a] && np[b] == old_perm[b - 1]);
                } else if a == pos {
                    assert(np[b] == old_perm[b - 1]);
                    if b - 1 > pos {
                        assert(key_before(ks, old_perm[pos as int], old_perm[b - 1]));
                    }
                } else {
                    assert(np[a] == old_perm[a - 1] && np[b] == old_perm[b - 1]);
                }
            }
        }
        k = k + 1;
    }
    perm
}

/// The top row of the highest box of a group.
pub open spec fn min_y(bs: Seq<BoundingBox>, c: Seq<usize>) -> i32
    decreases c.len(),
{
    if c.len() <= 1 {
        bs[c[0] as int].y
    } else {
        let m = min_y(bs, c.drop_last());
        let y = bs[c.last() as int].y;
        if y < m {
            y
        } else {
            m
        }
    }
}

/// The top rows of the groups.
pub open spec fn row_keys(bs: Seq<BoundingBox>, cs: Seq<Seq<usize>>) -> Seq<i32> {
    Seq::new(cs.len(), |k: int| min_y(bs, cs[k]))
}

fn group_min_y(bounds: &Vec<BoundingBox>, group: &Vec<usize>) -> (r: i32)
    requires
        group@.len() > 0,
        forall|p: int| 0 <= p < group@.len() ==> #[trigger] group@[p] < bounds@.len(),
    ensures
        r == min_y(bounds@, group@),
{
    let mut m = bounds[group[0]].y;
    let mut p: usize = 1;
    while p < group.len()
        invariant
            1 <= p <= group@.len(),
            forall|q: int| 0 <= q < group@.len() ==> #[trigger] group@[q] < bounds@.len(),
            m == min_y(bounds@, group@.subrange(0, p as int)),
        decreases group@.len() - p,
    {
        let y = bounds[group[p]].y;
        proof {
            let c = group@.subrange(0, p + 1);
            assert(c.drop_last() =~= group@.subrange(0, p as int));
        }
        if y < m {
            m = y;
        }
        p = p + 1;
    }
    proof {
        assert(group@.subrange(0, group@.len() as int) =~= group@);
    }
    m
}

fn group_keys(bounds: &Vec<BoundingBox>, groups: &Vec<Vec<usize>>) -> (r: Vec<i32>)
    requires
        components_spec(bounds@, lists_v(groups@)),
    ensures
        r@ == row_keys(bounds@, lists_v(groups@)),
{
    let ghost cs = lists_v(groups@);
    let mut keys: Vec<i32> = Vec::new();
    let mut k: usize = 0;
    while k < groups.len()
        invariant
            cs == lists_v(groups@),
            components_spec(bounds@, cs),
            k <= groups@.len(),
            keys@ == row_keys(bounds@, cs).subrange(0, k as int),
        decreases groups@.len() - k,
    {
        proof {
            assert(cs[k as int] == groups@[k as int]@);
            assert(cs[k as int].len() > 0);
        }
        let y = group_min_y(bounds, &groups[k]);
        keys.push(y);
        proof {
            assert(keys@ =~= row_keys(bounds@, cs).subrange(0, k + 1));
        }
        k = k + 1;
    }
    proof {
        assert(keys@ =~= row_keys(bounds@, cs));
    }
    keys
}

/// How many boxes each row holds, rows from top to bottom: the rows are the
/// groups of `overlap_components`, ordered by their highest top row, and by
/// their smallest index among equal ones.
pub fn detect_row_pattern(bounds: &Vec<BoundingBox>) -> (r: Vec<usize>)
    requires
        boxes_ok(bounds@),
    ensures
        exists|cs: Seq<Seq<usize>>, perm: Seq<usize>|
            #![trigger stable_order(row_keys(bounds@, cs), perm)]
            components_spec(bounds@, cs) && stable_order(row_keys(bounds@, cs), perm) && r@
                == Seq::new(cs.len(), |a: int| cs[perm[a] as int].len() as usize),
        pattern_total(r@) == bounds@.len(),
{
    let groups = overlap_components(bounds);
    let ghost cs = lists_v(groups@);
    let keys = group_keys(bounds, &groups);
    let order = stable_order_by(&keys);
    let mut counts: Vec<usize> = Vec::new();
    let mut a: usize = 0;
    while a < order.len()
        invariant
            cs == lists_v(groups@),
            stable_order(keys@, order@),
            keys@.len() == cs.len(),
            a <= order@.len(),
            counts@ == Seq::new(cs.len(), |b: int| cs[order@[b] as int].len() as usize).subrange(
                0,
                a as int,
            ),
        decreases order@.len() - a,
    {
        let k = order[a];
        proof {
            assert(cs[k as int] == groups@[k as int]@);
        }
        counts.push(groups[k].len());
        proof {
            assert(counts@ =~= Seq::new(cs.len(), |b: int| cs[order@[b] as int].len() as usize).subrange(
                0,
                a + 1,
            ));
        }
        a = a + 1;
    }
    proof {
        assert(counts@ =~= Seq::new(cs.len(), |b: int| cs[order@[b] as int].len() as usize));
        assert(bounds@.len() == bounds.len());
        lemma_row_counts_total(bounds@, cs, order@);
    }
    counts
}

/// The left columns of the boxes of a group, in the group's order.
pub open spec fn x_keys(bs: Seq<BoundingBox>, c: Seq<usize>) -> Seq<i32> {
    Seq::new(c.len(), |p: int| bs[c[p] as int].x)
}

/// The entries of `c` at the positions that `perm` lists.
pub open spec fn reorder(c: Seq<usize>, perm: Seq<usize>) -> Seq<usize> {
    Seq::new(perm.len(), |a: int| c[perm[a] as int])
}

/// The lists one after the other.
pub open spec fn flatten(rows: Seq<Seq<usize>>) -> Seq<usize>
    decreases rows.len(),
{
    if rows.len() == 0 {
        Seq::empty()
    } else {
        flatten(rows.drop_last()) + rows.last()
    }
}

/// The groups in the order `perm` gives, each with its boxes in the order
/// its entry of `inner` gives.
pub open spec fn sorted_rows(cs: Seq<Seq<usize>>, perm: Seq<usize>, inner: Seq<Seq<usize>>) -> Seq<
    Seq<usize>,
> {
    Seq::new(perm.len(), |a: int| reorder(cs[perm[a] as int], inner[perm[a] as int]))
}

fn x_order(bounds: &Vec<BoundingBox>, group: &Vec<usize>) -> (r: Vec<usize>)
    requires
        forall|p: int| 0 <= p < group@.len() ==> #[trigger] group@[p] < bounds@.len(),
    ensures
        stable_order(x_keys(bounds@, group@), r@),
{
    let mut xs: Vec<i32> = Vec::new();
    let mut p: usize = 0;
    while p < group.len()
        invariant
            p <= group@.len(),
            forall|q: int| 0 <= q < group@.len() ==> #[trigger] group@[q] < bounds@.len(),
            xs@ == x_keys(bounds@, group@).subrange(0, p as int),
        decreases group@.len() - p,
    {
        xs.push(bounds[group[p]].x);
        proof {
            assert(xs@ =~= x_keys(bounds@, group@).subrange(0, p + 1));
        }
        p = p + 1;
    }
    proof {
        assert(xs@ =~= x_keys(bounds@, group@));
    }
    stable_order_by(&xs)
}

/// The boxes row by row from top to bottom, and within a row from left to
/// right: the rows are those of `detect_row_pattern`, and the boxes of a row are
/// ordered by their left column, and by their order in the group among equal
/// ones.
pub fn sort_detected_bottles_by_coordinates(bounds: &Vec<BoundingBox>) -> (r: Vec<usize>)
    requires
        boxes_ok(bounds@),
    ensures
        exists|cs: Seq<Seq<usize>>, perm: Seq<usize>, inner: Seq<Seq<usize>>|
            #![trigger flatten(sorted_rows(cs, perm, inner))]
            {
                &&& components_spec(bounds@, cs)
                &&& stable_order(row_keys(bounds@, cs), perm)
                &&& inner.len() == cs.len()
                &&& forall|k: int| 0 <= k < cs.len() ==> #[trigger] stable_order(x_keys(bounds@, cs[k]), inner[k])
                &&& r@ == flatten(sorted_rows(cs, perm, inner))
            },
{
    let groups = overlap_components(bounds);
    let ghost cs = lists_v(groups@);
    let keys = group_keys(bounds, &groups);
    let order = stable_order_by(&keys);
    let mut inner: Vec<Vec<usize>> = Vec::new();
    let mut k: usize = 0;
    while k < groups.len()
        invariant
            cs == lists_v(groups@),
            components_spec(bounds@, cs),
            k <= groups@.len(),
            inner@.len() == k,
            forall|q: int| 0 <= q < k ==> #[trigger] stable_order(x_keys(bounds@, cs[q]), inner@[q]@),
        decreases groups@.len() - k,
    {
        proof {
            assert(cs[k as int] == groups@[k as int]@);
            assert forall|p: int| 0 <= p < groups@[k as int]@.len() implies #[trigger] groups@[k as int]@[p]
                < bounds@.len() by {
                assert(cs[k as int][p] < bounds@.len());
            }
        }
        let o = x_order(bounds, &groups[k]);
        inner.push(o);
        k = k + 1;
    }
    let ghost inn = lists_v(inner@);
    let ghost rows = sorted_rows(cs, order@, inn);
    let mut sorted: Vec<usize> = Vec::new();
    let mut a: usize = 0;
    while a < order.len()
        invariant
            cs == lists_v(groups@),
            inn == lists_v(inner@),
            rows == sorted_rows(cs, order@, inn),
            components_spec(bounds@, cs),
            stable_order(keys@, order@),
            keys@.len() == cs.len(),
            inner@.len() == cs.len(),
            forall|q: int| 0 <= q < cs.len() ==> #[trigger] stable_order(x_keys(bounds@, cs[q]), inner@[q]@),
            a <= order@.len(),
            sorted@ == flatten(rows.subrange(0, a as int)),
        decreases order@.len() - a,
    {
        let k = order[a];
        let ghost base = sorted@;
        proof {
            assert(cs[k as int] == groups@[k as int]@);
            assert(inn[k as int] == inner@[k as int]@);
            assert(stable_order(x_keys(bounds@, cs[k as int]), inner@[k as int]@));
        }
        let mut p: usize = 0;
        while p < inner[k].len()
            invariant
                cs == lists_v(groups@),
                inn == lists_v(inner@),
                rows == sorted_rows(cs, order@, inn),
                inner@.len() == cs.len(),
                groups@.len() == cs.len(),
                k < cs.len(),
                a < order@.len(),
                order@[a as int] == k,
                cs[k as int] == groups@[k as int]@,
                inn[k as int] == inner@[k as int]@,
                stable_order(x_keys(bounds@, cs[k as int]), inner@[k as int]@),
                p <= inner@[k as int]@.len(),
                sorted@ == base + rows[a as int].subrange(0, p as int),
            decreases inner@[k as int]@.len() - p,
        {
            let position = inner[k][p];
            proof {
                assert(position < x_keys(bounds@, cs[k as int]).len());
            }
            sorted.push(groups[k][position]);
            proof {
                assert(rows[a as int] == reorder(cs[k as int], inn[k as int]));
                assert(sorted@ =~= base + rows[a as int].subrange(0, p + 1));
            }
            p = p + 1;
        }
        proof {
            assert(rows[a as int] == reorder(cs[k as int], inn[k as int]));
            assert(rows[a as int].subrange(0, p as int) =~= rows[a as int]);
            assert(rows.subrange(0, a + 1).drop_last() =~= rows.subrange(0, a as int));
        }
        a = a + 1;
    }
    proof {
        assert(rows.subrange(0, order@.len() as int) =~= rows);
        assert(stable_order(row_keys(bounds@, cs), order@));
        assert forall|q: int| 0 <= q < cs.len() implies #[trigger] stable_order(x_keys(bounds@, cs[q]), inn[q]) by {
            assert(inn[q] == inner@[q]@);
        }
    }
    sorted
}

/// The indices of a list, as a set of integers.
spec fn int_set(s: Seq<usize>) -> Set<int> {
    s.map_values(|x: usize| x as int).to_set()
}

proof fn lemma_int_set_of(s: Seq<usize>, n: int)
    requires
        0 <= n,
        s.no_duplicates(),
        forall|p: int| 0 <= p < s.len() ==> #[trigger] s[p] < n,
    ensures
        int_set(s).subset_of(vstd::set_lib::set_int_range(0, n)),
        int_set(s).len() == s.len(),
        int_set(s).finite(),
        vstd::set_lib::set_int_range(0, n).finite(),
        vstd::set_lib::set_int_range(0, n).len() == n,
        forall|x: int| #[trigger] int_set(s).contains(x) <==> (0 <= x <= usize::MAX && s.contains(x as usize)),
{
    let t = s.map_values(|x: usize| x as int);
    assert(t.no_duplicates()) by {
        assert forall|a: int, b: int| 0 <= a < t.len() && 0 <= b < t.len() && a != b implies t[a]
            != t[b] by {
            assert(s[a] != s[b]);
        }
    }
    t.unique_seq_to_set();
    vstd::set_lib::lemma_int_range(0, n);
    assert forall|x: int| #[trigger] t.to_set().contains(x) <==> (0 <= x <= usize::MAX && s.contains(x as usize)) by {
        if t.to_set().contains(x) {
            let p = choose|p: int| 0 <= p < t.len() && t[p] == x;
            assert(s[p] == x as usize);
        }
        if 0 <= x <= usize::MAX && s.contains(x as usize) {
            let p = choose|p: int| 0 <= p < s.len() && s[p] == x as usize;
            assert(t[p] == x);
        }
    }
    assert(t.to_set().subset_of(vstd::set_lib::set_int_range(0, n))) by {
        assert forall|x: int| t.to_set().contains(x) implies vstd::set_lib::set_int_range(0, n).contains(x) by {
            let p = choose|p: int| 0 <= p < t.len() && t[p] == x;
            assert(s[p] < n);
        }
    }
    vstd::set_lib::lemma_len_subset(t.to_set(), vstd::set_lib::set_int_range(0, n));
}

/// A list of `n` distinct indices below `n` lists each of them.
proof fn lemma_distinct_cover(s: Seq<usize>, n: int)
    requires
        0 <= n,
        s.no_duplicates(),
        s.len() == n,
        forall|p: int| 0 <= p < s.len() ==> #[trigger] s[p] < n,
    ensures
        forall|i: usize| i < n ==> #[trigger] s.contains(i),
{
    lemma_int_set_of(s, n);
    vstd::set_lib::lemma_subset_equality(int_set(s), vstd::set_lib::set_int_range(0, n));
    assert forall|i: usize| i < n implies #[trigger] s.contains(i) by {
        assert(vstd::set_lib::set_int_range(0, n).contains(i as int));
        assert(int_set(s).contains(i as int));
    }
}

/// A list of distinct indices below `n` that lists each of them has `n`
/// entries.
proof fn lemma_distinct_full(s: Seq<usize>, n: int)
    requires
        0 <= n <= usize::MAX + 1,
        s.no_duplicates(),
        forall|p: int| 0 <= p < s.len() ==> #[trigger] s[p] < n,
        forall|i: usize| i < n ==> #[trigger] s.contains(i),
    ensures
        s.len() == n,
{
    lemma_int_set_of(s, n);
    assert(int_set(s) =~= vstd::set_lib::set_int_range(0, n)) by {
        assert forall|x: int| vstd::set_lib::set_int_range(0, n).contains(x) implies int_set(s).contains(
            x,
        ) by {
            assert(s.contains(x as usize));
        }
    }
}

proof fn lemma_flatten_contains(rows: Seq<Seq<usize>>, i: usize)
    ensures
        flatten(rows).contains(i) <==> exists|a: int| 0 <= a < rows.len() && #[trigger] rows[a].contains(i),
    decreases rows.len(),
{
    if rows.len() > 0 {
        let init = rows.drop_last();
        lemma_flatten_contains(init, i);
        let f = flatten(rows);
        assert(f == flatten(init) + rows.last());
        if f.contains(i) {
            let p = choose|p: int| 0 <= p < f.len() && f[p] == i;
            if p < flatten(init).len() {
                assert(flatten(init).contains(i));
                let a = choose|a: int| 0 <= a < init.len() && #[trigger] init[a].contains(i);
                assert(rows[a] == init[a]);
            } else {
                assert(rows.last()[p - flatten(init).len()] == i);
                assert(rows[rows.len() - 1].contains(i));
            }
        }
        if exists|a: int| 0 <= a < rows.len() && #[trigger] rows[a].contains(i) {
            let a = choose|a: int| 0 <= a < rows.len() && #[trigger] rows[a].contains(i);
            if a < rows.len() - 1 {
                assert(init[a] == rows[a]);
                assert(flatten(init).contains(i));
                let p = choose|p: int| 0 <= p < flatten(init).len() && flatten(init)[p] == i;
                assert(f[p] == i);
            } else {
                let p = choose|p: int| 0 <= p < rows.last().len() && rows.last()[p] == i;
                assert(f[flatten(init).len() + p] == i);
            }
        }
    }
}

proof fn lemma_flatten_partition(rows: Seq<Seq<usize>>, n: int)
    requires
        0 <= n <= usize::MAX,
        forall|a: int| 0 <= a < rows.len() ==> (#[trigger] rows[a]).no_duplicates(),
        forall|a: int, p: int| 0 <= a < rows.len() && 0 <= p < rows[a].len() ==> #[trigger] rows[a][p] < n,
        forall|a1: int, a2: int, i: usize|
            0 <= a1 < rows.len() && 0 <= a2 < rows.len() && #[trigger] rows[a1].contains(i)
                && #[trigger] rows[a2].contains(i) ==> a1 == a2,
    ensures
        flatten(rows).no_duplicates(),
        forall|p: int| 0 <= p < flatten(rows).len() ==> #[trigger] flatten(rows)[p] < n,
        flatten(rows).len() == pattern_total(Seq::new(rows.len(), |a: int| rows[a].len() as usize)),
    decreases rows.len(),
{
    let lens = Seq::new(rows.len(), |a: int| rows[a].len() as usize);
    if rows.len() == 0 {
        assert(lens.len() == 0);
    } else {
        let init = rows.drop_last();
        lemma_flatten_partition(init, n);
        let fi = flatten(init);
        let l = rows.last();
        let f = flatten(rows);
        assert(f == fi + l);
        assert(lens.drop_last() =~= Seq::new(init.len(), |a: int| init[a].len() as usize));
        assert(l.len() <= n) by {
            lemma_distinct_bound(l, n);
        }
        assert forall|p: int| 0 <= p < f.len() implies #[trigger] f[p] < n by {
            if p >= fi.len() {
                assert(f[p] == rows[rows.len() - 1][p - fi.len()]);
            }
        }
        assert(f.no_duplicates()) by {
            assert forall|p: int, q: int| 0 <= p < f.len() && 0 <= q < f.len() && p != q implies f[p]
                != f[q] by {
                if p >= fi.len() && q >= fi.len() {
                    assert(l[p - fi.len()] != l[q - fi.len()]);
                } else if p < fi.len() && q >= fi.len() {
                    let i = f[p];
                    if i == f[q] {
                        assert(fi.contains(i));
                        lemma_flatten_contains(init, i);
                        let a = choose|a: int| 0 <= a < init.len() && #[trigger] init[a].contains(i);
                        assert(rows[a].contains(i));
                        assert(rows[rows.len() - 1][q - fi.len()] == i);
                        assert(rows[rows.len() - 1].contains(i));
                    }
                } else if p >= fi.len() && q < fi.len() {
                    let i = f[q];
                    if i == f[p] {
                        assert(fi.contains(i));
                        lemma_flatten_contains(init, i);
                        let a = choose|a: int| 0 <= a < init.len() && #[trigger] init[a].contains(i);
                        assert(rows[a].contains(i));
                        assert(rows[rows.len() - 1][p - fi.len()] == i);
                        assert(rows[rows.len() - 1].contains(i));
                    }
                }
            }
        }
    }
}

/// Every box lies in exactly one row: however the rows are ordered, the
/// numbers of boxes in them add up to the number of boxes.
pub proof fn lemma_row_counts_total(bs: Seq<BoundingBox>, cs: Seq<Seq<usize>>, perm: Seq<usize>)
    requires
        bs.len() <= usize::MAX,
        components_spec(bs, cs),
        stable_order(row_keys(bs, cs), perm),
    ensures
        pattern_total(Seq::new(cs.len(), |a: int| cs[perm[a] as int].len() as usize)) == bs.len(),
{
    let n = bs.len() as int;
    let m = cs.len() as int;
    let roots = Seq::new(cs.len(), |k: int| cs[k][0]);
    assert(roots.no_duplicates()) by {
        assert forall|a: int, b: int| 0 <= a < roots.len() && 0 <= b < roots.len() && a != b implies roots[a]
            != roots[b] by {
            if a < b {
                assert(cs[a][0] < cs[b][0]);
            } else {
                assert(cs[b][0] < cs[a][0]);
            }
        }
    }
    assert forall|k: int| 0 <= k < roots.len() implies #[trigger] roots[k] < n by {
        assert(cs[k].len() > 0);
        assert(cs[k][0] < n);
    }
    lemma_distinct_bound(roots, n);
    lemma_distinct_cover(perm, m);
    let rows = Seq::new(cs.len(), |a: int| cs[perm[a] as int]);
    assert forall|a1: int, a2: int, i: usize|
        0 <= a1 < rows.len() && 0 <= a2 < rows.len() && #[trigger] rows[a1].contains(i)
            && #[trigger] rows[a2].contains(i) implies a1 == a2 by {
        assert(cs[perm[a1] as int].contains(i));
        assert(cs[perm[a2] as int].contains(i));
        assert(perm[a1] == perm[a2]);
    }
    assert forall|a: int, p: int| 0 <= a < rows.len() && 0 <= p < rows[a].len() implies #[trigger] rows[a][p]
        < n by {
        assert(cs[perm[a] as int][p] < n);
    }
    assert forall|a: int| 0 <= a < rows.len() implies (#[trigger] rows[a]).no_duplicates() by {
        assert(cs[perm[a] as int].len() > 0 && cs[perm[a] as int].no_duplicates());
    }
    lemma_flatten_partition(rows, n);
    let f = flatten(rows);
    assert forall|i: usize| i < n implies #[trigger] f.contains(i) by {
        assert(placed(cs, i));
        let k = choose|k: int| 0 <= k < cs.len() && #[trigger] cs[k].contains(i);
        assert(perm.contains(k as usize));
        let a = choose|a: int| 0 <= a < perm.len() && perm[a] == k as usize;
        assert(rows[a].contains(i));
        lemma_flatten_contains(rows, i);
    }
    lemma_distinct_full(f, n);
    assert(Seq::new(rows.len(), |a: int| rows[a].len() as usize) =~= Seq::new(
        cs.len(),
        |a: int| cs[perm[a] as int].len() as usize,
    ));
}

} // verus!
