//! Where each drop goes once hollows are decided: kept lakes stand flat at their level, each
//! below-datum pocket of an enclosed basin is a lake of its own, and every other node sends its
//! water down its steepest slope; a node with nowhere lower to go is cut out along its parent
//! chain.
//!
//! Which neighbour is steepest is a matter of distances on the sphere, so it comes in as a
//! plain node per node; so do the fates of the hollows.
use vstd::prelude::*;
use crate::components::NO_BASIN;
use crate::drainage::{NO_LAKE, NO_NODE};
use crate::flood::{DATUM_KEY, Flood, flood, is_way_in, leads_back, raised_from, seed_level, seed_node, way_top};
use crate::graph::{LandGraph, ascending, insert_sorted};
use crate::components::connected;
use crate::hollows::{HollowShape, find_hollows, holds, is_first_taken, order_ranks, outlet_of, rank_in, raised_nodes};
use crate::cuts::{follow_parents, is_cut_walk, last_step, point_along, steps_along, steps_from, walk_parents, walks_up};

verus! {

/// Node `x` stands under a lake's water: below the level of an open lake, at or below the datum
/// in an enclosed basin.
pub open spec fn under_water(height: Seq<u64>, x: int, level: u64, enclosed: bool) -> bool {
    if enclosed {
        height[x] <= DATUM_KEY
    } else {
        height[x] < level
    }
}

/// The members of `list` that stand under water, in their order.
fn under_water_members(list: &Vec<u32>, height: &Vec<u64>, level: u64, enclosed: bool) -> (out: Vec<u32>)
    requires
        forall|k: int| 0 <= k < list@.len() ==> #[trigger] list@[k] < height@.len(),
    ensures
        forall|x: u32| #[trigger] out@.contains(x) <==> list@.contains(x) && under_water(height@, x as int, level, enclosed),
        ascending(list@) ==> ascending(out@),
        forall|k: int| 0 <= k < out@.len() ==> #[trigger] out@[k] < height@.len(),
        out@.len() <= list@.len(),
{
    let mut out: Vec<u32> = Vec::new();
    let mut k: usize = 0;
    while k < list.len()
        invariant
            k <= list@.len(),
            forall|j: int| 0 <= j < list@.len() ==> #[trigger] list@[j] < height@.len(),
            forall|x: u32| #[trigger] out@.contains(x) ==> under_water(height@, x as int, level, enclosed),
            forall|j: int| #![trigger out@[j]] 0 <= j < out@.len() ==> exists|i: int| 0 <= i < k && #[trigger] list@[i] == out@[j],
            forall|i: int| 0 <= i < k && under_water(height@, list@[i] as int, level, enclosed) ==> out@.contains(#[trigger] list@[i]),
            forall|j: int| 0 <= j < out@.len() ==> #[trigger] out@[j] < height@.len(),
            out@.len() <= k,
            ascending(list@) ==> ascending(out@),
            ascending(list@) && k > 0 && out@.len() > 0 ==> out@.last() <= list@[k - 1],
        decreases list@.len() - k,
    {
        let m = list[k];
        let keep = if enclosed { height[m as usize] <= DATUM_KEY } else { height[m as usize] < level };
        let ghost before = out@;
        if keep {
            out.push(m);
        }
        proof {
            assert forall|x: u32| #[trigger] out@.contains(x) implies under_water(height@, x as int, level, enclosed) by {
                let j = choose|j: int| 0 <= j < out@.len() && out@[j] == x;
                if j < before.len() {
                    assert(before[j] == x);
                    assert(before.contains(x));
                }
            }
            assert forall|j: int| #![trigger out@[j]] 0 <= j < out@.len() implies exists|i: int| 0 <= i < k + 1 && #[trigger] list@[i] == out@[j] by {
                if j < before.len() {
                    assert(out@[j] == before[j]);
                    let i = choose|i: int| 0 <= i < k && #[trigger] list@[i] == before[j];
                    assert(list@[i] == out@[j]);
                } else {
                    assert(list@[k as int] == out@[j]);
                }
            }
            assert forall|i: int| 0 <= i < k + 1 && under_water(height@, list@[i] as int, level, enclosed) implies out@.contains(#[trigger] list@[i]) by {
                if i < k {
                    assert(before.contains(list@[i]));
                    let j = choose|j: int| 0 <= j < before.len() && before[j] == list@[i];
                    assert(out@[j] == list@[i]);
                } else {
                    assert(out@[out@.len() - 1] == list@[i]);
                }
            }
            if ascending(list@) {
                if k > 0 {
                    assert(list@[k - 1] < list@[k as int]);
                }
            }
        }
        k += 1;
    }
    proof {
        assert forall|x: u32| #[trigger] out@.contains(x) <==> list@.contains(x) && under_water(height@, x as int, level, enclosed) by {
            if out@.contains(x) {
                let j = choose|j: int| 0 <= j < out@.len() && out@[j] == x;
                let i = choose|i: int| 0 <= i < k && #[trigger] list@[i] == out@[j];
                assert(list@[i] == x);
            }
            if list@.contains(x) && under_water(height@, x as int, level, enclosed) {
                let i = choose|i: int| 0 <= i < list@.len() && list@[i] == x;
                assert(out@.contains(list@[i]));
            }
        }
    }
    out
}

/// The members of `list` in basin `b`, in their order.
fn basin_members(list: &Vec<u32>, basin: &Vec<u32>, b: u32) -> (out: Vec<u32>)
    requires
        forall|k: int| 0 <= k < list@.len() ==> #[trigger] list@[k] < basin@.len(),
    ensures
        forall|x: u32| #[trigger] out@.contains(x) <==> list@.contains(x) && basin@[x as int] == b,
        ascending(list@) ==> ascending(out@),
        forall|k: int| 0 <= k < out@.len() ==> #[trigger] out@[k] < basin@.len(),
        out@.len() <= list@.len(),
{
    let mut out: Vec<u32> = Vec::new();
    let mut k: usize = 0;
    while k < list.len()
        invariant
            k <= list@.len(),
            forall|j: int| 0 <= j < list@.len() ==> #[trigger] list@[j] < basin@.len(),
            forall|x: u32| #[trigger] out@.contains(x) ==> basin@[x as int] == b,
            forall|j: int| #![trigger out@[j]] 0 <= j < out@.len() ==> exists|i: int| 0 <= i < k && #[trigger] list@[i] == out@[j],
            forall|i: int| 0 <= i < k && basin@[list@[i] as int] == b ==> out@.contains(#[trigger] list@[i]),
            forall|j: int| 0 <= j < out@.len() ==> #[trigger] out@[j] < basin@.len(),
            out@.len() <= k,
            ascending(list@) ==> ascending(out@),
            ascending(list@) && k > 0 && out@.len() > 0 ==> out@.last() <= list@[k - 1],
        decreases list@.len() - k,
    {
        let m = list[k];
        let keep = basin[m as usize] == b;
        let ghost before = out@;
        if keep {
            out.push(m);
        }
        proof {
            assert forall|x: u32| #[trigger] out@.contains(x) implies basin@[x as int] == b by {
                let j = choose|j: int| 0 <= j < out@.len() && out@[j] == x;
                if j < before.len() {
                    assert(before[j] == x);
                    assert(before.contains(x));
                }
            }
            assert forall|j: int| #![trigger out@[j]] 0 <= j < out@.len() implies exists|i: int| 0 <= i < k + 1 && #[trigger] list@[i] == out@[j] by {
                if j < before.len() {
                    assert(out@[j] == before[j]);
                    let i = choose|i: int| 0 <= i < k && #[trigger] list@[i] == before[j];
                    assert(list@[i] == out@[j]);
                } else {
                    assert(list@[k as int] == out@[j]);
                }
            }
            assert forall|i: int| 0 <= i < k + 1 && basin@[list@[i] as int] == b implies out@.contains(#[trigger] list@[i]) by {
                if i < k {
                    assert(before.contains(list@[i]));
                    let j = choose|j: int| 0 <= j < before.len() && before[j] == list@[i];
                    assert(out@[j] == list@[i]);
                } else {
                    assert(out@[out@.len() - 1] == list@[i]);
                }
            }
            if ascending(list@) {
                if k > 0 {
                    assert(list@[k - 1] < list@[k as int]);
                }
            }
        }
        k += 1;
    }
    proof {
        assert forall|x: u32| #[trigger] out@.contains(x) <==> list@.contains(x) && basin@[x as int] == b by {
            if out@.contains(x) {
                let j = choose|j: int| 0 <= j < out@.len() && out@[j] == x;
                let i = choose|i: int| 0 <= i < k && #[trigger] list@[i] == out@[j];
                assert(list@[i] == x);
            }
            if list@.contains(x) && basin@[x as int] == b {
                let i = choose|i: int| 0 <= i < list@.len() && list@[i] == x;
                assert(out@.contains(list@[i]));
            }
        }
    }
    out
}

/// The basins that the members of `list` lie in, ascending, each once.
fn basins_of(list: &Vec<u32>, basin: &Vec<u32>) -> (out: Vec<u32>)
    requires
        forall|k: int| 0 <= k < list@.len() ==> #[trigger] list@[k] < basin@.len(),
    ensures
        ascending(out@),
        out@.len() <= list@.len(),
        forall|b: u32| #[trigger] out@.contains(b) <==> exists|k: int| 0 <= k < list@.len() && basin@[#[trigger] list@[k] as int] == b,
{
    let mut out: Vec<u32> = Vec::new();
    let mut k: usize = 0;
    while k < list.len()
        invariant
            k <= list@.len(),
            forall|j: int| 0 <= j < list@.len() ==> #[trigger] list@[j] < basin@.len(),
            ascending(out@),
            out@.len() <= k,
            forall|b: u32| #[trigger] out@.contains(b) <==> exists|j: int| 0 <= j < k && basin@[#[trigger] list@[j] as int] == b,
        decreases list@.len() - k,
    {
        let b = basin[list[k] as usize];
        insert_sorted(&mut out, b);
        proof {
            assert forall|c: u32| #[trigger] out@.contains(c) <==> exists|j: int| 0 <= j < k + 1 && basin@[#[trigger] list@[j] as int] == c by {
                if c == b {
                    assert(basin@[list@[k as int] as int] == c);
                }
                if exists|j: int| 0 <= j < k + 1 && basin@[#[trigger] list@[j] as int] == c {
                    let j = choose|j: int| 0 <= j < k + 1 && basin@[#[trigger] list@[j] as int] == c;
                    if j < k {
                        assert(exists|j2: int| 0 <= j2 < k && basin@[#[trigger] list@[j2] as int] == c);
                    }
                }
            }
        }
        k += 1;
    }
    out
}

/// The member the flood took first, and the first such in list order.
fn first_taken(members: &Vec<u32>, rank: &Vec<u64>) -> (entry: u32)
    requires
        members@.len() > 0,
        forall|k: int| 0 <= k < members@.len() ==> #[trigger] members@[k] < rank@.len(),
        ascending(members@),
    ensures
        is_first_taken(members@, rank@, entry),
{
    let ghost ms = members@;
    let mut entry = members[0];
    let ghost mut ei: int = 0;
    let mut k: usize = 1;
    while k < members.len()
        invariant
            ms == members@,
            1 <= k <= ms.len(),
            ascending(ms),
            forall|j: int| 0 <= j < ms.len() ==> #[trigger] ms[j] < rank@.len(),
            0 <= ei < k,
            ms[ei] == entry,
            forall|j: int| 0 <= j < k ==> rank@[entry as int] <= rank@[#[trigger] ms[j] as int],
            forall|j: int| 0 <= j < ei ==> rank@[entry as int] < rank@[#[trigger] ms[j] as int],
        decreases ms.len() - k,
    {
        let m = members[k];
        if rank[m as usize] < rank[entry as usize] {
            entry = m;
            proof {
                ei = k as int;
            }
        }
        k += 1;
    }
    proof {
        assert(ms[ei] == entry);
        assert forall|j: int| 0 <= j < ms.len() && #[trigger] ms[j] < entry implies rank@[entry as int] < rank@[ms[j] as int] by {
            if j >= ei {
                if j > ei {
                    assert(ms[ei] < ms[j]);
                }
            }
        }
    }
    entry
}

/// One lake the routing lays out: a kept hollow, or one below-datum pocket of a kept hollow in
/// an enclosed basin, or a hollow that is notched (not kept, with no water).
pub struct Lake {
    /// The nodes under its water, ascending.
    pub members: Vec<u32>,
    /// Where its water gathers and leaves: the member the flood took first.
    pub entry: u32,
    /// The node its water spills over to.
    pub outlet: u32,
    pub level_key: u64,
    pub enclosed: bool,
    pub kept: bool,
    /// The hollow it was laid out from.
    pub source: u32,
    /// For a pocket, its basin; `NO_BASIN` otherwise.
    pub basin: u32,
}

/// Hollow `members` has a member at or below the datum in basin `b`.
pub open spec fn has_pocket(members: Seq<u32>, height: Seq<u64>, basin: Seq<u32>, b: u32) -> bool {
    exists|k: int| 0 <= k < members.len() && height[#[trigger] members[k] as int] <= DATUM_KEY && basin[members[k] as int] == b
}

/// Hollow `members` has some member at or below the datum.
pub open spec fn has_submerged(members: Seq<u32>, height: Seq<u64>) -> bool {
    exists|k: int| 0 <= k < members.len() && height[#[trigger] members[k] as int] <= DATUM_KEY
}

/// `lake` is the pocket of a kept enclosed hollow with `members` in basin `b`: its members at
/// or below the datum in that basin, entered where the flood first took one of them.
pub open spec fn is_pocket(lake: Lake, members: Seq<u32>, height: Seq<u64>, basin: Seq<u32>, rank: Seq<u64>, parent: Seq<u32>) -> bool {
    &&& lake.kept
    &&& lake.enclosed
    &&& lake.level_key == DATUM_KEY
    &&& has_pocket(members, height, basin, lake.basin)
    &&& forall|x: u32| #[trigger] lake.members@.contains(x) <==> members.contains(x) && height[x as int] <= DATUM_KEY && basin[x as int] == lake.basin
    &&& ascending(lake.members@)
    &&& is_first_taken(lake.members@, rank, lake.entry)
    &&& lake.outlet == outlet_of(parent, lake.entry)
}

/// `lake` is hollow `members` laid out as it is: kept with the members under its level, or not
/// kept and dry.
pub open spec fn is_whole(
    lake: Lake,
    members: Seq<u32>,
    entry: u32,
    outlet: u32,
    enclosed: bool,
    kept: bool,
    height: Seq<u64>,
    level_whole: u64,
) -> bool {
    let level = if enclosed && kept { DATUM_KEY } else { level_whole };
    &&& lake.kept == kept
    &&& lake.enclosed == enclosed
    &&& lake.entry == entry
    &&& lake.outlet == outlet
    &&& lake.level_key == level
    &&& lake.basin == NO_BASIN
    &&& forall|x: u32| #[trigger] lake.members@.contains(x) <==> kept && members.contains(x) && under_water(height, x as int, level, enclosed)
    &&& ascending(lake.members@)
}

/// How many members the hollows have, all told.
pub open spec fn member_total(hollows: Seq<HollowShape>) -> nat
    decreases hollows.len(),
{
    if hollows.len() == 0 {
        0
    } else {
        member_total(hollows.drop_last()) + hollows.last().members@.len()
    }
}

/// The lake's entry and members are nodes below `n`.
pub open spec fn lake_within(lake: Lake, n: int) -> bool {
    &&& lake.entry < n
    &&& forall|k: int| 0 <= k < lake.members@.len() ==> #[trigger] lake.members@[k] < n
}

/// The hollows the routing takes: members ascending and in range, entries in range.
pub open spec fn hollows_in_range(hollows: Seq<HollowShape>, n: int) -> bool {
    forall|h: int| 0 <= h < hollows.len() ==> {
        &&& ascending((#[trigger] hollows[h]).members@)
        &&& forall|k: int| 0 <= k < hollows[h].members@.len() ==> #[trigger] hollows[h].members@[k] < n
        &&& hollows[h].entry < n
    }
}

/// Hollow `h` is split into pockets: kept, in an enclosed basin, with ground at or below the
/// datum.
pub open spec fn splits(hollows: Seq<HollowShape>, kept: Seq<bool>, height: Seq<u64>, h: int) -> bool {
    kept[h] && hollows[h].enclosed && has_submerged(hollows[h].members@, height)
}

/// `lake` is laid out from its hollow as the routing lays it: a pocket where the hollow
/// splits, the whole hollow otherwise.
pub open spec fn laid_from(
    lake: Lake,
    hollows: Seq<HollowShape>,
    kept: Seq<bool>,
    basin: Seq<u32>,
    height: Seq<u64>,
    levels: Seq<u64>,
    parent: Seq<u32>,
    rank: Seq<u64>,
) -> bool {
    let src = lake.source as int;
    let h = hollows[src];
    &&& 0 <= src < hollows.len()
    &&& if splits(hollows, kept, height, src) {
        is_pocket(lake, h.members@, height, basin, rank, parent)
    } else {
        is_whole(lake, h.members@, h.entry, h.outlet, h.enclosed, kept[src], height, levels[src])
    }
}

/// Lays out the lakes: hollow `h` becomes lake `h`, and a hollow that splits into pockets
/// becomes its pocket in the lowest basin there, its other pockets following all the hollows,
/// hollow by hollow, basin by basin.
pub fn lay_lakes(
    hollows: &Vec<HollowShape>,
    kept: &Vec<bool>,
    basin: &Vec<u32>,
    height_key: &Vec<u64>,
    levels: &Vec<u64>,
    parent: &Vec<u32>,
    rank: &Vec<u64>,
) -> (lakes: Vec<Lake>)
    requires
        kept@.len() == hollows@.len(),
        basin@.len() == height_key@.len(),
        levels@.len() == hollows@.len(),
        parent@.len() == height_key@.len(),
        rank@.len() == height_key@.len(),
        hollows_in_range(hollows@, height_key@.len() as int),
        hollows@.len() + member_total(hollows@) < u32::MAX,
    ensures
        hollows@.len() <= lakes@.len() <= hollows@.len() + member_total(hollows@),
        forall|l: int| 0 <= l < lakes@.len() ==> laid_from(#[trigger] lakes@[l], hollows@, kept@, basin@, height_key@, levels@, parent@, rank@),
        forall|l: int| 0 <= l < hollows@.len() ==> #[trigger] lakes@[l].source == l,
        forall|l: int| hollows@.len() <= l < lakes@.len() ==> splits(hollows@, kept@, height_key@, #[trigger] lakes@[l].source as int),
        forall|l: int| 0 <= l < lakes@.len() ==> {
            &&& (#[trigger] lakes@[l]).entry < height_key@.len()
            &&& forall|k: int| 0 <= k < lakes@[l].members@.len() ==> #[trigger] lakes@[l].members@[k] < height_key@.len()
        },
        forall|l: int, m: int|
            hollows@.len() <= m < lakes@.len() && (#[trigger] lakes@[m]).source == l ==> (#[trigger] lakes@[l]).basin < lakes@[m].basin,
        forall|a: int, b: int|
            hollows@.len() <= a < b < lakes@.len() ==> (#[trigger] lakes@[a]).source < (#[trigger] lakes@[b]).source || (
            lakes@[a].source == lakes@[b].source && lakes@[a].basin < lakes@[b].basin),
        forall|h: int, b: u32|
            0 <= h < hollows@.len() && splits(hollows@, kept@, height_key@, h) && #[trigger] has_pocket(hollows@[h].members@, height_key@, basin@, b)
                ==> exists|l: int| 0 <= l < lakes@.len() && (#[trigger] lakes@[l]).source == h && lakes@[l].basin == b,
{
    let n = height_key.len();
    let ghost hs = hollows@;
    let mut lakes: Vec<Lake> = Vec::new();
    let mut extras: Vec<Lake> = Vec::new();
    let mut i: usize = 0;
    while i < hollows.len()
        invariant
            i <= hs.len(),
            hs == hollows@,
            n == height_key@.len(),
            kept@.len() == hs.len(),
            basin@.len() == n,
            levels@.len() == hs.len(),
            parent@.len() == n,
            rank@.len() == n,
            hollows_in_range(hs, n as int),
            hs.len() + member_total(hs) < u32::MAX,
            member_total(hs.take(i as int)) <= member_total(hs),
            lakes@.len() == i,
            lakes@.len() + extras@.len() <= i + member_total(hs.take(i as int)),
            forall|l: int| 0 <= l < lakes@.len() ==> #[trigger] lakes@[l].source == l,
            forall|l: int| 0 <= l < lakes@.len() ==> laid_from(#[trigger] lakes@[l], hs, kept@, basin@, height_key@, levels@, parent@, rank@),
            forall|l: int| 0 <= l < lakes@.len() ==> lake_within(#[trigger] lakes@[l], n as int),
            forall|e: int| 0 <= e < extras@.len() ==> laid_from(#[trigger] extras@[e], hs, kept@, basin@, height_key@, levels@, parent@, rank@),
            forall|e: int| 0 <= e < extras@.len() ==> lake_within(#[trigger] extras@[e], n as int),
            forall|e: int| 0 <= e < extras@.len() ==> (#[trigger] extras@[e]).source < i && splits(hs, kept@, height_key@, extras@[e].source as int),
            forall|e: int| 0 <= e < extras@.len() ==> lakes@[(#[trigger] extras@[e]).source as int].basin < extras@[e].basin,
            forall|a: int, b: int|
                0 <= a < b < extras@.len() ==> (#[trigger] extras@[a]).source < (#[trigger] extras@[b]).source || (
                extras@[a].source == extras@[b].source && extras@[a].basin < extras@[b].basin),
            forall|h: int, b: u32|
                0 <= h < i && splits(hs, kept@, height_key@, h) && #[trigger] has_pocket(hs[h].members@, height_key@, basin@, b)
                    ==> lakes@[h].basin == b || exists|e: int| 0 <= e < extras@.len() && (#[trigger] extras@[e]).source == h && extras@[e].basin == b,
        decreases hs.len() - i,
    {
        proof {
            assert(hs.take(i + 1).drop_last() =~= hs.take(i as int));
            assert(hs.take(i + 1).last() == hs[i as int]);
            lemma_member_total_prefix(hs, i as int + 1);
        }
        let k = kept[i];
        let enclosed = hollows[i].enclosed;
        let mut sub: Vec<u32> = Vec::new();
        if k && enclosed {
            sub = under_water_members(&hollows[i].members, height_key, DATUM_KEY, true);
        }
        proof {
            if k && enclosed {
                let ms = hs[i as int].members@;
                if has_submerged(ms, height_key@) {
                    let q = choose|q: int| 0 <= q < ms.len() && height_key@[#[trigger] ms[q] as int] <= DATUM_KEY;
                    assert(ms.contains(ms[q]));
                    assert(sub@.contains(ms[q]));
                } else if sub@.len() > 0 {
                    assert(sub@.contains(sub@[0]));
                    let q = choose|q: int| 0 <= q < ms.len() && ms[q] == sub@[0];
                    assert(height_key@[ms[q] as int] <= DATUM_KEY);
                }
            }
        }
        if k && enclosed && sub.len() > 0 {
            let basins = basins_of(&sub, basin);
            proof {
                assert(basins@.contains(basin@[sub@[0] as int]));
            }
            let ghost lakes0 = lakes@;
            let ghost extras0 = extras@;
            let mut j: usize = 0;
            while j < basins.len()
                invariant
                    // the outer invariants, unchanged by this loop
                    i < hs.len(),
                    hs.len() < u32::MAX,
                    hs == hollows@,
                    n == height_key@.len(),
                    kept@.len() == hs.len(),
                    basin@.len() == n,
                    levels@.len() == hs.len(),
                    parent@.len() == n,
                    rank@.len() == n,
                    hollows_in_range(hs, n as int),
                    splits(hs, kept@, height_key@, i as int),
                    forall|x: u32| #[trigger] sub@.contains(x) <==> hs[i as int].members@.contains(x) && height_key@[x as int] <= DATUM_KEY,
                    ascending(sub@),
                    forall|q: int| 0 <= q < sub@.len() ==> #[trigger] sub@[q] < n,
                    sub@.len() <= hs[i as int].members@.len(),
                    ascending(basins@),
                    basins@.len() <= sub@.len(),
                    basins@.len() > 0,
                    forall|b: u32| #[trigger] basins@.contains(b) <==> exists|q: int| 0 <= q < sub@.len() && basin@[#[trigger] sub@[q] as int] == b,
                    j <= basins@.len(),
                    lakes0.len() == i,
                    lakes@ == if j == 0 { lakes0 } else { lakes0.push(lakes@[i as int]) },
                    j > 0 ==> lakes@[i as int].basin == basins@[0] && lakes@[i as int].source == i
                        && laid_from(lakes@[i as int], hs, kept@, basin@, height_key@, levels@, parent@, rank@)
                        && lake_within(lakes@[i as int], n as int),
                    extras@.len() == extras0.len() + if j == 0 { 0 } else { j - 1 },
                    forall|e: int| 0 <= e < extras0.len() ==> extras@[e] == extras0[e],
                    forall|e: int| extras0.len() <= e < extras@.len() ==> (#[trigger] extras@[e]).source == i
                        && extras@[e].basin == basins@[e - extras0.len() + 1]
                        && laid_from(extras@[e], hs, kept@, basin@, height_key@, levels@, parent@, rank@)
                        && lake_within(extras@[e], n as int),
                decreases basins@.len() - j,
            {
                let b = basins[j];
                proof {
                    assert(basins@.contains(b));
                }
                let pm = basin_members(&sub, basin, b);
                proof {
                    let q = choose|q: int| 0 <= q < sub@.len() && basin@[#[trigger] sub@[q] as int] == b;
                    assert(sub@.contains(sub@[q]));
                    assert(pm@.contains(sub@[q]));
                    assert(hs[i as int].members@.contains(sub@[q]));
                    let r = choose|r: int| 0 <= r < hs[i as int].members@.len() && hs[i as int].members@[r] == sub@[q];
                    assert(has_pocket(hs[i as int].members@, height_key@, basin@, b)) by {
                        assert(height_key@[hs[i as int].members@[r] as int] <= DATUM_KEY);
                    }
                }
                let entry = first_taken(&pm, rank);
                let outlet = if parent[entry as usize] == NO_NODE { entry } else { parent[entry as usize] };
                let lake = Lake {
                    members: pm,
                    entry,
                    outlet,
                    level_key: DATUM_KEY,
                    enclosed: true,
                    kept: true,
                    source: i as u32,
                    basin: b,
                };
                proof {
                    assert(lake.members@.contains(entry));
                    let q = choose|q: int| 0 <= q < lake.members@.len() && lake.members@[q] == entry;
                    assert(lake.members@[q] < n);
                    assert(lake_within(lake, n as int));
                    assert(is_pocket(lake, hs[i as int].members@, height_key@, basin@, rank@, parent@));
                    assert(laid_from(lake, hs, kept@, basin@, height_key@, levels@, parent@, rank@));
                }
                if j == 0 {
                    lakes.push(lake);
                } else {
                    extras.push(lake);
                }
                j += 1;
            }
            proof {
                assert forall|e: int| 0 <= e < extras@.len() implies laid_from(#[trigger] extras@[e], hs, kept@, basin@, height_key@, levels@, parent@, rank@)
                    && lake_within(extras@[e], n as int) && extras@[e].source < i + 1 && splits(hs, kept@, height_key@, extras@[e].source as int) by {
                    if e < extras0.len() {
                        assert(extras@[e] == extras0[e]);
                    }
                }
                assert forall|a: int, b: int|
                    0 <= a < b < extras@.len() implies (#[trigger] extras@[a]).source < (#[trigger] extras@[b]).source || (
                    extras@[a].source == extras@[b].source && extras@[a].basin < extras@[b].basin) by {
                    if b < extras0.len() {
                        assert(extras@[a] == extras0[a]);
                        assert(extras@[b] == extras0[b]);
                    } else if a < extras0.len() {
                        assert(extras@[a] == extras0[a]);
                    } else {
                        assert(basins@[a - extras0.len() + 1] < basins@[b - extras0.len() + 1]);
                    }
                }
                assert forall|l: int| 0 <= l < lakes@.len() implies laid_from(#[trigger] lakes@[l], hs, kept@, basin@, height_key@, levels@, parent@, rank@)
                    && lake_within(lakes@[l], n as int) && lakes@[l].source == l by {
                    if l < i {
                        assert(lakes@[l] == lakes0[l]);
                    }
                }
                assert forall|b: u32|
                    #[trigger] has_pocket(hs[i as int].members@, height_key@, basin@, b)
                    implies lakes@[i as int].basin == b || exists|e: int| 0 <= e < extras@.len() && (#[trigger] extras@[e]).source == i && extras@[e].basin == b by {
                    let ms = hs[i as int].members@;
                    let q = choose|q: int| 0 <= q < ms.len() && height_key@[#[trigger] ms[q] as int] <= DATUM_KEY && basin@[ms[q] as int] == b;
                    assert(ms.contains(ms[q]));
                    assert(sub@.contains(ms[q]));
                    let r = choose|r: int| 0 <= r < sub@.len() && sub@[r] == ms[q];
                    assert(basin@[sub@[r] as int] == b);
                    assert(basins@.contains(b));
                    let t = choose|t: int| 0 <= t < basins@.len() && basins@[t] == b;
                    if t > 0 {
                        let e = extras0.len() + t - 1;
                        assert(extras@[e].source == i && extras@[e].basin == b);
                    }
                }
                assert forall|e: int| 0 <= e < extras@.len() implies lakes@[(#[trigger] extras@[e]).source as int].basin < extras@[e].basin by {
                    if e >= extras0.len() {
                        assert(basins@[0] < basins@[e - extras0.len() + 1]);
                    } else {
                        assert(extras@[e] == extras0[e]);
                    }
                }
            }
        } else {
            let level = if k && enclosed { DATUM_KEY } else { levels[i] };
            let mut members: Vec<u32> = Vec::new();
            if k {
                members = under_water_members(&hollows[i].members, height_key, level, enclosed);
            }
            let lake = Lake {
                members,
                entry: hollows[i].entry,
                outlet: hollows[i].outlet,
                level_key: level,
                enclosed,
                kept: k,
                source: i as u32,
                basin: NO_BASIN,
            };
            proof {
                assert(!splits(hs, kept@, height_key@, i as int));
                assert(is_whole(lake, hs[i as int].members@, hs[i as int].entry, hs[i as int].outlet, enclosed, k, height_key@, levels@[i as int]));
                assert(lake_within(lake, n as int));
            }
            lakes.push(lake);
            proof {
                assert forall|h: int, b: u32|
                    0 <= h < i + 1 && splits(hs, kept@, height_key@, h) && #[trigger] has_pocket(hs[h].members@, height_key@, basin@, b)
                    implies lakes@[h].basin == b || exists|e: int| 0 <= e < extras@.len() && (#[trigger] extras@[e]).source == h && extras@[e].basin == b by {
                    if h == i {
                        let ms = hs[h].members@;
                        let q = choose|q: int| 0 <= q < ms.len() && height_key@[#[trigger] ms[q] as int] <= DATUM_KEY && basin@[ms[q] as int] == b;
                        assert(has_submerged(ms, height_key@));
                    }
                }
            }
        }
        i += 1;
    }
    proof {
        assert(hs.take(hs.len() as int) =~= hs);
    }
    let ghost base = lakes@;
    let ghost more = extras@;
    lakes.append(&mut extras);
    proof {
        assert forall|a: int, b: int| 0 <= a < b < more.len() implies (#[trigger] lakes@[hs.len() + a]).source < (#[trigger] lakes@[hs.len() + b]).source || (
            lakes@[hs.len() + a].source == lakes@[hs.len() + b].source && lakes@[hs.len() + a].basin < lakes@[hs.len() + b].basin) by {
            assert(lakes@[hs.len() + a] == more[a]);
            assert(lakes@[hs.len() + b] == more[b]);
        }
        assert forall|l: int| 0 <= l < lakes@.len() implies laid_from(#[trigger] lakes@[l], hs, kept@, basin@, height_key@, levels@, parent@, rank@) && lake_within(lakes@[l], n as int) by {
            if l >= hs.len() {
                assert(lakes@[l] == more[l - hs.len()]);
            } else {
                assert(lakes@[l] == base[l]);
            }
        }
        assert forall|h: int, b: u32|
            0 <= h < hs.len() && splits(hs, kept@, height_key@, h) && #[trigger] has_pocket(hs[h].members@, height_key@, basin@, b)
            implies exists|l: int| 0 <= l < lakes@.len() && (#[trigger] lakes@[l]).source == h && lakes@[l].basin == b by {
            if base[h].basin == b {
                assert(lakes@[h] == base[h]);
            } else {
                let e = choose|e: int| 0 <= e < more.len() && (#[trigger] more[e]).source == h && more[e].basin == b;
                assert(lakes@[hs.len() + e] == more[e]);
            }
        }
        assert forall|l: int, m: int|
            hs.len() <= m < lakes@.len() && (#[trigger] lakes@[m]).source == l implies (#[trigger] lakes@[l]).basin < lakes@[m].basin by {
            assert(lakes@[m] == more[m - hs.len()]);
            assert(lakes@[l] == base[l]);
        }
        assert forall|a: int, b: int|
            hs.len() <= a < b < lakes@.len() implies (#[trigger] lakes@[a]).source < (#[trigger] lakes@[b]).source || (
            lakes@[a].source == lakes@[b].source && lakes@[a].basin < lakes@[b].basin) by {
            assert(lakes@[a] == more[a - hs.len()]);
            assert(lakes@[b] == more[b - hs.len()]);
        }
    }
    lakes
}

proof fn lemma_member_total_prefix(hs: Seq<HollowShape>, i: int)
    requires
        0 < i <= hs.len(),
    ensures
        member_total(hs.take(i)) == member_total(hs.take(i - 1)) + hs[i - 1].members@.len(),
        member_total(hs.take(i)) <= member_total(hs),
    decreases hs.len() - i,
{
    assert(hs.take(i).drop_last() =~= hs.take(i - 1));
    if i < hs.len() {
        lemma_member_total_prefix(hs, i + 1);
    } else {
        assert(hs.take(i) =~= hs);
    }
}

/// The last of the first `upto` lakes that is kept and holds node `x`, or `NO_LAKE`.
pub open spec fn lake_holding(lakes: Seq<Lake>, x: int, upto: int) -> u32
    decreases upto,
{
    if upto <= 0 {
        NO_LAKE
    } else if lakes[upto - 1].kept && lakes[upto - 1].members@.contains(x as u32) {
        (upto - 1) as u32
    } else {
        lake_holding(lakes, x, upto - 1)
    }
}

/// Node `x` is the entry of a kept lake in an enclosed basin: its water stays there.
pub open spec fn sink_at(lakes: Seq<Lake>, x: int) -> bool {
    exists|l: int| 0 <= l < lakes.len() && (#[trigger] lakes[l]).kept && lakes[l].enclosed && lakes[l].entry == x
}

/// The outlet of the last of the first `upto` kept open lakes entered at `x`, if any.
pub open spec fn exit_at(lakes: Seq<Lake>, x: int, upto: int) -> Option<u32>
    decreases upto,
{
    if upto <= 0 {
        None
    } else if lakes[upto - 1].kept && !lakes[upto - 1].enclosed && lakes[upto - 1].entry == x {
        Some(lakes[upto - 1].outlet)
    } else {
        exit_at(lakes, x, upto - 1)
    }
}

/// Where node `x` sends its water before any cut: nowhere from the sea or a closed basin's
/// entry, over the outlet from an open lake's entry, to its parent inside a lake, and down its
/// steepest slope everywhere else.
pub open spec fn first_receiver(
    ocean: Seq<bool>,
    lake_of: Seq<u32>,
    parent: Seq<u32>,
    steepest: Seq<u32>,
    lakes: Seq<Lake>,
    x: int,
) -> u32 {
    if sink_at(lakes, x) {
        NO_NODE
    } else {
        match exit_at(lakes, x, lakes.len() as int) {
            Some(o) => o,
            None => if ocean[x] {
                NO_NODE
            } else if lake_of[x] != NO_LAKE {
                parent[x]
            } else {
                steepest[x]
            },
        }
    }
}

/// Where each drop goes: the hollows the lakes were laid out from (the pools last), the
/// lakes, each kept enclosed lake's way out, each node's lake (or `NO_LAKE`), the key of the
/// surface it stands at, the tree water is routed along, each node's receiver, the nodes a cut
/// committed, and each cut's path from the node it started at.
pub struct Routing {
    pub hollows: Vec<HollowShape>,
    pub lakes: Vec<Lake>,
    pub outlets: Vec<Vec<u32>>,
    pub lake_of: Vec<u32>,
    pub surface_key: Vec<u64>,
    pub parent: Vec<u32>,
    pub receiver: Vec<u32>,
    pub committed: Vec<bool>,
    pub cuts: Vec<Vec<u32>>,
    /// Each kept hollow of an enclosed basin with ground at or below the datum, flooded anew.
    pub shore_trees: Vec<Tree>,
    /// Each capped hollow, flooded anew from its floor, with its way out.
    pub capped_trees: Vec<CappedTree>,
    /// Each kept lake of an enclosed basin, flooded anew from its entry.
    pub pocket_trees: Vec<Tree>,
}

fn copy_nodes(v: &Vec<u32>) -> (out: Vec<u32>)
    ensures
        out@ == v@,
{
    let mut out: Vec<u32> = Vec::new();
    let mut i: usize = 0;
    while i < v.len()
        invariant
            i <= v@.len(),
            out@ == v@.take(i as int),
        decreases v@.len() - i,
    {
        out.push(v[i]);
        proof {
            assert(v@.take(i + 1) =~= v@.take(i as int).push(v@[i as int]));
        }
        i += 1;
    }
    proof {
        assert(v@.take(v@.len() as int) =~= v@);
    }
    out
}

/// Each node's lake, the last kept lake holding it, and the key of the surface it stands at:
/// its lake's level, or its own ground.
fn flatten_lakes(lakes: &Vec<Lake>, height_key: &Vec<u64>) -> (out: (Vec<u32>, Vec<u64>))
    requires
        lakes@.len() < u32::MAX,
        height_key@.len() <= u32::MAX,
        forall|l: int| 0 <= l < lakes@.len() ==> lake_within(#[trigger] lakes@[l], height_key@.len() as int),
    ensures
        out.0@.len() == height_key@.len(),
        out.1@.len() == height_key@.len(),
        forall|x: int| 0 <= x < height_key@.len() ==> #[trigger] out.0@[x] == lake_holding(lakes@, x, lakes@.len() as int),
        forall|x: int| 0 <= x < height_key@.len() ==> #[trigger] out.1@[x] == if out.0@[x] != NO_LAKE {
            lakes@[out.0@[x] as int].level_key
        } else {
            height_key@[x]
        },
{
    let n = height_key.len();
    let mut lake_of: Vec<u32> = Vec::new();
    let mut surface: Vec<u64> = Vec::new();
    let mut x: usize = 0;
    while x < n
        invariant
            x <= n,
            n == height_key@.len(),
            lake_of@.len() == x,
            surface@.len() == x,
            forall|y: int| 0 <= y < x ==> #[trigger] lake_of@[y] == NO_LAKE && surface@[y] == height_key@[y],
        decreases n - x,
    {
        let ghost (l0, s0) = (lake_of@, surface@);
        lake_of.push(NO_LAKE);
        surface.push(height_key[x]);
        proof {
            assert forall|y: int| 0 <= y < x + 1 implies #[trigger] lake_of@[y] == NO_LAKE && surface@[y] == height_key@[y] by {
                if y < x {
                    assert(lake_of@[y] == l0[y] && surface@[y] == s0[y]);
                }
            }
        }
        x += 1;
    }
    let mut l: usize = 0;
    while l < lakes.len()
        invariant
            l <= lakes@.len(),
            lakes@.len() < u32::MAX,
            n == height_key@.len(),
            n <= u32::MAX,
            forall|m: int| 0 <= m < lakes@.len() ==> lake_within(#[trigger] lakes@[m], n as int),
            lake_of@.len() == n,
            surface@.len() == n,
            forall|y: int| 0 <= y < n ==> #[trigger] lake_of@[y] == lake_holding(lakes@, y, l as int),
            forall|y: int| 0 <= y < n ==> #[trigger] surface@[y] == if lake_of@[y] != NO_LAKE {
                lakes@[lake_of@[y] as int].level_key
            } else {
                height_key@[y]
            },
        decreases lakes@.len() - l,
    {
        if lakes[l].kept {
            let ms = &lakes[l].members;
            let level = lakes[l].level_key;
            let mut k: usize = 0;
            while k < ms.len()
                invariant
                    l < lakes@.len(),
                    lakes@.len() < u32::MAX,
                    n == height_key@.len(),
                    n <= u32::MAX,
                    ms@ == lakes@[l as int].members@,
                    level == lakes@[l as int].level_key,
                    lakes@[l as int].kept,
                    lake_within(lakes@[l as int], n as int),
                    k <= ms@.len(),
                    lake_of@.len() == n,
                    surface@.len() == n,
                    forall|y: int| 0 <= y < n ==> #[trigger] lake_of@[y] == if exists|q: int| 0 <= q < k && #[trigger] ms@[q] == y as u32 {
                        l as u32
                    } else {
                        lake_holding(lakes@, y, l as int)
                    },
                    forall|y: int| 0 <= y < n ==> #[trigger] surface@[y] == if lake_of@[y] != NO_LAKE {
                        lakes@[lake_of@[y] as int].level_key
                    } else {
                        height_key@[y]
                    },
                decreases ms@.len() - k,
            {
                let m = ms[k];
                proof {
                    assert(ms@[k as int] < n);
                }
                lake_of.set(m as usize, l as u32);
                surface.set(m as usize, level);
                proof {
                    assert forall|y: int| 0 <= y < n implies #[trigger] lake_of@[y] == if exists|q: int| 0 <= q < k + 1 && #[trigger] ms@[q] == y as u32 {
                        l as u32
                    } else {
                        lake_holding(lakes@, y, l as int)
                    } by {
                        if y != m as int {
                            if exists|q: int| 0 <= q < k + 1 && #[trigger] ms@[q] == y as u32 {
                                let q = choose|q: int| 0 <= q < k + 1 && #[trigger] ms@[q] == y as u32;
                                assert(q < k);
                            }
                        } else {
                            assert(ms@[k as int] == y as u32);
                        }
                    }
                }
                k += 1;
            }
            proof {
                assert forall|y: int| 0 <= y < n implies #[trigger] lake_of@[y] == lake_holding(lakes@, y, l + 1) by {
                    if ms@.contains(y as u32) {
                        let q = choose|q: int| 0 <= q < ms@.len() && ms@[q] == y as u32;
                        assert(exists|q: int| 0 <= q < ms@.len() && #[trigger] ms@[q] == y as u32);
                    }
                }
            }
        }
        l += 1;
    }
    (lake_of, surface)
}

/// Each node's receiver before any cut, as [`first_receiver`] says.
fn first_receivers(
    ocean: &Vec<bool>,
    lake_of: &Vec<u32>,
    parent: &Vec<u32>,
    steepest: &Vec<u32>,
    lakes: &Vec<Lake>,
) -> (receiver: Vec<u32>)
    requires
        lake_of@.len() == ocean@.len(),
        parent@.len() == ocean@.len(),
        steepest@.len() == ocean@.len(),
        forall|l: int| 0 <= l < lakes@.len() ==> lake_within(#[trigger] lakes@[l], ocean@.len() as int),
    ensures
        receiver@.len() == ocean@.len(),
        forall|x: int| 0 <= x < ocean@.len() ==> #[trigger] receiver@[x] == first_receiver(ocean@, lake_of@, parent@, steepest@, lakes@, x),
{
    let n = ocean.len();
    let mut receiver: Vec<u32> = Vec::new();
    let mut x: usize = 0;
    while x < n
        invariant
            x <= n,
            n == ocean@.len(),
            lake_of@.len() == n,
            parent@.len() == n,
            steepest@.len() == n,
            receiver@.len() == x,
            forall|y: int| 0 <= y < x ==> #[trigger] receiver@[y] == if ocean@[y] {
                NO_NODE
            } else if lake_of@[y] != NO_LAKE {
                parent@[y]
            } else {
                steepest@[y]
            },
        decreases n - x,
    {
        let r = if ocean[x] {
            NO_NODE
        } else if lake_of[x] != NO_LAKE {
            parent[x]
        } else {
            steepest[x]
        };
        receiver.push(r);
        x += 1;
    }
    let ghost base = receiver@;
    let mut l: usize = 0;
    while l < lakes.len()
        invariant
            l <= lakes@.len(),
            n == ocean@.len(),
            receiver@.len() == n,
            forall|m: int| 0 <= m < lakes@.len() ==> lake_within(#[trigger] lakes@[m], n as int),
            forall|y: int| 0 <= y < n ==> #[trigger] receiver@[y] == match exit_at(lakes@, y, l as int) {
                Some(o) => o,
                None => base[y],
            },
        decreases lakes@.len() - l,
    {
        if lakes[l].kept && !lakes[l].enclosed {
            proof {
                assert(lake_within(lakes@[l as int], n as int));
            }
            receiver.set(lakes[l].entry as usize, lakes[l].outlet);
        }
        l += 1;
    }
    let ghost exits = receiver@;
    let mut l: usize = 0;
    while l < lakes.len()
        invariant
            l <= lakes@.len(),
            n == ocean@.len(),
            receiver@.len() == n,
            forall|m: int| 0 <= m < lakes@.len() ==> lake_within(#[trigger] lakes@[m], n as int),
            forall|y: int| 0 <= y < n ==> #[trigger] receiver@[y] == if exists|m: int| 0 <= m < l && (#[trigger] lakes@[m]).kept && lakes@[m].enclosed && lakes@[m].entry == y {
                NO_NODE
            } else {
                exits[y]
            },
        decreases lakes@.len() - l,
    {
        if lakes[l].kept && lakes[l].enclosed {
            proof {
                assert(lake_within(lakes@[l as int], n as int));
            }
            receiver.set(lakes[l].entry as usize, NO_NODE);
        }
        proof {
            assert forall|y: int| 0 <= y < n implies #[trigger] receiver@[y] == if exists|m: int| 0 <= m < l + 1 && (#[trigger] lakes@[m]).kept && lakes@[m].enclosed && lakes@[m].entry == y {
                NO_NODE
            } else {
                exits[y]
            } by {
                if exists|m: int| 0 <= m < l + 1 && (#[trigger] lakes@[m]).kept && lakes@[m].enclosed && lakes@[m].entry == y {
                    let m = choose|m: int| 0 <= m < l + 1 && (#[trigger] lakes@[m]).kept && lakes@[m].enclosed && lakes@[m].entry == y;
                    if m < l {
                        assert(exists|m2: int| 0 <= m2 < l && (#[trigger] lakes@[m2]).kept && lakes@[m2].enclosed && lakes@[m2].entry == y);
                    }
                }
            }
        }
        l += 1;
    }
    receiver
}

/// `parent` is the tree a flood from `seeds` grew, having left `spill` and `reached`: a seed
/// and a node never reached have no parent; every other reached node takes a reached
/// neighbour, the one the flood raised it from; and every reached node leads back to a seed.
pub open spec fn flood_tree(rows: Seq<Seq<u32>>, height: Seq<u64>, seeds: Seq<(u32, u64)>, spill: Seq<u64>, reached: Seq<bool>,
    parent: Seq<u32>) -> bool {
    &&& parent.len() == height.len()
    &&& forall|x: int| 0 <= x < height.len() && #[trigger] seed_node(seeds, x) ==> parent[x] == NO_NODE
    &&& forall|x: int|
        0 <= x < height.len() && !seed_node(seeds, x) && #[trigger] reached[x] ==> {
            &&& parent[x] < height.len()
            &&& reached[parent[x] as int]
            &&& rows[x].contains(parent[x])
            &&& raised_from(seeds, height, spill, x, parent[x] as int)
        }
    &&& forall|x: int| 0 <= x < height.len() && !seed_node(seeds, x) && !#[trigger] reached[x] ==> parent[x] == NO_NODE
    &&& forall|x: int| 0 <= x < height.len() && #[trigger] reached[x] ==> leads_back(parent, seeds, x)
}

/// A hollow flooded anew: which hollow, and the levels, reach and tree that flood left.
pub struct Tree {
    pub source: u32,
    pub spill: Vec<u64>,
    pub reached: Vec<bool>,
    pub parent: Vec<u32>,
}

/// `t` is a kept hollow of an enclosed basin flooded anew from its ground at or below the
/// datum, confined to the hollow.
pub open spec fn shore_tree(rows: Seq<Seq<u32>>, height: Seq<u64>, hollows: Seq<HollowShape>, kept: Seq<bool>, t: Tree) -> bool {
    let h = t.source as int;
    let ms = hollows[h].members@;
    &&& 0 <= h < hollows.len()
    &&& kept[h]
    &&& hollows[h].enclosed
    &&& has_submerged(ms, height)
    &&& reflooded(rows, height, submerged_seeds(ms, height), allowed_of(ms, height.len() as int), t.spill@, t.reached@)
    &&& flood_tree(rows, height, submerged_seeds(ms, height), t.spill@, t.reached@, t.parent@)
}

/// Node `x` takes its parent from tree `t` of a hollow among `hollows`: it lies in the hollow,
/// the flood reached it, and gave it a parent.
pub open spec fn takes_from(hollows: Seq<HollowShape>, t: Tree, x: int) -> bool {
    &&& hollows[t.source as int].members@.contains(x as u32)
    &&& t.reached@[x]
    &&& t.parent@[x] != NO_NODE
}

/// Node `x`'s parent once `trees` (the first `upto` of them) are laid over `parent`: the
/// last of them it takes its parent from, or `parent` where it takes from none.
pub open spec fn retreed(trees: Seq<Tree>, hollows: Seq<HollowShape>, parent: Seq<u32>, x: int, upto: int) -> u32
    decreases upto,
{
    if upto <= 0 {
        parent[x]
    } else if takes_from(hollows, trees[upto - 1], x) {
        trees[upto - 1].parent@[x]
    } else {
        retreed(trees, hollows, parent, x, upto - 1)
    }
}

proof fn lemma_retreed_prefix(a: Seq<Tree>, b: Seq<Tree>, hollows: Seq<HollowShape>, parent: Seq<u32>, x: int, upto: int)
    requires
        0 <= upto <= a.len(),
        upto <= b.len(),
        forall|i: int| 0 <= i < upto ==> a[i] == b[i],
    ensures
        retreed(a, hollows, parent, x, upto) == retreed(b, hollows, parent, x, upto),
    decreases upto,
{
    if upto > 0 {
        lemma_retreed_prefix(a, b, hollows, parent, x, upto - 1);
    }
}

/// A capped hollow flooded anew from its floor, and its way out from the floor.
pub struct CappedTree {
    pub tree: Tree,
    pub escape: Vec<u32>,
}

/// `c` is capped hollow `c.tree.source` flooded anew from its floor, confined to the hollow,
/// with its way out from the floor along `walk`.
pub open spec fn capped_tree(rows: Seq<Seq<u32>>, height: Seq<u64>, walk: Seq<u32>, hollows: Seq<HollowShape>, capped: Seq<bool>,
    c: CappedTree) -> bool {
    let t = c.tree;
    let h = t.source as int;
    let hollow = hollows[h];
    let seeds = seq![(hollow.floor, height[hollow.floor as int])];
    &&& 0 <= h < hollows.len()
    &&& capped[h]
    &&& reflooded(rows, height, seeds, allowed_of(hollow.members@, height.len() as int), t.spill@, t.reached@)
    &&& flood_tree(rows, height, seeds, t.spill@, t.reached@, t.parent@)
    &&& is_escape(walk, hollow, c.escape@)
}

/// Node `x`'s parent once the capped `trees` (the first `upto`) are laid over `parent`: as
/// [`retreed`], but a node on a hollow's way out keeps what it had.
pub open spec fn capped_retreed(trees: Seq<CappedTree>, hollows: Seq<HollowShape>, parent: Seq<u32>, x: int, upto: int) -> u32
    decreases upto,
{
    if upto <= 0 {
        parent[x]
    } else if takes_from(hollows, trees[upto - 1].tree, x) && !trees[upto - 1].escape@.contains(x as u32) {
        trees[upto - 1].tree.parent@[x]
    } else {
        capped_retreed(trees, hollows, parent, x, upto - 1)
    }
}

proof fn lemma_capped_retreed_prefix(a: Seq<CappedTree>, b: Seq<CappedTree>, hollows: Seq<HollowShape>, parent: Seq<u32>, x: int,
    upto: int)
    requires
        0 <= upto <= a.len(),
        upto <= b.len(),
        forall|i: int| 0 <= i < upto ==> a[i] == b[i],
    ensures
        capped_retreed(a, hollows, parent, x, upto) == capped_retreed(b, hollows, parent, x, upto),
    decreases upto,
{
    if upto > 0 {
        lemma_capped_retreed_prefix(a, b, hollows, parent, x, upto - 1);
    }
}

/// Whether `path` holds `x`.
fn on_path(path: &Vec<u32>, x: u32) -> (hit: bool)
    ensures
        hit == path@.contains(x),
{
    let mut j: usize = 0;
    while j < path.len()
        invariant
            j <= path@.len(),
            forall|b: int| 0 <= b < j ==> path@[b] != x,
        decreases path@.len() - j,
    {
        if path[j] == x {
            proof {
                assert(path@[j as int] == x);
            }
            return true;
        }
        j += 1;
    }
    false
}

/// Inside each kept hollow of an enclosed basin that has ground at or below the datum, in
/// order, the tree is flooded anew from all that ground, confined to the hollow: every member
/// that flood reached and gave a parent takes that parent, so the shore drains into the basin,
/// not over the rim. Every other node keeps `parent`. Returns the new parents and the floods.
pub fn shore_parents(
    graph: &LandGraph,
    height_key: &Vec<u64>,
    hollows: &Vec<HollowShape>,
    kept: &Vec<bool>,
    parent: &Vec<u32>,
) -> (out: (Vec<u32>, Vec<Tree>))
    requires
        height_key@.len() == graph.node_count(),
        parent@.len() == graph.node_count(),
        graph.node_count() <= u32::MAX,
        kept@.len() == hollows@.len(),
        hollows@.len() <= u32::MAX,
        hollows_in_range(hollows@, graph.node_count()),
        forall|x: int| 0 <= x < graph.node_count() ==> #[trigger] parent@[x] == NO_NODE || parent@[x] < graph.node_count(),
    ensures
        out.0@.len() == graph.node_count(),
        forall|x: int| 0 <= x < graph.node_count() ==> #[trigger] out.0@[x] == NO_NODE || out.0@[x] < graph.node_count(),
        forall|s: int| 0 <= s < out.1@.len() ==> #[trigger] shore_tree(graph.rows(), height_key@, hollows@, kept@, out.1@[s]),
        forall|a: int, b: int| 0 <= a < b < out.1@.len() ==> (#[trigger] out.1@[a]).source < (#[trigger] out.1@[b]).source,
        forall|h: int|
            0 <= h < hollows@.len() && kept@[h] && hollows@[h].enclosed && #[trigger] has_submerged(hollows@[h].members@, height_key@)
                ==> exists|s: int| 0 <= s < out.1@.len() && (#[trigger] out.1@[s]).source == h,
        forall|x: int| 0 <= x < graph.node_count() ==> #[trigger] out.0@[x] == retreed(out.1@, hollows@, parent@, x, out.1@.len() as int),
{
    let n = graph.len();
    let mut out = copy_nodes(parent);
    let mut trees: Vec<Tree> = Vec::new();
    let mut h: usize = 0;
    while h < hollows.len()
        invariant
            h <= hollows@.len(),
            hollows@.len() <= u32::MAX,
            n == graph.node_count(),
            n <= u32::MAX,
            height_key@.len() == n,
            parent@.len() == n,
            out@.len() == n,
            kept@.len() == hollows@.len(),
            hollows_in_range(hollows@, n as int),
            forall|x: int| 0 <= x < n ==> #[trigger] out@[x] == NO_NODE || out@[x] < n,
            forall|s: int| 0 <= s < trees@.len() ==> #[trigger] shore_tree(graph.rows(), height_key@, hollows@, kept@, trees@[s]),
            forall|s: int| 0 <= s < trees@.len() ==> (#[trigger] trees@[s]).source < h,
            forall|a: int, b: int| 0 <= a < b < trees@.len() ==> (#[trigger] trees@[a]).source < (#[trigger] trees@[b]).source,
            forall|g: int|
                0 <= g < h && kept@[g] && hollows@[g].enclosed && #[trigger] has_submerged(hollows@[g].members@, height_key@)
                    ==> exists|s: int| 0 <= s < trees@.len() && (#[trigger] trees@[s]).source == g,
            forall|x: int| 0 <= x < n ==> #[trigger] out@[x] == retreed(trees@, hollows@, parent@, x, trees@.len() as int),
        decreases hollows@.len() - h,
    {
        if kept[h] && hollows[h].enclosed {
            let ms = &hollows[h].members;
            proof {
                assert(ascending(hollows@[h as int].members@));
            }
            let (allowed, _) = inside_and_outside(ms, n);
            let mut seeds: Vec<(u32, u64)> = Vec::new();
            let mut k: usize = 0;
            while k < ms.len()
                invariant
                    k <= ms@.len(),
                    ms@ == hollows@[h as int].members@,
                    h < hollows@.len(),
                    hollows_in_range(hollows@, n as int),
                    height_key@.len() == n,
                    seeds@ == submerged_seeds(ms@.take(k as int), height_key@),
                decreases ms@.len() - k,
            {
                let m = ms[k];
                proof {
                    assert(ms@.take(k + 1).drop_last() =~= ms@.take(k as int));
                    assert(ms@.take(k + 1).last() == m);
                    assert(m < n);
                }
                if height_key[m as usize] <= DATUM_KEY {
                    seeds.push((m, DATUM_KEY));
                }
                k += 1;
            }
            proof {
                assert(ms@.take(ms@.len() as int) =~= ms@);
                lemma_submerged_seeds(ms@, height_key@);
                assert(allowed@ =~= allowed_of(ms@, n as int));
                assert forall|j: int| 0 <= j < seeds@.len() implies #[trigger] seeds@[j].0 < n by {
                    assert(ms@.contains(seeds@[j].0));
                    let q = choose|q: int| 0 <= q < ms@.len() && ms@[q] == seeds@[j].0;
                    assert(ms@[q] < n);
                }
            }
            if seeds.len() > 0 {
                let sub = flood(graph, height_key, &seeds, &allowed);
                let ghost before = out@;
                let mut x: usize = 0;
                while x < n
                    invariant
                        x <= n,
                        n == graph.node_count(),
                        out@.len() == n,
                        allowed@.len() == n,
                        sub.parent@.len() == n,
                        sub.reached@.len() == n,
                        before.len() == n,
                        forall|y: int| 0 <= y < n ==> #[trigger] allowed@[y] == ms@.contains(y as u32),
                        forall|y: int| 0 <= y < n && seed_node(seeds@, y) ==> #[trigger] sub.parent@[y] == NO_NODE,
                        forall|y: int| 0 <= y < n && !seed_node(seeds@, y) && #[trigger] sub.reached@[y] ==> sub.parent@[y] < n,
                        forall|y: int| 0 <= y < n ==> #[trigger] before[y] == NO_NODE || before[y] < n,
                        forall|y: int| 0 <= y < x ==> #[trigger] out@[y] == if ms@.contains(y as u32) && sub.reached@[y]
                            && sub.parent@[y] != NO_NODE {
                            sub.parent@[y]
                        } else {
                            before[y]
                        },
                        forall|y: int| x <= y < n ==> #[trigger] out@[y] == before[y],
                    decreases n - x,
                {
                    if allowed[x] && sub.reached[x] && sub.parent[x] != NO_NODE {
                        let p = sub.parent[x];
                        out.set(x, p);
                    }
                    x += 1;
                }
                let t = Tree { source: h as u32, spill: sub.spill_key, reached: sub.reached, parent: sub.parent };
                proof {
                    assert(shore_tree(graph.rows(), height_key@, hollows@, kept@, t));
                }
                let ghost old_trees = trees@;
                trees.push(t);
                proof {
                    assert forall|y: int| 0 <= y < n implies #[trigger] out@[y] == retreed(trees@, hollows@, parent@, y,
                        trees@.len() as int) by {
                        lemma_retreed_prefix(old_trees, trees@, hollows@, parent@, y, old_trees.len() as int);
                        assert(trees@[old_trees.len() as int] == t);
                    }
                    assert forall|y: int| 0 <= y < n implies #[trigger] out@[y] == NO_NODE || out@[y] < n by {
                        if ms@.contains(y as u32) && t.reached@[y] && t.parent@[y] != NO_NODE {
                            if seed_node(seeds@, y) {
                            }
                        }
                    }
                    assert forall|g: int|
                        0 <= g < h + 1 && kept@[g] && hollows@[g].enclosed && #[trigger] has_submerged(hollows@[g].members@,
                            height_key@) implies exists|s: int| 0 <= s < trees@.len() && (#[trigger] trees@[s]).source == g by {
                        if g < h {
                            let s = choose|s: int| 0 <= s < old_trees.len() && (#[trigger] old_trees[s]).source == g;
                            assert(trees@[s] == old_trees[s]);
                        } else {
                            assert(trees@[old_trees.len() as int].source == g);
                        }
                    }
                }
            } else {
                proof {
                    lemma_submerged_seeds(ms@, height_key@);
                }
            }
        }
        h += 1;
    }
    (out, trees)
}

/// `spill` and `reached` are what a flood of `rows` from `seeds` into the nodes `allowed` lets
/// in leaves: each seed reached at its own level; every node some way in from a seed reaches
/// reached, at no higher a level than that way's top; every other reached node at the top of
/// some such way; and a node never reached at its own ground.
pub open spec fn reflooded(rows: Seq<Seq<u32>>, height: Seq<u64>, seeds: Seq<(u32, u64)>, allowed: Seq<bool>, spill: Seq<u64>,
    reached: Seq<bool>) -> bool {
    &&& spill.len() == height.len()
    &&& reached.len() == height.len()
    &&& forall|x: int| 0 <= x < height.len() && #[trigger] seed_node(seeds, x) ==> reached[x] && seed_level(seeds, x, spill[x])
    &&& forall|path: Seq<u32>, level: u64|
        #[trigger] is_way_in(rows, seeds, allowed, path, level) ==> reached[path.last() as int] && spill[path.last() as int]
            <= way_top(height, path, level)
    &&& forall|x: int|
        0 <= x < height.len() && !seed_node(seeds, x) && #[trigger] reached[x] ==> exists|path: Seq<u32>, level: u64|
            #[trigger] is_way_in(rows, seeds, allowed, path, level) && path.last() == x && way_top(height, path, level) == spill[x]
    &&& forall|x: int| 0 <= x < height.len() && !seed_node(seeds, x) && #[trigger] reached[x] ==> allowed[x]
    &&& forall|x: int| 0 <= x < height.len() && !seed_node(seeds, x) && !#[trigger] reached[x] ==> spill[x] == height[x]
}

/// `pool` is one hollow a flood that left `spill` and `reached` raised: a joined run of raised
/// nodes at one level, not of an enclosed basin, standing at `level`, its entry's.
pub open spec fn holds_pool(rows: Seq<Seq<u32>>, ocean: Seq<bool>, height: Seq<u64>, spill: Seq<u64>, reached: Seq<bool>,
    pool: HollowShape, level: u64) -> bool {
    let raised = raised_nodes(reached, spill, height, ocean);
    &&& pool.members@.len() > 0
    &&& ascending(pool.members@)
    &&& forall|k: int| 0 <= k < pool.members@.len() ==> #[trigger] pool.members@[k] < height.len()
    &&& forall|x: int| 0 <= x < height.len() ==> (pool.members@.contains(x as u32) <==> raised[x] && connected(rows, raised,
        spill, pool.members@[0] as int, x))
    &&& pool.members@.contains(pool.floor)
    &&& pool.members@.contains(pool.entry)
    &&& level == spill[pool.entry as int]
    &&& !pool.enclosed
}

/// None of `members` stands at or below the datum.
pub open spec fn dry(members: Seq<u32>, height: Seq<u64>) -> bool {
    forall|k: int| 0 <= k < members.len() ==> height[#[trigger] members[k] as int] > DATUM_KEY
}

/// Every node the flood raised lies in one of `pools` -- or, where only `dry` pools are kept,
/// is joined at its level to a raised node at or below the datum.
pub open spec fn pools_cover(rows: Seq<Seq<u32>>, ocean: Seq<bool>, height: Seq<u64>, spill: Seq<u64>, reached: Seq<bool>,
    pools: Seq<HollowShape>, dry_only: bool) -> bool {
    let raised = raised_nodes(reached, spill, height, ocean);
    forall|x: int|
        0 <= x < height.len() && #[trigger] raised[x] ==> (exists|i: int| 0 <= i < pools.len() && #[trigger] pools[i].members@.contains(
            x as u32)) || (dry_only && exists|z: int, y: int|
            #[trigger] connected(rows, raised, spill, z, x) && #[trigger] connected(rows, raised, spill, z, y) && 0 <= y
                < height.len() && raised[y] && height[y] <= DATUM_KEY)
}

/// A member of a hollow whose members are exactly the raised nodes joined to its first one is
/// raised and joined to it.
proof fn lemma_member_joined(m: Seq<u32>, raised: Seq<bool>, spill: Seq<u64>, rows: Seq<Seq<u32>>, n: int, y: int)
    requires
        m.len() > 0,
        0 <= y < n,
        m.contains(y as u32),
        forall|x: int|
            #![trigger m.contains(x as u32)]
            0 <= x < n ==> (m.contains(x as u32) <==> raised[x] && connected(rows, raised, spill, m[0] as int, x)),
    ensures
        raised[y],
        connected(rows, raised, spill, m[0] as int, y),
{
}

/// A hollow flooded anew: which hollow, what the flood left, and the pools it raised with their
/// levels.
pub struct Reflood {
    pub source: u32,
    pub spill: Vec<u64>,
    pub reached: Vec<bool>,
    pub pools: Vec<HollowShape>,
    pub levels: Vec<u64>,
}

/// Floods `graph` anew from `seeds` into `allowed`, and gathers the hollows it raises as pools,
/// only the `dry` ones where `dry_only`.
#[verifier::spinoff_prover]
fn pools_from(
    graph: &LandGraph,
    ocean: &Vec<bool>,
    enclosed_basin: &Vec<u32>,
    height_key: &Vec<u64>,
    seeds: &Vec<(u32, u64)>,
    allowed: &Vec<bool>,
    dry_only: bool,
) -> (out: (Vec<HollowShape>, Vec<u64>, Vec<u64>, Vec<bool>))
    requires
        ocean@.len() == graph.node_count(),
        enclosed_basin@.len() == graph.node_count(),
        height_key@.len() == graph.node_count(),
        allowed@.len() == graph.node_count(),
        forall|k: int| 0 <= k < seeds@.len() ==> #[trigger] seeds@[k].0 < graph.node_count(),
    ensures
        reflooded(graph.rows(), height_key@, seeds@, allowed@, out.2@, out.3@),
        out.1@.len() == out.0@.len(),
        forall|i: int| 0 <= i < out.0@.len() ==> #[trigger] holds_pool(graph.rows(), ocean@, height_key@, out.2@, out.3@,
            out.0@[i], out.1@[i]),
        forall|i: int| 0 <= i < out.0@.len() && dry_only ==> dry((#[trigger] out.0@[i]).members@, height_key@),
        pools_cover(graph.rows(), ocean@, height_key@, out.2@, out.3@, out.0@, dry_only),
{
    let n = graph.len();
    let sub = flood(graph, height_key, seeds, allowed);
    let found = find_hollows(graph, ocean, enclosed_basin, height_key, &sub);
    let ghost raised = raised_nodes(sub.reached@, sub.spill_key@, height_key@, ocean@);
    let mut pools: Vec<HollowShape> = Vec::new();
    let mut levels: Vec<u64> = Vec::new();
    let mut f: usize = 0;
    while f < found.len()
        invariant
            f <= found@.len(),
            n == graph.node_count(),
            height_key@.len() == n,
            sub.spill_key@.len() == n,
            sub.reached@.len() == n,
            ocean@.len() == n,
            raised == raised_nodes(sub.reached@, sub.spill_key@, height_key@, ocean@),
            forall|g: int| 0 <= g < found@.len() ==> {
                let m = (#[trigger] found@[g]).members@;
                &&& m.len() > 0
                &&& ascending(m)
                &&& forall|k: int| 0 <= k < m.len() ==> #[trigger] m[k] < n
                &&& forall|x: int| 0 <= x < n ==> (m.contains(x as u32) <==> raised[x] && connected(graph.rows(), raised,
                    sub.spill_key@, m[0] as int, x))
                &&& m.contains(found@[g].floor)
                &&& m.contains(found@[g].entry)
            },
            levels@.len() == pools@.len(),
            forall|i: int| 0 <= i < pools@.len() ==> #[trigger] holds_pool(graph.rows(), ocean@, height_key@, sub.spill_key@,
                sub.reached@, pools@[i], levels@[i]),
            forall|i: int| 0 <= i < pools@.len() && dry_only ==> dry((#[trigger] pools@[i]).members@, height_key@),
            forall|g: int| 0 <= g < f && (!dry_only || dry(found@[g].members@, height_key@)) ==> exists|i: int|
                0 <= i < pools@.len() && (#[trigger] pools@[i]).members@ == (#[trigger] found@[g]).members@,
        decreases found@.len() - f,
    {
        let fm = &found[f].members;
        let mut is_dry = true;
        let mut k: usize = 0;
        while k < fm.len()
            invariant
                k <= fm@.len(),
                fm@ == found@[f as int].members@,
                height_key@.len() == n,
                forall|q: int| 0 <= q < fm@.len() ==> #[trigger] fm@[q] < n,
                is_dry == forall|q: int| 0 <= q < k ==> height_key@[#[trigger] fm@[q] as int] > DATUM_KEY,
            decreases fm@.len() - k,
        {
            if height_key[fm[k] as usize] <= DATUM_KEY {
                is_dry = false;
            }
            k += 1;
        }
        if !dry_only || is_dry {
            let entry = found[f].entry;
            proof {
                let qe = choose|q: int| 0 <= q < fm@.len() && fm@[q] == entry;
                assert(fm@[qe] < n);
            }
            let pool = HollowShape { members: copy_nodes(fm), floor: found[f].floor, entry, outlet: found[f].outlet, enclosed: false };
            let level = sub.spill_key[entry as usize];
            proof {
                assert(holds_pool(graph.rows(), ocean@, height_key@, sub.spill_key@, sub.reached@, pool, level));
            }
            let ghost before = pools@;
            pools.push(pool);
            levels.push(level);
            proof {
                assert(pools@[pools@.len() - 1].members@ == found@[f as int].members@);
                assert forall|g: int| 0 <= g < f + 1 && (!dry_only || dry(found@[g].members@, height_key@)) implies exists|i: int|
                    0 <= i < pools@.len() && (#[trigger] pools@[i]).members@ == (#[trigger] found@[g]).members@ by {
                    if g < f {
                        let i = choose|i: int| 0 <= i < before.len() && (#[trigger] before[i]).members@ == (#[trigger] found@[g]).members@;
                        assert(pools@[i] == before[i]);
                    } else {
                        assert(pools@[pools@.len() - 1].members@ == found@[g].members@);
                    }
                }
            }
        }
        f += 1;
    }
    proof {
        assert forall|x: int| 0 <= x < n && #[trigger] raised[x] implies (exists|i: int| 0 <= i < pools@.len()
            && #[trigger] pools@[i].members@.contains(x as u32)) || (dry_only && exists|z: int, y: int|
            #[trigger] connected(graph.rows(), raised, sub.spill_key@, z, x) && #[trigger] connected(graph.rows(), raised,
                sub.spill_key@, z, y) && 0 <= y < n && raised[y] && height_key@[y] <= DATUM_KEY) by {
            let g = choose|g: int| 0 <= g < found@.len() && (#[trigger] found@[g]).members@.contains(x as u32);
            let m = found@[g].members@;
            if !dry_only || dry(m, height_key@) {
                let i = choose|i: int| 0 <= i < pools@.len() && (#[trigger] pools@[i]).members@ == (#[trigger] found@[g]).members@;
                assert(pools@[i].members@.contains(x as u32));
            } else {
                let q = choose|q: int| 0 <= q < m.len() && !(height_key@[#[trigger] m[q] as int] > DATUM_KEY);
                let y = m[q] as int;
                assert(m[q] < n);
                assert(found@[g].members@.contains(y as u32)) by {
                    assert(found@[g].members@[q] == y as u32);
                }
                assert(found@[g].members@.len() > 0);
                lemma_member_joined(found@[g].members@, raised, sub.spill_key@, graph.rows(), n as int, y);
                lemma_member_joined(found@[g].members@, raised, sub.spill_key@, graph.rows(), n as int, x);
            }
        }
    }
    (pools, levels, sub.spill_key, sub.reached)
}

/// A pool on the shore of a kept hollow `h` of an enclosed basin: all above the datum, inside
/// the hollow, held above its ground at `level`.
pub open spec fn shore_pool_of(hollows: Seq<HollowShape>, kept: Seq<bool>, height: Seq<u64>, h: int, pool: HollowShape, level: u64) -> bool {
    &&& 0 <= h < hollows.len()
    &&& kept[h]
    &&& hollows[h].enclosed
    &&& !pool.enclosed
    &&& pool.members@.len() > 0
    &&& pool.members@.contains(pool.entry)
    &&& pool.members@.contains(pool.floor)
    &&& level > height[pool.entry as int]
    &&& forall|k: int| 0 <= k < pool.members@.len() ==> {
        &&& hollows[h].members@.contains(#[trigger] pool.members@[k])
        &&& height[pool.members@[k] as int] > DATUM_KEY
    }
}

/// The ground at or below the datum among `members`, in order, each seeded at the datum.
pub open spec fn submerged_seeds(members: Seq<u32>, height: Seq<u64>) -> Seq<(u32, u64)>
    decreases members.len(),
{
    if members.len() == 0 {
        Seq::empty()
    } else {
        let rest = submerged_seeds(members.drop_last(), height);
        if height[members.last() as int] <= DATUM_KEY {
            rest.push((members.last(), DATUM_KEY))
        } else {
            rest
        }
    }
}

/// Which nodes below `n` are among `members`.
pub open spec fn allowed_of(members: Seq<u32>, n: int) -> Seq<bool> {
    Seq::new(n as nat, |x: int| members.contains(x as u32))
}

proof fn lemma_submerged_seeds(members: Seq<u32>, height: Seq<u64>)
    ensures
        submerged_seeds(members, height).len() > 0 <==> has_submerged(members, height),
        forall|j: int| 0 <= j < submerged_seeds(members, height).len() ==> members.contains(
            (#[trigger] submerged_seeds(members, height)[j]).0) && submerged_seeds(members, height)[j].1 == DATUM_KEY,
    decreases members.len(),
{
    if members.len() > 0 {
        let init = members.drop_last();
        let last = members.last();
        lemma_submerged_seeds(init, height);
        assert(members[members.len() - 1] == last);
        if has_submerged(init, height) {
            let k = choose|k: int| 0 <= k < init.len() && height[#[trigger] init[k] as int] <= DATUM_KEY;
            assert(members[k] == init[k]);
        }
        if has_submerged(members, height) {
            let k = choose|k: int| 0 <= k < members.len() && height[#[trigger] members[k] as int] <= DATUM_KEY;
            if k < members.len() - 1 {
                assert(init[k] == members[k]);
            }
        }
        let rest = submerged_seeds(init, height);
        assert forall|j: int| 0 <= j < submerged_seeds(members, height).len() implies members.contains(
            (#[trigger] submerged_seeds(members, height)[j]).0) && submerged_seeds(members, height)[j].1 == DATUM_KEY by {
            if j < rest.len() {
                assert(submerged_seeds(members, height)[j] == rest[j]);
                let q = choose|q: int| 0 <= q < init.len() && init[q] == rest[j].0;
                assert(members[q] == init[q]);
            } else {
                assert(members.contains(last));
            }
        }
    }
}

/// `r` is a kept hollow of an enclosed basin flooded anew from its ground at or below the
/// datum, confined to the hollow, with the dry hollows that flood raised as its shore pools.
pub open spec fn shore_reflood(rows: Seq<Seq<u32>>, ocean: Seq<bool>, height: Seq<u64>, hollows: Seq<HollowShape>, kept: Seq<bool>,
    r: Reflood) -> bool {
    let h = r.source as int;
    let ms = hollows[h].members@;
    &&& 0 <= h < hollows.len()
    &&& kept[h]
    &&& hollows[h].enclosed
    &&& has_submerged(ms, height)
    &&& reflooded(rows, height, submerged_seeds(ms, height), allowed_of(ms, height.len() as int), r.spill@, r.reached@)
    &&& r.levels@.len() == r.pools@.len()
    &&& forall|i: int| 0 <= i < r.pools@.len() ==> {
        &&& #[trigger] holds_pool(rows, ocean, height, r.spill@, r.reached@, r.pools@[i], r.levels@[i])
        &&& dry(r.pools@[i].members@, height)
        &&& shore_pool_of(hollows, kept, height, h, r.pools@[i], r.levels@[i])
    }
    &&& pools_cover(rows, ocean, height, r.spill@, r.reached@, r.pools@, true)
}

/// The pools on the shores of the enclosed basins: each kept hollow of an enclosed basin that
/// has ground at or below the datum, in order, is flooded anew from all that ground, confined
/// to the hollow, and every hollow that flood raises with no ground at or below the datum is a
/// pool -- not of an enclosed basin itself, and standing at its entry's level in that flood.
pub fn shore_pools(
    graph: &LandGraph,
    ocean: &Vec<bool>,
    enclosed_basin: &Vec<u32>,
    height_key: &Vec<u64>,
    hollows: &Vec<HollowShape>,
    kept: &Vec<bool>,
) -> (subs: Vec<Reflood>)
    requires
        ocean@.len() == graph.node_count(),
        enclosed_basin@.len() == graph.node_count(),
        height_key@.len() == graph.node_count(),
        graph.node_count() <= u32::MAX,
        kept@.len() == hollows@.len(),
        hollows@.len() <= u32::MAX,
        hollows_in_range(hollows@, graph.node_count()),
    ensures
        forall|s: int| 0 <= s < subs@.len() ==> #[trigger] shore_reflood(graph.rows(), ocean@, height_key@, hollows@, kept@,
            subs@[s]),
        forall|a: int, b: int| 0 <= a < b < subs@.len() ==> (#[trigger] subs@[a]).source < (#[trigger] subs@[b]).source,
        forall|h: int|
            0 <= h < hollows@.len() && kept@[h] && hollows@[h].enclosed && #[trigger] has_submerged(hollows@[h].members@, height_key@)
                ==> exists|s: int| 0 <= s < subs@.len() && (#[trigger] subs@[s]).source == h,
{
    let n = graph.len();
    let mut subs: Vec<Reflood> = Vec::new();
    let mut h: usize = 0;
    while h < hollows.len()
        invariant
            h <= hollows@.len(),
            hollows@.len() <= u32::MAX,
            n == graph.node_count(),
            n <= u32::MAX,
            ocean@.len() == n,
            enclosed_basin@.len() == n,
            height_key@.len() == n,
            kept@.len() == hollows@.len(),
            hollows_in_range(hollows@, n as int),
            forall|s: int| 0 <= s < subs@.len() ==> #[trigger] shore_reflood(graph.rows(), ocean@, height_key@, hollows@, kept@,
                subs@[s]),
            forall|s: int| 0 <= s < subs@.len() ==> (#[trigger] subs@[s]).source < h,
            forall|a: int, b: int| 0 <= a < b < subs@.len() ==> (#[trigger] subs@[a]).source < (#[trigger] subs@[b]).source,
            forall|g: int|
                0 <= g < h && kept@[g] && hollows@[g].enclosed && #[trigger] has_submerged(hollows@[g].members@, height_key@)
                    ==> exists|s: int| 0 <= s < subs@.len() && (#[trigger] subs@[s]).source == g,
        decreases hollows@.len() - h,
    {
        if kept[h] && hollows[h].enclosed {
            let ms = &hollows[h].members;
            proof {
                assert(ascending(hollows@[h as int].members@));
            }
            let (allowed, _) = inside_and_outside(ms, n);
            let mut seeds: Vec<(u32, u64)> = Vec::new();
            let mut k: usize = 0;
            while k < ms.len()
                invariant
                    k <= ms@.len(),
                    ms@ == hollows@[h as int].members@,
                    h < hollows@.len(),
                    hollows_in_range(hollows@, n as int),
                    height_key@.len() == n,
                    seeds@ == submerged_seeds(ms@.take(k as int), height_key@),
                decreases ms@.len() - k,
            {
                let m = ms[k];
                proof {
                    assert(ms@.take(k + 1).drop_last() =~= ms@.take(k as int));
                    assert(ms@.take(k + 1).last() == m);
                    assert(m < n);
                }
                if height_key[m as usize] <= DATUM_KEY {
                    seeds.push((m, DATUM_KEY));
                }
                k += 1;
            }
            proof {
                assert(ms@.take(ms@.len() as int) =~= ms@);
                lemma_submerged_seeds(ms@, height_key@);
                assert(allowed@ =~= allowed_of(ms@, n as int));
                assert forall|j: int| 0 <= j < seeds@.len() implies #[trigger] seeds@[j].0 < n by {
                    assert(ms@.contains(seeds@[j].0));
                    let q = choose|q: int| 0 <= q < ms@.len() && ms@[q] == seeds@[j].0;
                    assert(ms@[q] < n);
                }
            }
            if seeds.len() > 0 {
                let (pools, levels, spill, reached) = pools_from(graph, ocean, enclosed_basin, height_key, &seeds, &allowed, true);
                let r = Reflood { source: h as u32, spill, reached, pools, levels };
                proof {
                    let rows = graph.rows();
                    assert forall|i: int| 0 <= i < r.pools@.len() implies shore_pool_of(hollows@, kept@, height_key@, h as int,
                        r.pools@[i], r.levels@[i]) by {
                        let pool = r.pools@[i];
                        assert(holds_pool(rows, ocean@, height_key@, r.spill@, r.reached@, pool, r.levels@[i]));
                        assert(dry(pool.members@, height_key@));
                        let raised = raised_nodes(r.reached@, r.spill@, height_key@, ocean@);
                        let qe = choose|q: int| 0 <= q < pool.members@.len() && pool.members@[q] == pool.entry;
                        assert(pool.members@[qe] < n);
                        assert(raised[pool.entry as int]);
                        assert forall|q: int| 0 <= q < pool.members@.len() implies hollows@[h as int].members@.contains(
                            #[trigger] pool.members@[q]) && height_key@[pool.members@[q] as int] > DATUM_KEY by {
                            let y = pool.members@[q] as int;
                            assert(pool.members@[q] < n);
                            assert(pool.members@.contains(y as u32));
                            assert(raised[y]);
                            if seed_node(seeds@, y) {
                                let j = choose|j: int| 0 <= j < seeds@.len() && #[trigger] seeds@[j].0 == y;
                                assert(ms@.contains(seeds@[j].0));
                            } else {
                                assert(allowed@[y]);
                            }
                        }
                    }
                    assert(shore_reflood(rows, ocean@, height_key@, hollows@, kept@, r));
                }
                let ghost before = subs@;
                subs.push(r);
                proof {
                    assert forall|g: int|
                        0 <= g < h + 1 && kept@[g] && hollows@[g].enclosed && #[trigger] has_submerged(hollows@[g].members@,
                            height_key@) implies exists|s: int| 0 <= s < subs@.len() && (#[trigger] subs@[s]).source == g by {
                        if g < h {
                            let s = choose|s: int| 0 <= s < before.len() && (#[trigger] before[s]).source == g;
                            assert(subs@[s] == before[s]);
                        } else {
                            assert(subs@[before.len() as int].source == g);
                        }
                    }
                }
            } else {
                proof {
                    lemma_submerged_seeds(ms@, height_key@);
                }
            }
        }
        h += 1;
    }
    subs
}

/// The nodes below `n` outside `members`.
pub open spec fn outside_of(members: Seq<u32>, n: int) -> Seq<bool> {
    Seq::new(n as nat, |x: int| !members.contains(x as u32))
}

/// `path` is a capped hollow's way out from its floor: the parents in `tree` from the floor
/// while they stay in the hollow, at most as many nodes as the hollow has.
pub open spec fn is_escape(tree: Seq<u32>, hollow: HollowShape, path: Seq<u32>) -> bool {
    let outside = outside_of(hollow.members@, tree.len() as int);
    &&& path.len() >= 1
    &&& path[0] == hollow.floor
    &&& walks_up(tree, outside, path)
    &&& ({
        let p = tree[path.last() as int];
        path.len() == hollow.members@.len() || p == NO_NODE || outside[p as int]
    })
}

/// Some node of `members` lies on `path`.
pub open spec fn meets(members: Seq<u32>, path: Seq<u32>) -> bool {
    exists|k: int, j: int| 0 <= k < members.len() && 0 <= j < path.len() && #[trigger] members[k] == #[trigger] path[j]
}

/// An inner basin of capped hollow `h`: not of an enclosed basin, inside the hollow, held above
/// its ground at `level`.
pub open spec fn inner_pool_of(hollows: Seq<HollowShape>, capped: Seq<bool>, height: Seq<u64>, h: int, pool: HollowShape, level: u64) -> bool {
    &&& 0 <= h < hollows.len()
    &&& capped[h]
    &&& !pool.enclosed
    &&& pool.members@.len() > 0
    &&& pool.members@.contains(pool.entry)
    &&& pool.members@.contains(pool.floor)
    &&& level > height[pool.entry as int]
    &&& forall|k: int| 0 <= k < pool.members@.len() ==> hollows[h].members@.contains(#[trigger] pool.members@[k])
}

/// Which nodes below `n` are in ascending `ms`, and which are not.
fn inside_and_outside(ms: &Vec<u32>, n: usize) -> (out: (Vec<bool>, Vec<bool>))
    requires
        ascending(ms@),
        n <= u32::MAX,
    ensures
        out.0@.len() == n,
        out.1@ == outside_of(ms@, n as int),
        forall|y: int| 0 <= y < n ==> #[trigger] out.0@[y] == ms@.contains(y as u32),
{
    let mut inside: Vec<bool> = Vec::new();
    let mut outside: Vec<bool> = Vec::new();
    let mut x: usize = 0;
    while x < n
        invariant
            x <= n,
            n <= u32::MAX,
            ascending(ms@),
            inside@.len() == x,
            outside@.len() == x,
            forall|y: int| 0 <= y < x ==> #[trigger] inside@[y] == ms@.contains(y as u32),
            forall|y: int| 0 <= y < x ==> #[trigger] outside@[y] == !ms@.contains(y as u32),
        decreases n - x,
    {
        let here = holds(ms, x as u32);
        inside.push(here);
        outside.push(!here);
        x += 1;
    }
    proof {
        assert(outside@ =~= outside_of(ms@, n as int));
    }
    (inside, outside)
}

/// Whether some node of `members` lies on `path`.
fn meets_path(members: &Vec<u32>, path: &Vec<u32>) -> (hit: bool)
    ensures
        hit == meets(members@, path@),
{
    let mut k: usize = 0;
    while k < members.len()
        invariant
            k <= members@.len(),
            forall|a: int, j: int| 0 <= a < k && 0 <= j < path@.len() ==> members@[a] != path@[j],
        decreases members@.len() - k,
    {
        let mut j: usize = 0;
        while j < path.len()
            invariant
                k < members@.len(),
                j <= path@.len(),
                forall|b: int| 0 <= b < j ==> members@[k as int] != path@[b],
            decreases path@.len() - j,
        {
            if members[k] == path[j] {
                proof {
                    assert(members@[k as int] == path@[j as int]);
                }
                return true;
            }
            j += 1;
        }
        k += 1;
    }
    false
}

/// A capped hollow flooded anew: the flood and the inner basins it raised, the hollow's way out
/// from its floor, and which inner basins meet that way out.
pub struct CappedReflood {
    pub basin: Reflood,
    pub escape: Vec<u32>,
    pub blocked: Vec<bool>,
}

/// `c` is capped hollow `c.basin.source` flooded anew from its floor, confined to the hollow,
/// with every hollow that flood raised as an inner basin; `c.escape` is the hollow's way out
/// from its floor along `tree`, and `c.blocked` says which inner basins meet it.
pub open spec fn capped_reflood(rows: Seq<Seq<u32>>, ocean: Seq<bool>, height: Seq<u64>, tree: Seq<u32>, hollows: Seq<HollowShape>,
    capped: Seq<bool>, c: CappedReflood) -> bool {
    let r = c.basin;
    let h = r.source as int;
    let hollow = hollows[h];
    &&& 0 <= h < hollows.len()
    &&& capped[h]
    &&& reflooded(rows, height, seq![(hollow.floor, height[hollow.floor as int])], allowed_of(hollow.members@, height.len() as int),
        r.spill@, r.reached@)
    &&& r.levels@.len() == r.pools@.len()
    &&& forall|i: int| 0 <= i < r.pools@.len() ==> {
        &&& #[trigger] holds_pool(rows, ocean, height, r.spill@, r.reached@, r.pools@[i], r.levels@[i])
        &&& inner_pool_of(hollows, capped, height, h, r.pools@[i], r.levels@[i])
    }
    &&& pools_cover(rows, ocean, height, r.spill@, r.reached@, r.pools@, false)
    &&& is_escape(tree, hollow, c.escape@)
    &&& c.blocked@.len() == r.pools@.len()
    &&& forall|i: int| 0 <= i < r.pools@.len() ==> #[trigger] c.blocked@[i] == meets(r.pools@[i].members@, c.escape@)
}

/// The inner basins of the capped hollows: each capped hollow, in order, is flooded anew from
/// its floor, confined to the hollow, and every hollow that flood raises is an inner basin --
/// not of an enclosed basin, standing at its entry's level in that flood -- with the hollow's
/// way out from its floor along `tree` (the flood's tree, led down into each enclosed basin by
/// [`shore_parents`]), and whether each inner basin meets that way out.
pub fn capped_pools(
    graph: &LandGraph,
    ocean: &Vec<bool>,
    enclosed_basin: &Vec<u32>,
    height_key: &Vec<u64>,
    tree: &Vec<u32>,
    hollows: &Vec<HollowShape>,
    capped: &Vec<bool>,
) -> (subs: Vec<CappedReflood>)
    requires
        ocean@.len() == graph.node_count(),
        enclosed_basin@.len() == graph.node_count(),
        height_key@.len() == graph.node_count(),
        tree@.len() == graph.node_count(),
        graph.node_count() <= u32::MAX,
        forall|x: int| 0 <= x < graph.node_count() ==> #[trigger] tree@[x] == NO_NODE || tree@[x] < graph.node_count(),
        capped@.len() == hollows@.len(),
        hollows@.len() <= u32::MAX,
        hollows_in_range(hollows@, graph.node_count()),
        forall|h: int| 0 <= h < hollows@.len() && #[trigger] capped@[h] ==> hollows@[h].members@.contains(hollows@[h].floor),
    ensures
        forall|s: int| 0 <= s < subs@.len() ==> #[trigger] capped_reflood(graph.rows(), ocean@, height_key@, tree@, hollows@,
            capped@, subs@[s]),
        forall|a: int, b: int| 0 <= a < b < subs@.len() ==> (#[trigger] subs@[a]).basin.source < (#[trigger] subs@[b]).basin.source,
        forall|h: int| 0 <= h < hollows@.len() && #[trigger] capped@[h] ==> exists|s: int| 0 <= s < subs@.len()
            && (#[trigger] subs@[s]).basin.source == h,
{
    let n = graph.len();
    let mut subs: Vec<CappedReflood> = Vec::new();
    let mut h: usize = 0;
    while h < hollows.len()
        invariant
            h <= hollows@.len(),
            hollows@.len() <= u32::MAX,
            n == graph.node_count(),
            n <= u32::MAX,
            ocean@.len() == n,
            enclosed_basin@.len() == n,
            height_key@.len() == n,
            tree@.len() == n,
            forall|x: int| 0 <= x < n ==> #[trigger] tree@[x] == NO_NODE || tree@[x] < n,
            capped@.len() == hollows@.len(),
            hollows_in_range(hollows@, n as int),
            forall|g: int| 0 <= g < hollows@.len() && #[trigger] capped@[g] ==> hollows@[g].members@.contains(hollows@[g].floor),
            forall|s: int| 0 <= s < subs@.len() ==> #[trigger] capped_reflood(graph.rows(), ocean@, height_key@, tree@, hollows@,
                capped@, subs@[s]),
            forall|s: int| 0 <= s < subs@.len() ==> (#[trigger] subs@[s]).basin.source < h,
            forall|a: int, b: int| 0 <= a < b < subs@.len() ==> (#[trigger] subs@[a]).basin.source < (#[trigger] subs@[b]).basin.source,
            forall|g: int| 0 <= g < h && #[trigger] capped@[g] ==> exists|s: int| 0 <= s < subs@.len()
                && (#[trigger] subs@[s]).basin.source == g,
        decreases hollows@.len() - h,
    {
        if capped[h] {
            let ms = &hollows[h].members;
            let floor = hollows[h].floor;
            proof {
                assert(ascending(hollows@[h as int].members@));
                let q = choose|q: int| 0 <= q < ms@.len() && ms@[q] == floor;
                assert(ms@[q] < n);
            }
            let (allowed, outside) = inside_and_outside(ms, n);
            let seeds: Vec<(u32, u64)> = vec![(floor, height_key[floor as usize])];
            let (pools, levels, spill, reached) = pools_from(graph, ocean, enclosed_basin, height_key, &seeds, &allowed, false);
            let escape = walk_parents(tree, &outside, floor, ms.len());
            let mut blocked: Vec<bool> = Vec::new();
            let mut i: usize = 0;
            while i < pools.len()
                invariant
                    i <= pools@.len(),
                    blocked@.len() == i,
                    forall|a: int| 0 <= a < i ==> #[trigger] blocked@[a] == meets(pools@[a].members@, escape@),
                decreases pools@.len() - i,
            {
                blocked.push(meets_path(&pools[i].members, &escape));
                i += 1;
            }
            let r = Reflood { source: h as u32, spill, reached, pools, levels };
            proof {
                let rows = graph.rows();
                assert(allowed@ =~= allowed_of(ms@, n as int));
                assert(seeds@ =~= seq![(floor, height_key@[floor as int])]);
                assert forall|i: int| 0 <= i < r.pools@.len() implies inner_pool_of(hollows@, capped@, height_key@, h as int,
                    r.pools@[i], r.levels@[i]) by {
                    let pool = r.pools@[i];
                    assert(holds_pool(rows, ocean@, height_key@, r.spill@, r.reached@, pool, r.levels@[i]));
                    let raised = raised_nodes(r.reached@, r.spill@, height_key@, ocean@);
                    let qe = choose|q: int| 0 <= q < pool.members@.len() && pool.members@[q] == pool.entry;
                    assert(pool.members@[qe] < n);
                    assert(raised[pool.entry as int]);
                    assert forall|q: int| 0 <= q < pool.members@.len() implies hollows@[h as int].members@.contains(
                        #[trigger] pool.members@[q]) by {
                        let y = pool.members@[q] as int;
                        assert(pool.members@[q] < n);
                        assert(pool.members@.contains(y as u32));
                        assert(raised[y]);
                        if seed_node(seeds@, y) {
                            let j = choose|j: int| 0 <= j < seeds@.len() && #[trigger] seeds@[j].0 == y;
                            assert(seeds@[j].0 == floor);
                        } else {
                            assert(allowed@[y]);
                        }
                    }
                }
            }
            let c = CappedReflood { basin: r, escape, blocked };
            proof {
                assert(capped_reflood(graph.rows(), ocean@, height_key@, tree@, hollows@, capped@, c));
            }
            let ghost before = subs@;
            subs.push(c);
            proof {
                assert forall|g: int| 0 <= g < h + 1 && #[trigger] capped@[g] implies exists|s: int| 0 <= s < subs@.len()
                    && (#[trigger] subs@[s]).basin.source == g by {
                    if g < h {
                        let s = choose|s: int| 0 <= s < before.len() && (#[trigger] before[s]).basin.source == g;
                        assert(subs@[s] == before[s]);
                    } else {
                        assert(subs@[before.len() as int].basin.source == g);
                    }
                }
            }
        }
        h += 1;
    }
    subs
}

/// Inside each capped hollow, in order, the tree is flooded anew from its floor, confined to
/// the hollow: every member that flood reached and gave a parent takes that parent, but one on
/// the hollow's way out from its floor along `parent`, which keeps its own, as does every other
/// node. Returns the new parents and the floods with their ways out.
fn capped_parents(graph: &LandGraph, height_key: &Vec<u64>, hollows: &Vec<HollowShape>, capped: &Vec<bool>, parent: &Vec<u32>)
    -> (out: (Vec<u32>, Vec<CappedTree>))
    requires
        height_key@.len() == graph.node_count(),
        parent@.len() == graph.node_count(),
        graph.node_count() <= u32::MAX,
        capped@.len() == hollows@.len(),
        hollows@.len() <= u32::MAX,
        hollows_in_range(hollows@, graph.node_count()),
        forall|h: int| 0 <= h < hollows@.len() && #[trigger] capped@[h] ==> hollows@[h].members@.contains(hollows@[h].floor),
        forall|x: int| 0 <= x < graph.node_count() ==> #[trigger] parent@[x] == NO_NODE || parent@[x] < graph.node_count(),
    ensures
        out.0@.len() == graph.node_count(),
        forall|x: int| 0 <= x < graph.node_count() ==> #[trigger] out.0@[x] == NO_NODE || out.0@[x] < graph.node_count(),
        forall|s: int| 0 <= s < out.1@.len() ==> #[trigger] capped_tree(graph.rows(), height_key@, parent@, hollows@, capped@,
            out.1@[s]),
        forall|a: int, b: int| 0 <= a < b < out.1@.len() ==> (#[trigger] out.1@[a]).tree.source < (#[trigger] out.1@[b]).tree.source,
        forall|h: int| 0 <= h < hollows@.len() && #[trigger] capped@[h] ==> exists|s: int| 0 <= s < out.1@.len()
            && (#[trigger] out.1@[s]).tree.source == h,
        forall|x: int| 0 <= x < graph.node_count() ==> #[trigger] out.0@[x] == capped_retreed(out.1@, hollows@, parent@, x,
            out.1@.len() as int),
{
    let n = graph.len();
    let mut out = copy_nodes(parent);
    let mut trees: Vec<CappedTree> = Vec::new();
    let mut h: usize = 0;
    while h < hollows.len()
        invariant
            h <= hollows@.len(),
            hollows@.len() <= u32::MAX,
            n == graph.node_count(),
            n <= u32::MAX,
            height_key@.len() == n,
            parent@.len() == n,
            forall|x: int| 0 <= x < n ==> #[trigger] parent@[x] == NO_NODE || parent@[x] < n,
            out@.len() == n,
            capped@.len() == hollows@.len(),
            hollows_in_range(hollows@, n as int),
            forall|g: int| 0 <= g < hollows@.len() && #[trigger] capped@[g] ==> hollows@[g].members@.contains(hollows@[g].floor),
            forall|x: int| 0 <= x < n ==> #[trigger] out@[x] == NO_NODE || out@[x] < n,
            forall|s: int| 0 <= s < trees@.len() ==> #[trigger] capped_tree(graph.rows(), height_key@, parent@, hollows@, capped@,
                trees@[s]),
            forall|s: int| 0 <= s < trees@.len() ==> (#[trigger] trees@[s]).tree.source < h,
            forall|a: int, b: int| 0 <= a < b < trees@.len() ==> (#[trigger] trees@[a]).tree.source < (#[trigger] trees@[b]).tree.source,
            forall|g: int| 0 <= g < h && #[trigger] capped@[g] ==> exists|s: int| 0 <= s < trees@.len()
                && (#[trigger] trees@[s]).tree.source == g,
            forall|x: int| 0 <= x < n ==> #[trigger] out@[x] == capped_retreed(trees@, hollows@, parent@, x, trees@.len() as int),
        decreases hollows@.len() - h,
    {
        if capped[h] {
            let ms = &hollows[h].members;
            let floor = hollows[h].floor;
            proof {
                assert(ascending(hollows@[h as int].members@));
                let q = choose|q: int| 0 <= q < ms@.len() && ms@[q] == floor;
                assert(ms@[q] < n);
            }
            let (allowed, outside) = inside_and_outside(ms, n);
            let seeds: Vec<(u32, u64)> = vec![(floor, height_key[floor as usize])];
            let sub = flood(graph, height_key, &seeds, &allowed);
            let escape = walk_parents(parent, &outside, floor, ms.len());
            let ghost before = out@;
            let mut x: usize = 0;
            while x < n
                invariant
                    x <= n,
                    n == graph.node_count(),
                    out@.len() == n,
                    allowed@.len() == n,
                    sub.parent@.len() == n,
                    sub.reached@.len() == n,
                    before.len() == n,
                    forall|y: int| 0 <= y < n ==> #[trigger] allowed@[y] == ms@.contains(y as u32),
                    forall|y: int| 0 <= y < n && !seed_node(seeds@, y) && #[trigger] sub.reached@[y] ==> sub.parent@[y] < n,
                    forall|y: int| 0 <= y < n && seed_node(seeds@, y) ==> #[trigger] sub.parent@[y] == NO_NODE,
                    forall|y: int| 0 <= y < x ==> #[trigger] out@[y] == if ms@.contains(y as u32) && sub.reached@[y]
                        && sub.parent@[y] != NO_NODE && !escape@.contains(y as u32) {
                        sub.parent@[y]
                    } else {
                        before[y]
                    },
                    forall|y: int| x <= y < n ==> #[trigger] out@[y] == before[y],
                decreases n - x,
            {
                if allowed[x] && sub.reached[x] && sub.parent[x] != NO_NODE && !on_path(&escape, x as u32) {
                    let p = sub.parent[x];
                    out.set(x, p);
                }
                x += 1;
            }
            let c = CappedTree {
                tree: Tree { source: h as u32, spill: sub.spill_key, reached: sub.reached, parent: sub.parent },
                escape,
            };
            proof {
                assert(seeds@ =~= seq![(floor, height_key@[floor as int])]);
                assert(allowed@ =~= allowed_of(ms@, n as int));
                assert(capped_tree(graph.rows(), height_key@, parent@, hollows@, capped@, c));
            }
            let ghost old_trees = trees@;
            trees.push(c);
            proof {
                assert forall|y: int| 0 <= y < n implies #[trigger] out@[y] == capped_retreed(trees@, hollows@, parent@, y,
                    trees@.len() as int) by {
                    lemma_capped_retreed_prefix(old_trees, trees@, hollows@, parent@, y, old_trees.len() as int);
                    assert(trees@[old_trees.len() as int] == c);
                }
                assert forall|y: int| 0 <= y < n implies #[trigger] out@[y] == NO_NODE || out@[y] < n by {
                    if ms@.contains(y as u32) && c.tree.reached@[y] && c.tree.parent@[y] != NO_NODE {
                        if seed_node(seeds@, y) {
                        }
                    }
                }
                assert forall|g: int| 0 <= g < h + 1 && #[trigger] capped@[g] implies exists|s: int| 0 <= s < trees@.len()
                    && (#[trigger] trees@[s]).tree.source == g by {
                    if g < h {
                        let s = choose|s: int| 0 <= s < old_trees.len() && (#[trigger] old_trees[s]).tree.source == g;
                        assert(trees@[s] == old_trees[s]);
                    } else {
                        assert(trees@[old_trees.len() as int].tree.source == g);
                    }
                }
            }
        }
        h += 1;
    }
    (out, trees)
}

/// Which nodes below `n` lie in lake `l`.
pub open spec fn lake_allowed(lake_of: Seq<u32>, l: int, n: int) -> Seq<bool> {
    Seq::new(n as nat, |y: int| lake_of[y] == l as u32)
}

/// `t` is kept lake `t.source` of an enclosed basin flooded anew from its entry at the datum,
/// confined to the lake.
pub open spec fn pocket_tree(rows: Seq<Seq<u32>>, height: Seq<u64>, lakes: Seq<Lake>, lake_of: Seq<u32>, t: Tree) -> bool {
    let l = t.source as int;
    let seeds = seq![(lakes[l].entry, DATUM_KEY)];
    &&& 0 <= l < lakes.len()
    &&& lakes[l].kept
    &&& lakes[l].enclosed
    &&& reflooded(rows, height, seeds, lake_allowed(lake_of, l, height.len() as int), t.spill@, t.reached@)
    &&& flood_tree(rows, height, seeds, t.spill@, t.reached@, t.parent@)
}

/// Inside each kept lake of an enclosed basin, the tree water is routed along is flooded anew
/// from the lake's entry, confined to the lake: every node of such a lake gets the parent that
/// flood gave it, and every other node keeps `parent`.
fn pocket_parents(graph: &LandGraph, height_key: &Vec<u64>, lakes: &Vec<Lake>, lake_of: &Vec<u32>, parent: &Vec<u32>)
    -> (result: (Vec<u32>, Vec<Tree>))
    requires
        height_key@.len() == graph.node_count(),
        lake_of@.len() == graph.node_count(),
        parent@.len() == graph.node_count(),
        graph.node_count() <= u32::MAX,
        lakes@.len() < u32::MAX,
        forall|l: int| 0 <= l < lakes@.len() ==> lake_within(#[trigger] lakes@[l], graph.node_count()),
        forall|x: int| 0 <= x < graph.node_count() ==> #[trigger] parent@[x] == NO_NODE || parent@[x] < graph.node_count(),
    ensures
        result.0@.len() == graph.node_count(),
        forall|x: int| 0 <= x < graph.node_count() ==> #[trigger] result.0@[x] == NO_NODE || result.0@[x] < graph.node_count(),
        forall|x: int|
            0 <= x < graph.node_count() && !(lake_of@[x] < lakes@.len() && lakes@[lake_of@[x] as int].kept && lakes@[lake_of@[x] as int].enclosed)
                ==> #[trigger] result.0@[x] == parent@[x],
        forall|x: int|
            0 <= x < graph.node_count() && lake_of@[x] < lakes@.len() && lakes@[lake_of@[x] as int].kept && lakes@[lake_of@[x] as int].enclosed ==> {
                let lake = lakes@[lake_of@[x] as int];
                &&& x == lake.entry ==> #[trigger] result.0@[x] == NO_NODE
                &&& result.0@[x] != NO_NODE ==> graph.rows()[x].contains(result.0@[x]) && (result.0@[x] == lake.entry || lake_of@[result.0@[x] as int] == lake_of@[x])
            },
        forall|s: int| 0 <= s < result.1@.len() ==> #[trigger] pocket_tree(graph.rows(), height_key@, lakes@, lake_of@, result.1@[s]),
        forall|a: int, b: int| 0 <= a < b < result.1@.len() ==> (#[trigger] result.1@[a]).source < (#[trigger] result.1@[b]).source,
        forall|x: int|
            #![trigger lake_of@[x]]
            0 <= x < graph.node_count() && lake_of@[x] < lakes@.len() && lakes@[lake_of@[x] as int].kept && lakes@[lake_of@[x] as int].enclosed
                ==> exists|s: int| 0 <= s < result.1@.len() && (#[trigger] result.1@[s]).source == lake_of@[x]
                && result.0@[x] == result.1@[s].parent@[x],
{
    let n = graph.len();
    let mut out = copy_nodes(parent);
    let mut trees: Vec<Tree> = Vec::new();
    let mut l: usize = 0;
    while l < lakes.len()
        invariant
            l <= lakes@.len(),
            n == graph.node_count(),
            n <= u32::MAX,
            lakes@.len() < u32::MAX,
            height_key@.len() == n,
            lake_of@.len() == n,
            parent@.len() == n,
            out@.len() == n,
            forall|m: int| 0 <= m < lakes@.len() ==> lake_within(#[trigger] lakes@[m], n as int),
            forall|x: int| 0 <= x < n ==> #[trigger] out@[x] == NO_NODE || out@[x] < n,
            forall|x: int|
                0 <= x < n && !(lake_of@[x] < l && lakes@[lake_of@[x] as int].kept && lakes@[lake_of@[x] as int].enclosed)
                    ==> #[trigger] out@[x] == parent@[x],
            forall|x: int|
                0 <= x < n && lake_of@[x] < l && lakes@[lake_of@[x] as int].kept && lakes@[lake_of@[x] as int].enclosed ==> {
                    let lake = lakes@[lake_of@[x] as int];
                    &&& x == lake.entry ==> #[trigger] out@[x] == NO_NODE
                    &&& out@[x] != NO_NODE ==> graph.rows()[x].contains(out@[x]) && (out@[x] == lake.entry || lake_of@[out@[x] as int] == lake_of@[x])
                },
            forall|s: int| 0 <= s < trees@.len() ==> #[trigger] pocket_tree(graph.rows(), height_key@, lakes@, lake_of@, trees@[s]),
            forall|s: int| 0 <= s < trees@.len() ==> (#[trigger] trees@[s]).source < l,
            forall|a: int, b: int| 0 <= a < b < trees@.len() ==> (#[trigger] trees@[a]).source < (#[trigger] trees@[b]).source,
            forall|x: int|
                #![trigger lake_of@[x]]
                0 <= x < n && lake_of@[x] < l && lakes@[lake_of@[x] as int].kept && lakes@[lake_of@[x] as int].enclosed
                    ==> exists|s: int| 0 <= s < trees@.len() && (#[trigger] trees@[s]).source == lake_of@[x]
                    && out@[x] == trees@[s].parent@[x],
        decreases lakes@.len() - l,
    {
        if lakes[l].kept && lakes[l].enclosed {
            let entry = lakes[l].entry;
            proof {
                assert(lake_within(lakes@[l as int], n as int));
            }
            let mut allowed: Vec<bool> = Vec::new();
            let mut x: usize = 0;
            while x < n
                invariant
                    x <= n,
                    lake_of@.len() == n,
                    allowed@.len() == x,
                    forall|y: int| 0 <= y < x ==> #[trigger] allowed@[y] == (lake_of@[y] == l as u32),
                decreases n - x,
            {
                allowed.push(lake_of[x] == l as u32);
                x += 1;
            }
            let mut seeds: Vec<(u32, u64)> = Vec::new();
            seeds.push((entry, DATUM_KEY));
            proof {
                assert(seeds@[0].0 == entry);
            }
            let inner = flood(graph, height_key, &seeds, &allowed);
            proof {
                assert forall|y: int| 0 <= y < n implies (#[trigger] crate::flood::seed_node(seeds@, y) <==> y == entry as int) by {
                    if y == entry as int {
                        assert(seeds@[0].0 == y);
                    }
                }
            }
            let ghost before = out@;
            let mut x: usize = 0;
            while x < n
                invariant
                    x <= n,
                    n == graph.node_count(),
                    n <= u32::MAX,
                    l < lakes@.len(),
                    entry == lakes@[l as int].entry,
                    entry < n,
                    lakes@[l as int].kept && lakes@[l as int].enclosed,
                    lake_of@.len() == n,
                    out@.len() == n,
                    allowed@.len() == n,
                    forall|y: int| 0 <= y < n ==> #[trigger] allowed@[y] == (lake_of@[y] == l as u32),
                    inner.parent@.len() == n,
                    inner.reached@.len() == n,
                    forall|y: int| 0 <= y < n ==> (#[trigger] crate::flood::seed_node(seeds@, y) <==> y == entry as int),
                    forall|y: int| 0 <= y < n && crate::flood::seed_node(seeds@, y) ==> #[trigger] inner.parent@[y] == NO_NODE,
                    forall|y: int|
                        0 <= y < n && !crate::flood::seed_node(seeds@, y) && #[trigger] inner.reached@[y] ==> {
                            &&& allowed@[y]
                            &&& inner.parent@[y] < n
                            &&& inner.reached@[inner.parent@[y] as int]
                            &&& graph.rows()[y].contains(inner.parent@[y])
                        },
                    forall|y: int| 0 <= y < n && !crate::flood::seed_node(seeds@, y) && !#[trigger] inner.reached@[y] ==> inner.parent@[y] == NO_NODE,
                    forall|y: int| 0 <= y < n ==> #[trigger] out@[y] == if y < x && lake_of@[y] == l as u32 { inner.parent@[y] } else { before[y] },
                decreases n - x,
            {
                if lake_of[x] == l as u32 {
                    out.set(x, inner.parent[x]);
                }
                x += 1;
            }
            proof {
                assert forall|y: int| 0 <= y < n && lake_of@[y] == l as u32 implies {
                    &&& y == entry ==> #[trigger] out@[y] == NO_NODE
                    &&& out@[y] != NO_NODE ==> graph.rows()[y].contains(out@[y]) && (out@[y] == entry || lake_of@[out@[y] as int] == lake_of@[y])
                    &&& out@[y] == NO_NODE || out@[y] < n
                } by {
                    if y == entry {
                        assert(crate::flood::seed_node(seeds@, y));
                    } else if inner.reached@[y] {
                        let p = inner.parent@[y] as int;
                        if p != entry {
                            assert(!crate::flood::seed_node(seeds@, p));
                            assert(inner.reached@[p]);
                            assert(allowed@[p]);
                        }
                    }
                }
            }
            let t = Tree { source: l as u32, spill: inner.spill_key, reached: inner.reached, parent: inner.parent };
            proof {
                assert(seeds@ =~= seq![(entry, DATUM_KEY)]);
                assert(allowed@ =~= lake_allowed(lake_of@, l as int, n as int));
                assert(pocket_tree(graph.rows(), height_key@, lakes@, lake_of@, t));
            }
            let ghost old_trees = trees@;
            trees.push(t);
            proof {
                assert forall|x: int|
                    #![trigger lake_of@[x]]
                    0 <= x < n && lake_of@[x] < l + 1 && lakes@[lake_of@[x] as int].kept && lakes@[lake_of@[x] as int].enclosed
                        implies exists|s: int| 0 <= s < trees@.len() && (#[trigger] trees@[s]).source == lake_of@[x]
                        && out@[x] == trees@[s].parent@[x] by {
                    let v = out@[x];
                    let w = before[x];
                    if lake_of@[x] == l as u32 {
                        assert(trees@[old_trees.len() as int] == t);
                    } else {
                        assert(out@[x] == before[x]);
                        let s = choose|s: int| 0 <= s < old_trees.len() && (#[trigger] old_trees[s]).source == lake_of@[x]
                            && before[x] == old_trees[s].parent@[x];
                        assert(trees@[s] == old_trees[s]);
                    }
                }
            }
        }
        proof {
            assert forall|x: int|
                #![trigger lake_of@[x]]
                0 <= x < n && lake_of@[x] < l + 1 && lakes@[lake_of@[x] as int].kept && lakes@[lake_of@[x] as int].enclosed
                    implies exists|s: int| 0 <= s < trees@.len() && (#[trigger] trees@[s]).source == lake_of@[x]
                    && out@[x] == trees@[s].parent@[x] by {
                let v = out@[x];
                if lake_of@[x] == l as u32 {
                    assert(lakes@[l as int].kept && lakes@[l as int].enclosed);
                }
            }
        }
        l += 1;
    }
    let ghost tv = trees@;
    let ghost ov = out@;
    let result = (out, trees);
    proof {
        assert(result.1@ == tv && result.0@ == ov);
        assert forall|x: int|
            #![trigger lake_of@[x]]
            0 <= x < n && lake_of@[x] < lakes@.len() && lakes@[lake_of@[x] as int].kept && lakes@[lake_of@[x] as int].enclosed
                implies exists|s: int| 0 <= s < result.1@.len() && (#[trigger] result.1@[s]).source == lake_of@[x]
                && result.0@[x] == result.1@[s].parent@[x] by {
            assert(lake_of@[x] < l);
            let s = choose|s: int| 0 <= s < tv.len() && (#[trigger] tv[s]).source == lake_of@[x] && ov[x] == tv[s].parent@[x];
            assert(result.1@[s] == tv[s]);
        }
    }
    result
}

/// Every cut starts at a node the cut pass reached with nowhere to go, and steps from each node
/// to its parent.
pub open spec fn cut_path(parent: Seq<u32>, committed: Seq<bool>, path: Seq<u32>) -> bool {
    &&& path.len() > 0
    &&& forall|k: int| 0 <= k < path.len() - 1 ==> parent[#[trigger] path[k] as int] == path[k + 1]
    &&& forall|k: int| 0 <= k < path.len() ==> (#[trigger] path[k]) < parent.len()
    &&& forall|k: int| 0 <= k < path.len() && parent[#[trigger] path[k] as int] != NO_NODE ==> committed[path[k] as int]
}

/// Node `x` lies on one of `cuts`.
pub open spec fn on_a_cut(cuts: Seq<Vec<u32>>, x: int) -> bool {
    exists|c: int, k: int| 0 <= c < cuts.len() && 0 <= k < cuts[c]@.len() && #[trigger] cuts[c]@[k] == x
}

/// The path a cut from `start` takes: `start`, then the nodes it walked.
fn cut_path_of(start: u32, walked: &Vec<u32>) -> (path: Vec<u32>)
    ensures
        path@ == seq![start] + walked@,
{
    let mut path: Vec<u32> = Vec::new();
    path.push(start);
    let mut k: usize = 0;
    while k < walked.len()
        invariant
            k <= walked@.len(),
            path@ == seq![start] + walked@.take(k as int),
        decreases walked@.len() - k,
    {
        path.push(walked[k]);
        proof {
            assert(walked@.take(k + 1) =~= walked@.take(k as int).push(walked@[k as int]));
            assert(seq![start] + walked@.take(k + 1) =~= (seq![start] + walked@.take(k as int)).push(walked@[k as int]));
        }
        k += 1;
    }
    proof {
        assert(walked@.take(walked@.len() as int) =~= walked@);
    }
    path
}

/// A path that starts at a node and steps from parent to parent stays on nodes.
#[verifier::spinoff_prover]
proof fn lemma_steps_in_range(parent: Seq<u32>, ps: Seq<u32>, k: int)
    requires
        0 <= k < ps.len(),
        ps[0] < parent.len(),
        forall|y: int| 0 <= y < parent.len() ==> #[trigger] parent[y] == NO_NODE || parent[y] < parent.len(),
        forall|j: int| #![trigger ps[j]] 0 <= j < ps.len() - 1 ==> parent[ps[j] as int] == ps[j + 1] && ps[j + 1] != NO_NODE,
    ensures
        ps[k] < parent.len(),
    decreases k,
{
    if k > 0 {
        lemma_steps_in_range(parent, ps, k - 1);
        assert(parent[ps[k - 1] as int] == ps[k]);
    }
}

/// Two lists of hollows that hold the same members have the same member total.
proof fn lemma_member_total_same(a: Seq<HollowShape>, b: Seq<HollowShape>)
    requires
        a.len() == b.len(),
        forall|h: int| 0 <= h < a.len() ==> same_shape(#[trigger] a[h], b[h]),
    ensures
        member_total(a) == member_total(b),
    decreases a.len(),
{
    if a.len() > 0 {
        assert forall|h: int| 0 <= h < a.drop_last().len() implies same_shape(#[trigger] a.drop_last()[h], b.drop_last()[h]) by {
            assert(same_shape(a[h], b[h]));
        }
        lemma_member_total_same(a.drop_last(), b.drop_last());
        assert(same_shape(a[a.len() - 1], b[b.len() - 1]));
    }
}

/// What a cut walk gives: its path steps from parent to parent, every node on it that has a
/// parent is committed, and every node it committed was land outside the lakes.
/// A cut walk steps from parent to parent, onto land outside the lakes.
proof fn lemma_walk_steps(ocean: Seq<bool>, lake_of: Seq<u32>, parent: Seq<u32>, c0: Seq<bool>, start: u32, walked: Seq<u32>)
    requires
        is_cut_walk(ocean, lake_of, parent, c0, start, walked),
    ensures
        forall|k: int| 0 <= k < walked.len() ==> {
            &&& parent[(#[trigger] (seq![start] + walked)[k]) as int] == (seq![start] + walked)[k + 1]
            &&& (seq![start] + walked)[k + 1] != NO_NODE
            &&& !ocean[(seq![start] + walked)[k + 1] as int]
            &&& lake_of[(seq![start] + walked)[k + 1] as int] == NO_LAKE
        },
{
    let ps = seq![start] + walked;
    assert forall|k: int| 0 <= k < walked.len() implies {
        &&& parent[(#[trigger] ps[k]) as int] == ps[k + 1]
        &&& ps[k + 1] != NO_NODE
        &&& !ocean[ps[k + 1] as int]
        &&& lake_of[ps[k + 1] as int] == NO_LAKE
    } by {
        assert(ps[k + 1] == walked[k]);
        assert(!crate::cuts::stops_at(ocean, lake_of, c0, ps, k, walked[k] as int));
    }
}

/// What a cut walk gives: its path steps from parent to parent, every node on it that has a
/// parent is committed, and every node it committed was land outside the lakes.
proof fn lemma_walk_path(
    ocean: Seq<bool>,
    lake_of: Seq<u32>,
    parent: Seq<u32>,
    c0: Seq<bool>,
    c1: Seq<bool>,
    start: u32,
    walked: Seq<u32>,
)
    requires
        start < parent.len(),
        parent.len() <= u32::MAX,
        !ocean[start as int],
        lake_of[start as int] == NO_LAKE,
        ocean.len() == parent.len(),
        lake_of.len() == parent.len(),
        c1.len() == parent.len(),
        forall|k: int| 0 <= k < walked.len() ==> {
            &&& parent[(#[trigger] (seq![start] + walked)[k]) as int] == (seq![start] + walked)[k + 1]
            &&& (seq![start] + walked)[k + 1] != NO_NODE
            &&& !ocean[(seq![start] + walked)[k + 1] as int]
            &&& lake_of[(seq![start] + walked)[k + 1] as int] == NO_LAKE
        },
        forall|y: int| 0 <= y < parent.len() ==> #[trigger] parent[y] == NO_NODE || parent[y] < parent.len(),
        forall|y: int| 0 <= y < parent.len() ==> #[trigger] c1[y] == (c0[y] || steps_from(parent, seq![start] + walked, y)),
    ensures
        cut_path(parent, c1, seq![start] + walked),
        forall|y: int| 0 <= y < parent.len() && steps_from(parent, seq![start] + walked, y) ==> !ocean[y] && lake_of[y] == NO_LAKE && parent[y] != NO_NODE,
{
    let ps = seq![start] + walked;
    assert(ps.len() == walked.len() + 1);
    assert forall|k2: int| 0 <= k2 < ps.len() implies (#[trigger] ps[k2]) < parent.len() by {
        lemma_steps_in_range(parent, ps, k2);
    }
    assert forall|k2: int| 0 <= k2 < ps.len() && parent[#[trigger] ps[k2] as int] != NO_NODE implies c1[ps[k2] as int] by {
        assert(ps.contains(ps[k2]));
        assert(steps_from(parent, ps, ps[k2] as int));
    }
    assert forall|y: int| 0 <= y < parent.len() && steps_from(parent, ps, y) implies !ocean[y] && lake_of[y] == NO_LAKE && parent[y] != NO_NODE by {
        let q = choose|q: int| 0 <= q < ps.len() && ps[q] == y as u32;
        assert(ps[q] as int == y);
        if q > 0 {
            assert(parent[ps[q - 1] as int] == ps[q]);
        }
    }
}

/// One cut of the cut pass, from `i`, with what the pass keeps true before and after it.
fn cut_from(
    ocean: &Vec<bool>,
    lake_of: &Vec<u32>,
    parent: &Vec<u32>,
    receiver: &mut Vec<u32>,
    committed: &mut Vec<bool>,
    cuts: &mut Vec<Vec<u32>>,
    Ghost(r0): Ghost<Seq<u32>>,
    i: u32,
)
    requires
        lake_of@.len() == ocean@.len(),
        parent@.len() == ocean@.len(),
        ocean@.len() <= u32::MAX,
        r0.len() == ocean@.len(),
        old(receiver)@.len() == ocean@.len(),
        old(committed)@.len() == ocean@.len(),
        i < ocean@.len(),
        !ocean@[i as int],
        lake_of@[i as int] == NO_LAKE,
        old(receiver)@[i as int] == NO_NODE,
        forall|y: int| 0 <= y < ocean@.len() ==> #[trigger] parent@[y] == NO_NODE || parent@[y] < ocean@.len(),
        forall|y: int| 0 <= y < ocean@.len() ==> #[trigger] old(receiver)@[y] == if old(committed)@[y] { parent@[y] } else { r0[y] },
        forall|y: int| 0 <= y < ocean@.len() && #[trigger] old(committed)@[y] ==> !ocean@[y] && lake_of@[y] == NO_LAKE && parent@[y] != NO_NODE,
        forall|c: int| 0 <= c < old(cuts)@.len() ==> cut_path(parent@, old(committed)@, #[trigger] old(cuts)@[c]@),
        forall|y: int| 0 <= y < ocean@.len() && #[trigger] old(committed)@[y] ==> on_a_cut(old(cuts)@, y),
    ensures
        final(receiver)@.len() == ocean@.len(),
        final(committed)@.len() == ocean@.len(),
        forall|y: int| 0 <= y < ocean@.len() && #[trigger] old(committed)@[y] ==> final(committed)@[y],
        parent@[i as int] != NO_NODE ==> final(committed)@[i as int],
        forall|y: int| 0 <= y < ocean@.len() ==> #[trigger] final(receiver)@[y] == if final(committed)@[y] { parent@[y] } else { r0[y] },
        forall|y: int| 0 <= y < ocean@.len() && #[trigger] final(committed)@[y] ==> !ocean@[y] && lake_of@[y] == NO_LAKE && parent@[y] != NO_NODE,
        forall|c: int| 0 <= c < final(cuts)@.len() ==> cut_path(parent@, final(committed)@, #[trigger] final(cuts)@[c]@),
        forall|y: int| 0 <= y < ocean@.len() && #[trigger] final(committed)@[y] ==> on_a_cut(final(cuts)@, y),
{
    let ghost c0 = committed@;
    let ghost cuts0 = cuts@;
    proof {
        assert(!c0[i as int]);
    }
    let walked = follow_parents(ocean, lake_of, parent, receiver, committed, i);
    let path = cut_path_of(i, &walked);
    proof {
        lemma_walk_steps(ocean@, lake_of@, parent@, c0, i, walked@);
        lemma_walk_path(ocean@, lake_of@, parent@, c0, committed@, i, walked@);
    }
    cuts.push(path);
    proof {
        let ps = seq![i] + walked@;
        assert(cuts@[cuts@.len() - 1]@ == ps);
        assert forall|c: int| 0 <= c < cuts@.len() implies cut_path(parent@, committed@, #[trigger] cuts@[c]@) by {
            if c < cuts0.len() {
                assert(cuts@[c] == cuts0[c]);
                let pc = cuts0[c]@;
                assert(cut_path(parent@, c0, pc));
                assert forall|k2: int| 0 <= k2 < pc.len() && parent@[#[trigger] pc[k2] as int] != NO_NODE implies committed@[pc[k2] as int] by {
                    assert(c0[pc[k2] as int]);
                }
            }
        }
        assert forall|y: int| 0 <= y < ocean@.len() && #[trigger] committed@[y] implies on_a_cut(cuts@, y) by {
            if c0[y] {
                assert(on_a_cut(cuts0, y));
                let (c, k2) = choose|c: int, k2: int| 0 <= c < cuts0.len() && 0 <= k2 < cuts0[c]@.len() && #[trigger] cuts0[c]@[k2] == y;
                assert(cuts@[c] == cuts0[c]);
                assert(cuts@[c]@[k2] == y);
            } else {
                assert(steps_from(parent@, ps, y));
                let q = choose|q: int| 0 <= q < ps.len() && ps[q] == y as u32;
                assert(cuts@[cuts@.len() - 1]@[q] == y);
            }
        }
        if parent@[i as int] != NO_NODE {
            assert(ps[0] == i);
            assert(ps.contains(i));
            assert(steps_from(parent@, ps, i as int));
        }
    }
}

/// The cut pass: in node order, every land node outside the lakes that still has nowhere to
/// send its water is cut out along its parent chain, to the sea, a lake member or an earlier
/// cut. Returns the receivers after it, the nodes it committed and each cut's path.
fn cut_minima(ocean: &Vec<bool>, lake_of: &Vec<u32>, parent: &Vec<u32>, first: Vec<u32>) -> (out: (Vec<u32>, Vec<bool>, Vec<Vec<u32>>))
    requires
        lake_of@.len() == ocean@.len(),
        parent@.len() == ocean@.len(),
        first@.len() == ocean@.len(),
        ocean@.len() <= u32::MAX,
        forall|x: int| 0 <= x < ocean@.len() ==> #[trigger] parent@[x] == NO_NODE || parent@[x] < ocean@.len(),
    ensures
        out.0@.len() == ocean@.len(),
        out.1@.len() == ocean@.len(),
        forall|x: int| 0 <= x < ocean@.len() ==> #[trigger] out.0@[x] == if out.1@[x] { parent@[x] } else { first@[x] },
        forall|x: int|
            0 <= x < ocean@.len() && #[trigger] out.1@[x] ==> !ocean@[x] && lake_of@[x] == NO_LAKE && parent@[x] != NO_NODE,
        forall|x: int|
            0 <= x < ocean@.len() && !ocean@[x] && lake_of@[x] == NO_LAKE && first@[x] == NO_NODE && parent@[x] != NO_NODE
                ==> #[trigger] out.1@[x],
        forall|c: int| 0 <= c < out.2@.len() ==> cut_path(parent@, out.1@, #[trigger] out.2@[c]@),
        forall|x: int| 0 <= x < ocean@.len() && #[trigger] out.1@[x] ==> on_a_cut(out.2@, x),
{
    let n = ocean.len();
    let mut receiver = first;
    let ghost r0 = receiver@;
    let mut committed: Vec<bool> = Vec::new();
    let mut x: usize = 0;
    while x < n
        invariant
            x <= n,
            committed@.len() == x,
            forall|y: int| 0 <= y < x ==> !#[trigger] committed@[y],
        decreases n - x,
    {
        committed.push(false);
        x += 1;
    }
    let mut cuts: Vec<Vec<u32>> = Vec::new();
    let mut i: usize = 0;
    while i < n
        invariant
            i <= n,
            n == ocean@.len(),
            n <= u32::MAX,
            lake_of@.len() == n,
            parent@.len() == n,
            r0.len() == n,
            receiver@.len() == n,
            committed@.len() == n,
            forall|y: int| 0 <= y < n ==> #[trigger] parent@[y] == NO_NODE || parent@[y] < n,
            forall|y: int| 0 <= y < n ==> #[trigger] receiver@[y] == if committed@[y] { parent@[y] } else { r0[y] },
            forall|y: int| 0 <= y < n && #[trigger] committed@[y] ==> !ocean@[y] && lake_of@[y] == NO_LAKE && parent@[y] != NO_NODE,
            forall|y: int| 0 <= y < i && !ocean@[y] && lake_of@[y] == NO_LAKE && r0[y] == NO_NODE && parent@[y] != NO_NODE ==> #[trigger] committed@[y],
            forall|c: int| 0 <= c < cuts@.len() ==> cut_path(parent@, committed@, #[trigger] cuts@[c]@),
            forall|y: int| 0 <= y < n && #[trigger] committed@[y] ==> on_a_cut(cuts@, y),
        decreases n - i,
    {
        if !ocean[i] && lake_of[i] == NO_LAKE && receiver[i] == NO_NODE {
            let ghost c1 = committed@;
            cut_from(ocean, lake_of, parent, &mut receiver, &mut committed, &mut cuts, Ghost(r0), i as u32);
            proof {
                assert forall|y: int| 0 <= y < i + 1 && !ocean@[y] && lake_of@[y] == NO_LAKE && r0[y] == NO_NODE && parent@[y] != NO_NODE implies #[trigger] committed@[y] by {
                    if y < i {
                        assert(c1[y]);
                    }
                }
            }
        } else {
            proof {
                if !ocean@[i as int] && lake_of@[i as int] == NO_LAKE && r0[i as int] == NO_NODE && parent@[i as int] != NO_NODE {
                    assert(committed@[i as int]);
                }
            }
        }
        i += 1;
    }
    (receiver, committed, cuts)
}

/// A hollow's own copy.
fn copy_shape(h: &HollowShape) -> (out: HollowShape)
    ensures
        out.members@ == h.members@,
        out.floor == h.floor,
        out.entry == h.entry,
        out.outlet == h.outlet,
        out.enclosed == h.enclosed,
{
    HollowShape { members: copy_nodes(&h.members), floor: h.floor, entry: h.entry, outlet: h.outlet, enclosed: h.enclosed }
}

/// Two hollows hold the same things.
pub open spec fn same_shape(a: HollowShape, b: HollowShape) -> bool {
    &&& a.members@ == b.members@
    &&& a.floor == b.floor
    &&& a.entry == b.entry
    &&& a.outlet == b.outlet
    &&& a.enclosed == b.enclosed
}

/// Some member of a hollow lies on one of `outlets`.
pub open spec fn touches(members: Seq<u32>, outlets: Seq<Vec<u32>>) -> bool {
    exists|k: int, l: int, j: int|
        0 <= k < members.len() && 0 <= l < outlets.len() && 0 <= j < outlets[l]@.len() && #[trigger] outlets[l]@[j] == #[trigger] members[k]
}

/// Which hollows end up kept: those the judge kept, but a pool found on an enclosed basin's
/// shore or inside a capped hollow (from `nested_from` on) that lies on a basin's way out.
pub open spec fn kept_after(hollows: Seq<HollowShape>, kept: Seq<bool>, nested_from: int, outlets: Seq<Vec<u32>>) -> Seq<bool> {
    Seq::new(hollows.len(), |h: int| kept[h] && !(h >= nested_from && touches(hollows[h].members@, outlets)))
}

/// The way out of a closed basin: its entry, then the flood's parents up the shore and over
/// the rim, short of the sea.
pub open spec fn is_way_out(flood_parent: Seq<u32>, ocean: Seq<bool>, entry: u32, path: Seq<u32>) -> bool {
    &&& path.len() >= 1
    &&& path[0] == entry
    &&& walks_up(flood_parent, ocean, path)
    &&& ({
        let p = flood_parent[path.last() as int];
        path.len() == flood_parent.len() || p == NO_NODE || ocean[p as int]
    })
}

/// The lakes laid out from `hollows` under `kept` and `levels`, with the way out of every kept
/// lake of an enclosed basin, and a pool on any of those ways out not kept.
pub open spec fn lays_out(
    ocean: Seq<bool>,
    basin: Seq<u32>,
    height: Seq<u64>,
    flood_parent: Seq<u32>,
    rank: Seq<u64>,
    levels: Seq<u64>,
    kept: Seq<bool>,
    nested_from: int,
    hollows: Seq<HollowShape>,
    lakes: Seq<Lake>,
    outlets: Seq<Vec<u32>>,
) -> bool {
    let kept_eff = kept_after(hollows, kept, nested_from, outlets);
    &&& hollows.len() <= lakes.len() <= hollows.len() + member_total(hollows)
    &&& forall|l: int| 0 <= l < lakes.len() ==> laid_from(#[trigger] lakes[l], hollows, kept_eff, basin, height, levels, flood_parent, rank)
    &&& forall|l: int| 0 <= l < hollows.len() ==> #[trigger] lakes[l].source == l
    &&& forall|l: int| hollows.len() <= l < lakes.len() ==> splits(hollows, kept_eff, height, #[trigger] lakes[l].source as int)
    &&& forall|l: int, m: int|
        hollows.len() <= m < lakes.len() && (#[trigger] lakes[m]).source == l ==> (#[trigger] lakes[l]).basin < lakes[m].basin
    &&& forall|a: int, b: int|
        hollows.len() <= a < b < lakes.len() ==> (#[trigger] lakes[a]).source < (#[trigger] lakes[b]).source || (
        lakes[a].source == lakes[b].source && lakes[a].basin < lakes[b].basin)
    &&& forall|h: int, b: u32|
        0 <= h < hollows.len() && splits(hollows, kept_eff, height, h) && #[trigger] has_pocket(hollows[h].members@, height, basin, b)
            ==> exists|l: int| 0 <= l < lakes.len() && (#[trigger] lakes[l]).source == h && lakes[l].basin == b
    &&& outlets.len() == lakes.len()
    &&& forall|l: int| 0 <= l < lakes.len() ==> if (#[trigger] lakes[l]).kept && lakes[l].enclosed {
        is_way_out(flood_parent, ocean, lakes[l].entry, outlets[l]@)
    } else {
        outlets[l]@.len() == 0
    }
}

/// The hollows a routing lays its lakes out from, the lakes, and each kept enclosed lake's way
/// out.
pub struct Layout {
    pub hollows: Vec<HollowShape>,
    pub lakes: Vec<Lake>,
    pub outlets: Vec<Vec<u32>>,
}

/// The level of each hollow, whole: the flood's spill at the entry of each of `hollows`, then
/// `nested_levels` for the pools.
pub open spec fn whole_levels(hollows: Seq<HollowShape>, spill: Seq<u64>, nested_levels: Seq<u64>) -> Seq<u64> {
    Seq::new(hollows.len() + nested_levels.len(), |h: int| if h < hollows.len() {
        spill[hollows[h].entry as int]
    } else {
        nested_levels[h - hollows.len()]
    })
}

/// Lays the lakes out from `hollows` and the pools `nested` after them ([`lay_lakes`]), finds
/// the way out of each kept lake of an enclosed basin, and keeps no pool that lies on one.
pub fn lay_out(
    ocean: &Vec<bool>,
    enclosed_basin: &Vec<u32>,
    height_key: &Vec<u64>,
    flood: &Flood,
    hollows: &Vec<HollowShape>,
    kept: &Vec<bool>,
    nested: &Vec<HollowShape>,
    nested_levels: &Vec<u64>,
    nested_kept: &Vec<bool>,
) -> (out: Layout)
    requires
        height_key@.len() <= u32::MAX,
        ocean@.len() == height_key@.len(),
        enclosed_basin@.len() == height_key@.len(),
        flood.spill_key@.len() == height_key@.len(),
        flood.parent@.len() == height_key@.len(),
        flood.order@.no_duplicates(),
        forall|a: int| 0 <= a < flood.order@.len() ==> #[trigger] flood.order@[a] < height_key@.len(),
        forall|x: int| 0 <= x < height_key@.len() ==> #[trigger] flood.parent@[x] == NO_NODE || flood.parent@[x] < height_key@.len(),
        kept@.len() == hollows@.len(),
        nested_levels@.len() == nested@.len(),
        nested_kept@.len() == nested@.len(),
        hollows_in_range(hollows@ + nested@, height_key@.len() as int),
        forall|h: int| 0 <= h < nested@.len() ==> !(#[trigger] nested@[h]).enclosed,
        hollows@.len() + nested@.len() + member_total(hollows@ + nested@) < u32::MAX,
    ensures
        out.hollows@.len() == hollows@.len() + nested@.len(),
        forall|h: int| 0 <= h < out.hollows@.len() ==> same_shape(#[trigger] out.hollows@[h], (hollows@ + nested@)[h]),
        hollows_in_range(out.hollows@, height_key@.len() as int),
        lays_out(ocean@, enclosed_basin@, height_key@, flood.parent@, ranks_of(flood.order@, height_key@.len() as int),
            whole_levels(hollows@, flood.spill_key@, nested_levels@), kept@ + nested_kept@, hollows@.len() as int, out.hollows@,
            out.lakes@, out.outlets@),
        forall|l: int| 0 <= l < out.lakes@.len() ==> lake_within(#[trigger] out.lakes@[l], height_key@.len() as int),
        out.lakes@.len() < u32::MAX,
{
    let n = height_key.len();
    let ghost joined = hollows@ + nested@;
    let mut all: Vec<HollowShape> = Vec::new();
    let mut kept_all: Vec<bool> = Vec::new();
    let mut levels: Vec<u64> = Vec::new();
    let mut h: usize = 0;
    while h < hollows.len()
        invariant
            h <= hollows@.len(),
            joined == hollows@ + nested@,
            kept@.len() == hollows@.len(),
            flood.spill_key@.len() == n,
            hollows_in_range(joined, n as int),
            all@.len() == h,
            kept_all@ == kept@.take(h as int),
            levels@.len() == h,
            forall|g: int| 0 <= g < h ==> same_shape(#[trigger] all@[g], joined[g]),
            forall|g: int| 0 <= g < h ==> #[trigger] levels@[g] == flood.spill_key@[hollows@[g].entry as int],
        decreases hollows@.len() - h,
    {
        proof {
            assert(joined[h as int] == hollows@[h as int]);
        }
        all.push(copy_shape(&hollows[h]));
        kept_all.push(kept[h]);
        levels.push(flood.spill_key[hollows[h].entry as usize]);
        proof {
            assert(kept@.take(h + 1) =~= kept@.take(h as int).push(kept@[h as int]));
        }
        h += 1;
    }
    let mut h: usize = 0;
    while h < nested.len()
        invariant
            h <= nested@.len(),
            joined == hollows@ + nested@,
            kept@.len() == hollows@.len(),
            nested_kept@.len() == nested@.len(),
            nested_levels@.len() == nested@.len(),
            all@.len() == hollows@.len() + h,
            kept_all@ == kept@ + nested_kept@.take(h as int),
            levels@.len() == hollows@.len() + h,
            forall|g: int| 0 <= g < hollows@.len() + h ==> same_shape(#[trigger] all@[g], joined[g]),
            forall|g: int| 0 <= g < hollows@.len() + h ==> #[trigger] levels@[g] == whole_levels(hollows@, flood.spill_key@, nested_levels@)[g],
        decreases nested@.len() - h,
    {
        proof {
            assert(joined[hollows@.len() + h] == nested@[h as int]);
        }
        all.push(copy_shape(&nested[h]));
        kept_all.push(nested_kept[h]);
        levels.push(nested_levels[h]);
        proof {
            assert(kept@ + nested_kept@.take(h + 1) =~= (kept@ + nested_kept@.take(h as int)).push(nested_kept@[h as int]));
        }
        h += 1;
    }
    proof {
        assert(nested_kept@.take(nested@.len() as int) =~= nested_kept@);
        assert(levels@ =~= whole_levels(hollows@, flood.spill_key@, nested_levels@)) by {
            assert forall|g: int| 0 <= g < hollows@.len() implies #[trigger] levels@[g] == whole_levels(hollows@, flood.spill_key@, nested_levels@)[g] by {
            }
        }
        assert forall|g: int| 0 <= g < all@.len() implies {
            &&& ascending((#[trigger] all@[g]).members@)
            &&& forall|k: int| 0 <= k < all@[g].members@.len() ==> #[trigger] all@[g].members@[k] < n
            &&& all@[g].entry < n
        } by {
            assert(same_shape(all@[g], joined[g]));
        }
        assert(member_total(all@) == member_total(joined)) by {
            lemma_member_total_same(all@, joined);
        }
    }
    let rank = order_ranks(&flood.order, n);
    proof {
        assert(rank@ =~= ranks_of(flood.order@, n as int));
    }
    let mut lakes = lay_lakes(&all, &kept_all, enclosed_basin, height_key, &levels, &flood.parent, &rank);
    let mut outlets: Vec<Vec<u32>> = Vec::new();
    let mut l: usize = 0;
    while l < lakes.len()
        invariant
            l <= lakes@.len(),
            n == height_key@.len(),
            ocean@.len() == n,
            flood.parent@.len() == n,
            forall|x: int| 0 <= x < n ==> #[trigger] flood.parent@[x] == NO_NODE || flood.parent@[x] < n,
            forall|m: int| 0 <= m < lakes@.len() ==> lake_within(#[trigger] lakes@[m], n as int),
            outlets@.len() == l,
            forall|m: int, j: int| 0 <= m < l && 0 <= j < outlets@[m]@.len() ==> #[trigger] outlets@[m]@[j] < n,
            forall|m: int| 0 <= m < l ==> if (#[trigger] lakes@[m]).kept && lakes@[m].enclosed {
                is_way_out(flood.parent@, ocean@, lakes@[m].entry, outlets@[m]@)
            } else {
                outlets@[m]@.len() == 0
            },
        decreases lakes@.len() - l,
    {
        if lakes[l].kept && lakes[l].enclosed {
            proof {
                assert(lake_within(lakes@[l as int], n as int));
            }
            let path = walk_parents(&flood.parent, ocean, lakes[l].entry, n);
            proof {
                assert forall|j: int| 0 <= j < path@.len() implies #[trigger] path@[j] < n by {
                    if j > 0 {
                        lemma_walk_in_range(flood.parent@, ocean@, path@, j);
                    }
                }
            }
            let ghost o0 = outlets@;
            outlets.push(path);
            proof {
                assert forall|m: int, j: int| 0 <= m < l + 1 && 0 <= j < outlets@[m]@.len() implies #[trigger] outlets@[m]@[j] < n by {
                    if m < l {
                        assert(outlets@[m] == o0[m]);
                    }
                }
            }
        } else {
            let ghost o0 = outlets@;
            outlets.push(Vec::new());
            proof {
                assert forall|m: int, j: int| 0 <= m < l + 1 && 0 <= j < outlets@[m]@.len() implies #[trigger] outlets@[m]@[j] < n by {
                    if m < l {
                        assert(outlets@[m] == o0[m]);
                    }
                }
            }
        }
        l += 1;
    }
    // The nodes on some way out.
    let mut on_path: Vec<bool> = Vec::new();
    let mut x: usize = 0;
    while x < n
        invariant
            x <= n,
            on_path@.len() == x,
            forall|y: int| 0 <= y < x ==> !#[trigger] on_path@[y],
        decreases n - x,
    {
        on_path.push(false);
        x += 1;
    }
    let mut l: usize = 0;
    while l < outlets.len()
        invariant
            l <= outlets@.len(),
            on_path@.len() == n,
            forall|m: int, j: int| 0 <= m < outlets@.len() && 0 <= j < outlets@[m]@.len() ==> #[trigger] outlets@[m]@[j] < n,
            forall|y: int| 0 <= y < n ==> (#[trigger] on_path@[y] <==> exists|m: int, j: int|
                0 <= m < l && 0 <= j < outlets@[m]@.len() && outlets@[m]@[j] == y),
        decreases outlets@.len() - l,
    {
        let path = &outlets[l];
        let mut j: usize = 0;
        while j < path.len()
            invariant
                j <= path@.len(),
                l < outlets@.len(),
                path@ == outlets@[l as int]@,
                on_path@.len() == n,
                forall|m: int, j2: int| 0 <= m < outlets@.len() && 0 <= j2 < outlets@[m]@.len() ==> #[trigger] outlets@[m]@[j2] < n,
                forall|y: int| 0 <= y < n ==> (#[trigger] on_path@[y] <==> (exists|m: int, j2: int|
                    0 <= m < l && 0 <= j2 < outlets@[m]@.len() && outlets@[m]@[j2] == y) || exists|j2: int| 0 <= j2 < j && path@[j2] == y),
            decreases path@.len() - j,
        {
            let y = path[j];
            proof {
                assert(outlets@[l as int]@[j as int] < n);
            }
            on_path.set(y as usize, true);
            proof {
                assert forall|z: int| 0 <= z < n implies (#[trigger] on_path@[z] <==> (exists|m: int, j2: int|
                    0 <= m < l && 0 <= j2 < outlets@[m]@.len() && outlets@[m]@[j2] == z) || exists|j2: int| 0 <= j2 < j + 1 && path@[j2] == z) by {
                    if z == y as int {
                        assert(path@[j as int] == z);
                    }
                    if exists|j2: int| 0 <= j2 < j + 1 && path@[j2] == z {
                        let j2 = choose|j2: int| 0 <= j2 < j + 1 && path@[j2] == z;
                        if j2 < j {
                            assert(exists|j3: int| 0 <= j3 < j && path@[j3] == z);
                        }
                    }
                }
            }
            j += 1;
        }
        proof {
            assert forall|z: int| 0 <= z < n implies (#[trigger] on_path@[z] <==> exists|m: int, j2: int|
                0 <= m < l + 1 && 0 <= j2 < outlets@[m]@.len() && outlets@[m]@[j2] == z) by {
                if exists|j2: int| 0 <= j2 < path@.len() && path@[j2] == z {
                    let j2 = choose|j2: int| 0 <= j2 < path@.len() && path@[j2] == z;
                    assert(outlets@[l as int]@[j2] == z);
                }
                if exists|m: int, j2: int| 0 <= m < l + 1 && 0 <= j2 < outlets@[m]@.len() && outlets@[m]@[j2] == z {
                    let (m, j2) = choose|m: int, j2: int| 0 <= m < l + 1 && 0 <= j2 < outlets@[m]@.len() && outlets@[m]@[j2] == z;
                    if m == l {
                        assert(path@[j2] == z);
                    } else {
                        assert(exists|m2: int, j3: int| 0 <= m2 < l && 0 <= j3 < outlets@[m2]@.len() && outlets@[m2]@[j3] == z);
                    }
                }
            }
        }
        l += 1;
    }
    let hn = hollows.len();
    let total = all.len();
    let ghost before = lakes@;
    let ghost kept_eff = kept_after(all@, kept_all@, hn as int, outlets@);
    let mut l: usize = hn;
    while l < total
        invariant
            hn <= l <= total,
            hn == hollows@.len(),
            total == all@.len(),
            total <= before.len(),
            lakes@.len() == before.len(),
            on_path@.len() == n,
            hollows_in_range(all@, n as int),
            forall|y: int| 0 <= y < n ==> (#[trigger] on_path@[y] <==> exists|m: int, j: int|
                0 <= m < outlets@.len() && 0 <= j < outlets@[m]@.len() && outlets@[m]@[j] == y),
            forall|m: int| 0 <= m < before.len() ==> #[trigger] lakes@[m] == if hn <= m < l && before[m].kept && touches(all@[m].members@, outlets@) {
                Lake {
                    members: lakes@[m].members,
                    entry: before[m].entry,
                    outlet: before[m].outlet,
                    level_key: before[m].level_key,
                    enclosed: before[m].enclosed,
                    kept: false,
                    source: before[m].source,
                    basin: before[m].basin,
                }
            } else {
                before[m]
            },
            forall|m: int| 0 <= m < before.len() && hn <= m < l && before[m].kept && touches(all@[m].members@, outlets@)
                ==> (#[trigger] lakes@[m]).members@.len() == 0,
        decreases total - l,
    {
        if lakes[l].kept {
            let ms = &all[l].members;
            let mut hit = false;
            let mut k: usize = 0;
            while k < ms.len()
                invariant
                    k <= ms@.len(),
                    l < all@.len(),
                    ms@ == all@[l as int].members@,
                    hollows_in_range(all@, n as int),
                    on_path@.len() == n,
                    hit == exists|q: int| 0 <= q < k && on_path@[#[trigger] ms@[q] as int],
                decreases ms@.len() - k,
            {
                proof {
                    assert(ms@[k as int] < n);
                }
                if on_path[ms[k] as usize] {
                    hit = true;
                }
                proof {
                    if exists|q: int| 0 <= q < k + 1 && on_path@[#[trigger] ms@[q] as int] {
                        let q = choose|q: int| 0 <= q < k + 1 && on_path@[#[trigger] ms@[q] as int];
                        if q < k {
                            assert(exists|q2: int| 0 <= q2 < k && on_path@[#[trigger] ms@[q2] as int]);
                        }
                    }
                }
                k += 1;
            }
            proof {
                assert(hit == touches(all@[l as int].members@, outlets@)) by {
                    if hit {
                        let q = choose|q: int| 0 <= q < ms@.len() && on_path@[#[trigger] ms@[q] as int];
                        assert(ms@[q] < n);
                        let (m, j) = choose|m: int, j: int| 0 <= m < outlets@.len() && 0 <= j < outlets@[m]@.len() && outlets@[m]@[j] == ms@[q] as int;
                        assert(outlets@[m]@[j] == ms@[q]);
                    }
                    if touches(all@[l as int].members@, outlets@) {
                        let (q, m, j) = choose|q: int, m: int, j: int|
                            0 <= q < ms@.len() && 0 <= m < outlets@.len() && 0 <= j < outlets@[m]@.len() && #[trigger] outlets@[m]@[j] == #[trigger] ms@[q];
                        assert(ms@[q] < n);
                        assert(on_path@[ms@[q] as int]);
                    }
                }
            }
            if hit {
                let dry = Lake {
                    members: Vec::new(),
                    entry: lakes[l].entry,
                    outlet: lakes[l].outlet,
                    level_key: lakes[l].level_key,
                    enclosed: lakes[l].enclosed,
                    kept: false,
                    source: lakes[l].source,
                    basin: lakes[l].basin,
                };
                lakes.set(l, dry);
            }
        }
        l += 1;
    }
    proof {
        lemma_dried_layout(ocean@, enclosed_basin@, height_key@, flood.parent@, ranks_of(flood.order@, n as int), levels@,
            kept_all@, hn as int, all@, before, lakes@, outlets@);
    }
    Layout { hollows: all, lakes, outlets }
}

/// Drying the pools that lie on a way out keeps the layout a layout, under the kept
/// flags that leaves.
proof fn lemma_dried_layout(
    ocean: Seq<bool>,
    basin: Seq<u32>,
    height: Seq<u64>,
    flood_parent: Seq<u32>,
    rank: Seq<u64>,
    levels: Seq<u64>,
    kept: Seq<bool>,
    nested_from: int,
    hollows: Seq<HollowShape>,
    before: Seq<Lake>,
    lakes: Seq<Lake>,
    outlets: Seq<Vec<u32>>,
)
    requires
        0 <= nested_from <= hollows.len(),
        kept.len() == hollows.len(),
        levels.len() == hollows.len(),
        forall|h: int| nested_from <= h < hollows.len() ==> !(#[trigger] hollows[h]).enclosed,
        hollows.len() <= before.len() <= hollows.len() + member_total(hollows),
        forall|l: int| 0 <= l < before.len() ==> laid_from(#[trigger] before[l], hollows, kept, basin, height, levels, flood_parent, rank),
        forall|l: int| 0 <= l < hollows.len() ==> #[trigger] before[l].source == l,
        forall|l: int| hollows.len() <= l < before.len() ==> splits(hollows, kept, height, #[trigger] before[l].source as int),
        forall|l: int, m: int|
            hollows.len() <= m < before.len() && (#[trigger] before[m]).source == l ==> (#[trigger] before[l]).basin < before[m].basin,
        forall|a: int, b: int|
            hollows.len() <= a < b < before.len() ==> (#[trigger] before[a]).source < (#[trigger] before[b]).source || (
            before[a].source == before[b].source && before[a].basin < before[b].basin),
        forall|h: int, b: u32|
            0 <= h < hollows.len() && splits(hollows, kept, height, h) && #[trigger] has_pocket(hollows[h].members@, height, basin, b)
                ==> exists|l: int| 0 <= l < before.len() && (#[trigger] before[l]).source == h && before[l].basin == b,
        outlets.len() == before.len(),
        forall|l: int| 0 <= l < before.len() ==> if (#[trigger] before[l]).kept && before[l].enclosed {
            is_way_out(flood_parent, ocean, before[l].entry, outlets[l]@)
        } else {
            outlets[l]@.len() == 0
        },
        lakes.len() == before.len(),
        forall|m: int| 0 <= m < before.len() ==> #[trigger] lakes[m] == if nested_from <= m < hollows.len() && before[m].kept && touches(hollows[m].members@, outlets) {
            Lake {
                members: lakes[m].members,
                entry: before[m].entry,
                outlet: before[m].outlet,
                level_key: before[m].level_key,
                enclosed: before[m].enclosed,
                kept: false,
                source: before[m].source,
                basin: before[m].basin,
            }
        } else {
            before[m]
        },
        forall|m: int| 0 <= m < before.len() && nested_from <= m < hollows.len() && before[m].kept && touches(hollows[m].members@, outlets)
            ==> (#[trigger] lakes[m]).members@.len() == 0,
    ensures
        lays_out(ocean, basin, height, flood_parent, rank, levels, kept, nested_from, hollows, lakes, outlets),
{
    let kept_eff = kept_after(hollows, kept, nested_from, outlets);
    assert forall|h: int| 0 <= h < hollows.len() implies #[trigger] splits(hollows, kept_eff, height, h) == splits(hollows, kept, height, h) by {
    }
    assert forall|l: int| 0 <= l < lakes.len() implies laid_from(#[trigger] lakes[l], hollows, kept_eff, basin, height, levels, flood_parent, rank) by {
        let src = before[l].source as int;
        assert(laid_from(before[l], hollows, kept, basin, height, levels, flood_parent, rank));
        assert(splits(hollows, kept_eff, height, src) == splits(hollows, kept, height, src));
        if nested_from <= l < hollows.len() && before[l].kept && touches(hollows[l].members@, outlets) {
            assert(src == l);
            assert(!hollows[l].enclosed);
            assert(!kept_eff[l]);
            assert(forall|x: u32| !(#[trigger] lakes[l].members@.contains(x)));
        } else if l < hollows.len() {
            assert(src == l);
        } else {
            assert(splits(hollows, kept, height, src));
            assert(hollows[src].enclosed);
            assert(src < nested_from);
        }
    }
    assert forall|l: int| 0 <= l < lakes.len() implies ((#[trigger] lakes[l]).kept && lakes[l].enclosed) == (before[l].kept && before[l].enclosed)
        && lakes[l].entry == before[l].entry && lakes[l].source == before[l].source && lakes[l].basin == before[l].basin by {
        if nested_from <= l < hollows.len() && before[l].kept && touches(hollows[l].members@, outlets) {
            assert(before[l].source == l);
            assert(laid_from(before[l], hollows, kept, basin, height, levels, flood_parent, rank));
        }
    }
    assert forall|l: int| hollows.len() <= l < lakes.len() implies splits(hollows, kept_eff, height, #[trigger] lakes[l].source as int) by {
        assert(lakes[l] == before[l]);
    }
    assert forall|h: int, b: u32|
        0 <= h < hollows.len() && splits(hollows, kept_eff, height, h) && #[trigger] has_pocket(hollows[h].members@, height, basin, b)
        implies exists|l: int| 0 <= l < lakes.len() && (#[trigger] lakes[l]).source == h && lakes[l].basin == b by {
        let l = choose|l: int| 0 <= l < before.len() && (#[trigger] before[l]).source == h && before[l].basin == b;
        assert(lakes[l].source == before[l].source);
    }
    assert forall|l: int, m: int|
        hollows.len() <= m < lakes.len() && (#[trigger] lakes[m]).source == l implies (#[trigger] lakes[l]).basin < lakes[m].basin by {
        assert(lakes[m] == before[m]);
        assert(before[m].source == l);
        assert(0 <= l);
        if l < lakes.len() {
            assert(lakes[l].basin == before[l].basin);
        }
    }
    assert forall|a: int, b: int|
        hollows.len() <= a < b < lakes.len() implies (#[trigger] lakes[a]).source < (#[trigger] lakes[b]).source || (
        lakes[a].source == lakes[b].source && lakes[a].basin < lakes[b].basin) by {
        assert(lakes[a] == before[a]);
        assert(lakes[b] == before[b]);
    }
}

/// Each node's rank in the flood's pop order.
pub open spec fn ranks_of(order: Seq<u32>, n: int) -> Seq<u64> {
    Seq::new(n as nat, |x: int| rank_in(order, x) as u64)
}

/// The tree water is routed along once each enclosed basin's shore is led down into it: the
/// flood's parents with `r`'s shore trees laid over them.
pub open spec fn shore_walk(r: Routing, hollows: Seq<HollowShape>, flood_parent: Seq<u32>, n: int) -> Seq<u32> {
    Seq::new(n as nat, |x: int| retreed(r.shore_trees@, hollows, flood_parent, x, r.shore_trees@.len() as int))
}

/// `r` is where each drop goes on `graph`, given the flood, the hollows and which are kept, the
/// pools found on the shores of enclosed basins and inside capped hollows with their levels and
/// which are kept, which hollows are capped, and each node's steepest lower neighbour:
/// - the lakes are laid out from the hollows, then the pools ([`lay_out`]), and a pool that
///   lies on the way out of a kept lake of an enclosed basin is not kept;
/// - each node's lake is the last kept lake holding it, and its surface is that lake's level,
///   or its own ground outside the lakes;
/// - each kept hollow of an enclosed basin with ground at or below the datum is flooded anew
///   from that ground, confined to the hollow, and each `capped` hollow from its floor, with
///   its way out from the floor along the tree the first floods leave ([`shore_tree`],
///   [`capped_tree`]);
/// - each kept lake of an enclosed basin is flooded anew from its entry, confined to the lake,
///   and a node of it takes that flood's parent ([`pocket_tree`]): a neighbour in the same
///   lake (or its entry), the entry none; elsewhere a node's parent is the flood's, but
///   where a shore flood reached it and then where a capped flood did (off the way out), whose
///   parent it takes ([`retreed`], [`capped_retreed`]);
/// - a node the cut pass committed sends its water to its parent; every other node to its
///   [`first_receiver`];
/// - the cut pass committed every land node outside the lakes that had nowhere to go and has a
///   parent, and only land outside the lakes that has one, each on a recorded cut.
pub open spec fn is_routing(
    rows: Seq<Seq<u32>>,
    ocean: Seq<bool>,
    basin: Seq<u32>,
    height: Seq<u64>,
    spill: Seq<u64>,
    flood_parent: Seq<u32>,
    order: Seq<u32>,
    hollows: Seq<HollowShape>,
    kept: Seq<bool>,
    nested: Seq<HollowShape>,
    nested_levels: Seq<u64>,
    nested_kept: Seq<bool>,
    capped: Seq<bool>,
    steepest: Seq<u32>,
    r: Routing,
) -> bool {
    let n = height.len() as int;
    let lakes = r.lakes@;
    let rank = ranks_of(order, n);
    &&& r.hollows@.len() == hollows.len() + nested.len()
    &&& forall|h: int| 0 <= h < r.hollows@.len() ==> same_shape(#[trigger] r.hollows@[h], (hollows + nested)[h])
    &&& lays_out(ocean, basin, height, flood_parent, rank, whole_levels(hollows, spill, nested_levels), kept + nested_kept,
        hollows.len() as int, r.hollows@, lakes, r.outlets@)
    &&& r.lake_of@.len() == n
    &&& r.surface_key@.len() == n
    &&& r.parent@.len() == n
    &&& r.receiver@.len() == n
    &&& r.committed@.len() == n
    &&& forall|x: int| 0 <= x < n ==> #[trigger] r.lake_of@[x] == lake_holding(lakes, x, lakes.len() as int)
    &&& forall|x: int| 0 <= x < n ==> #[trigger] r.surface_key@[x] == if r.lake_of@[x] != NO_LAKE {
        lakes[r.lake_of@[x] as int].level_key
    } else {
        height[x]
    }
    &&& forall|x: int| 0 <= x < n ==> #[trigger] r.parent@[x] == NO_NODE || r.parent@[x] < n
    &&& forall|s: int| 0 <= s < r.shore_trees@.len() ==> #[trigger] shore_tree(rows, height, hollows, kept, r.shore_trees@[s])
    &&& forall|a: int, b: int|
        0 <= a < b < r.shore_trees@.len() ==> (#[trigger] r.shore_trees@[a]).source < (#[trigger] r.shore_trees@[b]).source
    &&& forall|h: int|
        0 <= h < hollows.len() && kept[h] && hollows[h].enclosed && #[trigger] has_submerged(hollows[h].members@, height)
            ==> exists|s: int| 0 <= s < r.shore_trees@.len() && (#[trigger] r.shore_trees@[s]).source == h
    &&& forall|s: int| 0 <= s < r.capped_trees@.len() ==> #[trigger] capped_tree(rows, height, shore_walk(r, hollows, flood_parent, n),
        r.hollows@, capped, r.capped_trees@[s])
    &&& forall|a: int, b: int|
        0 <= a < b < r.capped_trees@.len() ==> (#[trigger] r.capped_trees@[a]).tree.source < (#[trigger] r.capped_trees@[b]).tree.source
    &&& forall|h: int| 0 <= h < r.hollows@.len() && #[trigger] capped[h] ==> exists|s: int| 0 <= s < r.capped_trees@.len()
        && (#[trigger] r.capped_trees@[s]).tree.source == h
    &&& forall|x: int|
        0 <= x < n && !(r.lake_of@[x] < lakes.len() && lakes[r.lake_of@[x] as int].kept && lakes[r.lake_of@[x] as int].enclosed)
            ==> #[trigger] r.parent@[x] == capped_retreed(r.capped_trees@, r.hollows@, shore_walk(r, hollows, flood_parent, n), x,
            r.capped_trees@.len() as int)
    &&& forall|s: int| 0 <= s < r.pocket_trees@.len() ==> #[trigger] pocket_tree(rows, height, lakes, r.lake_of@, r.pocket_trees@[s])
    &&& forall|a: int, b: int|
        0 <= a < b < r.pocket_trees@.len() ==> (#[trigger] r.pocket_trees@[a]).source < (#[trigger] r.pocket_trees@[b]).source
    &&& forall|x: int|
        #![trigger r.lake_of@[x]]
        0 <= x < n && r.lake_of@[x] < lakes.len() && lakes[r.lake_of@[x] as int].kept && lakes[r.lake_of@[x] as int].enclosed
            ==> exists|s: int| 0 <= s < r.pocket_trees@.len() && (#[trigger] r.pocket_trees@[s]).source == r.lake_of@[x]
            && r.parent@[x] == r.pocket_trees@[s].parent@[x]
    &&& forall|x: int|
        0 <= x < n && r.lake_of@[x] < lakes.len() && lakes[r.lake_of@[x] as int].kept && lakes[r.lake_of@[x] as int].enclosed ==> {
            let lake = lakes[r.lake_of@[x] as int];
            &&& x == lake.entry ==> #[trigger] r.parent@[x] == NO_NODE
            &&& r.parent@[x] != NO_NODE ==> rows[x].contains(r.parent@[x]) && (r.parent@[x] == lake.entry || r.lake_of@[r.parent@[x] as int] == r.lake_of@[x])
        }
    &&& forall|x: int| 0 <= x < n ==> #[trigger] r.receiver@[x] == if r.committed@[x] {
        r.parent@[x]
    } else {
        first_receiver(ocean, r.lake_of@, r.parent@, steepest, lakes, x)
    }
    &&& forall|x: int|
        0 <= x < n && #[trigger] r.committed@[x] ==> !ocean[x] && r.lake_of@[x] == NO_LAKE && r.parent@[x] != NO_NODE
    &&& forall|x: int|
        0 <= x < n && !ocean[x] && r.lake_of@[x] == NO_LAKE && first_receiver(ocean, r.lake_of@, r.parent@, steepest, lakes, x) == NO_NODE
            && r.parent@[x] != NO_NODE ==> #[trigger] r.committed@[x]
    &&& forall|c: int| 0 <= c < r.cuts@.len() ==> cut_path(r.parent@, r.committed@, #[trigger] r.cuts@[c]@)
    &&& forall|x: int| 0 <= x < n && #[trigger] r.committed@[x] ==> on_a_cut(r.cuts@, x)
}

/// No land node outside the lakes is left with nowhere to send its water, but one the flood
/// never reached: after routing, every such node the flood gave a parent has a receiver,
/// unless it is a closed basin's entry.
pub proof fn lemma_no_land_is_stranded(
    rows: Seq<Seq<u32>>,
    ocean: Seq<bool>,
    basin: Seq<u32>,
    height: Seq<u64>,
    spill: Seq<u64>,
    flood_parent: Seq<u32>,
    order: Seq<u32>,
    hollows: Seq<HollowShape>,
    kept: Seq<bool>,
    nested: Seq<HollowShape>,
    nested_levels: Seq<u64>,
    nested_kept: Seq<bool>,
    capped: Seq<bool>,
    steepest: Seq<u32>,
    r: Routing,
    x: int,
)
    requires
        is_routing(rows, ocean, basin, height, spill, flood_parent, order, hollows, kept, nested, nested_levels, nested_kept, capped, steepest, r),
        height.len() <= u32::MAX,
        0 <= x < height.len(),
        !ocean[x],
        r.lake_of@[x] == NO_LAKE,
        r.parent@[x] != NO_NODE,
        !sink_at(r.lakes@, x),
    ensures
        r.receiver@[x] != NO_NODE,
{
    let lakes = r.lakes@;
    if !r.committed@[x] {
        let f = first_receiver(ocean, r.lake_of@, r.parent@, steepest, lakes, x);
        if f == NO_NODE {
            assert(r.committed@[x]);
        }
    }
}

/// The node `lake_holding` names is a kept lake holding the node.
proof fn lemma_lake_holding(lakes: Seq<Lake>, x: int, upto: int)
    requires
        0 <= upto <= lakes.len(),
        upto < NO_LAKE,
        lake_holding(lakes, x, upto) != NO_LAKE,
    ensures
        lake_holding(lakes, x, upto) < upto,
        lakes[lake_holding(lakes, x, upto) as int].kept,
        lakes[lake_holding(lakes, x, upto) as int].members@.contains(x as u32),
    decreases upto,
{
    if upto > 0 && !(lakes[upto - 1].kept && lakes[upto - 1].members@.contains(x as u32)) {
        lemma_lake_holding(lakes, x, upto - 1);
    }
}

/// No cut runs through a lake: after routing, a node under a lake's water belongs to a kept
/// lake that holds it, stands at that lake's level, and no cut stepped from it; every node
/// outside the lakes stands at its own ground.
pub proof fn lemma_no_cut_in_a_lake(
    rows: Seq<Seq<u32>>,
    ocean: Seq<bool>,
    basin: Seq<u32>,
    height: Seq<u64>,
    spill: Seq<u64>,
    flood_parent: Seq<u32>,
    order: Seq<u32>,
    hollows: Seq<HollowShape>,
    kept: Seq<bool>,
    nested: Seq<HollowShape>,
    nested_levels: Seq<u64>,
    nested_kept: Seq<bool>,
    capped: Seq<bool>,
    steepest: Seq<u32>,
    r: Routing,
    x: int,
)
    requires
        is_routing(rows, ocean, basin, height, spill, flood_parent, order, hollows, kept, nested, nested_levels, nested_kept,
            capped, steepest, r),
        r.lakes@.len() < NO_LAKE,
        0 <= x < height.len(),
    ensures
        r.lake_of@[x] != NO_LAKE ==> {
            &&& r.lake_of@[x] < r.lakes@.len()
            &&& r.lakes@[r.lake_of@[x] as int].kept
            &&& r.lakes@[r.lake_of@[x] as int].members@.contains(x as u32)
            &&& r.surface_key@[x] == r.lakes@[r.lake_of@[x] as int].level_key
            &&& !r.committed@[x]
        },
        r.lake_of@[x] == NO_LAKE ==> r.surface_key@[x] == height[x],
{
    let lakes = r.lakes@;
    assert(r.lake_of@[x] == lake_holding(lakes, x, lakes.len() as int));
    if r.lake_of@[x] != NO_LAKE {
        lemma_lake_holding(lakes, x, lakes.len() as int);
    }
}

proof fn lemma_no_exit_from(lakes: Seq<Lake>, ocean: Seq<bool>, x: int, upto: int)
    requires
        0 <= upto <= lakes.len(),
        ocean[x],
        forall|l: int| 0 <= l < lakes.len() && (#[trigger] lakes[l]).kept && !lakes[l].enclosed ==> !ocean[lakes[l].entry as int],
    ensures
        exit_at(lakes, x, upto) is None,
    decreases upto,
{
    if upto > 0 {
        lemma_no_exit_from(lakes, ocean, x, upto - 1);
        if lakes[upto - 1].kept && !lakes[upto - 1].enclosed {
            assert(!ocean[lakes[upto - 1].entry as int]);
        }
    }
}

/// The sea sends its water nowhere: after routing, no node of the sea has a receiver, where no
/// hollow's entry lies in the sea.
pub proof fn lemma_the_sea_sends_nowhere(
    rows: Seq<Seq<u32>>,
    ocean: Seq<bool>,
    basin: Seq<u32>,
    height: Seq<u64>,
    spill: Seq<u64>,
    flood_parent: Seq<u32>,
    order: Seq<u32>,
    hollows: Seq<HollowShape>,
    kept: Seq<bool>,
    nested: Seq<HollowShape>,
    nested_levels: Seq<u64>,
    nested_kept: Seq<bool>,
    capped: Seq<bool>,
    steepest: Seq<u32>,
    r: Routing,
    x: int,
)
    requires
        is_routing(rows, ocean, basin, height, spill, flood_parent, order, hollows, kept, nested, nested_levels, nested_kept,
            capped, steepest, r),
        kept.len() == hollows.len(),
        nested_kept.len() == nested.len(),
        0 <= x < height.len(),
        ocean[x],
        forall|h: int| 0 <= h < hollows.len() + nested.len() ==> !ocean[#[trigger] (hollows + nested)[h].entry as int],
    ensures
        r.receiver@[x] == NO_NODE,
{
    let lakes = r.lakes@;
    let all = hollows + nested;
    let kept_eff = kept_after(r.hollows@, kept + nested_kept, hollows.len() as int, r.outlets@);
    assert forall|l: int| 0 <= l < lakes.len() && (#[trigger] lakes[l]).kept && !lakes[l].enclosed implies !ocean[lakes[l].entry as int] by {
        assert(laid_from(lakes[l], r.hollows@, kept_eff, basin, height, whole_levels(hollows, spill, nested_levels), flood_parent,
            ranks_of(order, height.len() as int)));
        let src = lakes[l].source as int;
        assert(same_shape(r.hollows@[src], all[src]));
        assert(!ocean[all[src].entry as int]);
    }
    lemma_no_exit_from(lakes, ocean, x, lakes.len() as int);
    assert(!r.committed@[x]);
}

/// Where each drop goes once the hollows are decided.
///
/// The hollows are laid out as lakes, the pools found on the shores of enclosed basins and
/// inside capped hollows after them ([`lay_out`]): a kept hollow stands flat at its level, a
/// kept hollow in an enclosed basin becomes one lake per basin it has ground in at or below the
/// datum, and a pool on the way out of such a lake is not kept. Each lake node's water runs along the flood's tree
/// to its lake's entry -- re-flooded inside each enclosed lake from its entry, and inside the
/// hollow round it from all its ground at or below the datum, so the shore leads down into the
/// basin, and inside each `capped` hollow from its floor, so an inner basin's ground leads to
/// it -- and leaves an open lake over its outlet; an enclosed lake keeps its water. Every
/// other land node sends its water to its `steepest` lower neighbour, and one with none is cut
/// out along its parent chain.
pub fn route(
    graph: &LandGraph,
    ocean: &Vec<bool>,
    enclosed_basin: &Vec<u32>,
    height_key: &Vec<u64>,
    flood: &Flood,
    hollows: &Vec<HollowShape>,
    kept: &Vec<bool>,
    nested: &Vec<HollowShape>,
    nested_levels: &Vec<u64>,
    nested_kept: &Vec<bool>,
    capped: &Vec<bool>,
    steepest: &Vec<u32>,
) -> (routing: Routing)
    requires
        graph.node_count() <= u32::MAX,
        ocean@.len() == graph.node_count(),
        enclosed_basin@.len() == graph.node_count(),
        height_key@.len() == graph.node_count(),
        steepest@.len() == graph.node_count(),
        flood.spill_key@.len() == graph.node_count(),
        flood.parent@.len() == graph.node_count(),
        flood.order@.no_duplicates(),
        forall|a: int| 0 <= a < flood.order@.len() ==> #[trigger] flood.order@[a] < graph.node_count(),
        forall|x: int| 0 <= x < graph.node_count() ==> #[trigger] flood.parent@[x] == NO_NODE || flood.parent@[x] < graph.node_count(),
        kept@.len() == hollows@.len(),
        nested_levels@.len() == nested@.len(),
        nested_kept@.len() == nested@.len(),
        hollows_in_range(hollows@ + nested@, graph.node_count()),
        forall|h: int| 0 <= h < nested@.len() ==> !(#[trigger] nested@[h]).enclosed,
        hollows@.len() + nested@.len() + member_total(hollows@ + nested@) < u32::MAX,
        capped@.len() == hollows@.len() + nested@.len(),
        forall|h: int| 0 <= h < capped@.len() && #[trigger] capped@[h] ==> (hollows@ + nested@)[h].members@.contains(
            (hollows@ + nested@)[h].floor),
    ensures
        is_routing(graph.rows(), ocean@, enclosed_basin@, height_key@, flood.spill_key@, flood.parent@, flood.order@, hollows@,
            kept@, nested@, nested_levels@, nested_kept@, capped@, steepest@, routing),
{
    let n = graph.len();
    proof {
        assert forall|h: int| 0 <= h < hollows@.len() implies #[trigger] hollows@[h] == (hollows@ + nested@)[h] by {}
        assert(hollows_in_range(hollows@, n as int)) by {
            assert forall|h: int| 0 <= h < hollows@.len() implies {
                &&& ascending((#[trigger] hollows@[h]).members@)
                &&& forall|k: int| 0 <= k < hollows@[h].members@.len() ==> #[trigger] hollows@[h].members@[k] < n
                &&& hollows@[h].entry < n
            } by {
                assert(hollows@[h] == (hollows@ + nested@)[h]);
            }
        }
    }
    let layout = lay_out(ocean, enclosed_basin, height_key, flood, hollows, kept, nested, nested_levels, nested_kept);
    let Layout { hollows: laid, lakes, outlets } = layout;
    let (lake_of, surface_key) = flatten_lakes(&lakes, height_key);
    let (shore, shore_trees) = shore_parents(graph, height_key, hollows, kept, &flood.parent);
    proof {
        assert forall|h: int| 0 <= h < laid@.len() && #[trigger] capped@[h] implies laid@[h].members@.contains(laid@[h].floor) by {
            assert(same_shape(laid@[h], (hollows@ + nested@)[h]));
        }
    }
    let (inner, capped_trees) = capped_parents(graph, height_key, &laid, capped, &shore);
    let (parent, pocket_trees) = pocket_parents(graph, height_key, &lakes, &lake_of, &inner);
    let first = first_receivers(ocean, &lake_of, &parent, steepest, &lakes);
    let (receiver, committed, cuts) = cut_minima(ocean, &lake_of, &parent, first);
    let ghost ct = capped_trees@;
    let ghost nh = laid@.len();
    let ghost pt = pocket_trees@;
    let routing = Routing { hollows: laid, lakes, outlets, lake_of, surface_key, parent, receiver, committed, cuts, shore_trees,
        capped_trees, pocket_trees };
    proof {
        assert(shore@ =~= shore_walk(routing, hollows@, flood.parent@, n as int));
        assert(routing.capped_trees@ == ct);
        assert(routing.pocket_trees@ == pt);
        assert forall|h: int| 0 <= h < routing.hollows@.len() && #[trigger] capped@[h] implies exists|s: int| 0 <= s
            < routing.capped_trees@.len() && (#[trigger] routing.capped_trees@[s]).tree.source == h by {
            assert(h < nh);
            let s = choose|s: int| 0 <= s < ct.len() && (#[trigger] ct[s]).tree.source == h;
            assert(routing.capped_trees@[s] == ct[s]);
        }
    }
    routing
}

/// The layout of the lakes, each node's lake and the key of the surface it stands at, before any water is
/// routed: the part of [`route`] that the steepest descent is measured on.
pub fn lake_surfaces(
    ocean: &Vec<bool>,
    enclosed_basin: &Vec<u32>,
    height_key: &Vec<u64>,
    flood: &Flood,
    hollows: &Vec<HollowShape>,
    kept: &Vec<bool>,
    nested: &Vec<HollowShape>,
    nested_levels: &Vec<u64>,
    nested_kept: &Vec<bool>,
) -> (out: (Layout, Vec<u32>, Vec<u64>))
    requires
        height_key@.len() <= u32::MAX,
        ocean@.len() == height_key@.len(),
        enclosed_basin@.len() == height_key@.len(),
        flood.spill_key@.len() == height_key@.len(),
        flood.parent@.len() == height_key@.len(),
        flood.order@.no_duplicates(),
        forall|a: int| 0 <= a < flood.order@.len() ==> #[trigger] flood.order@[a] < height_key@.len(),
        forall|x: int| 0 <= x < height_key@.len() ==> #[trigger] flood.parent@[x] == NO_NODE || flood.parent@[x] < height_key@.len(),
        kept@.len() == hollows@.len(),
        nested_levels@.len() == nested@.len(),
        nested_kept@.len() == nested@.len(),
        hollows_in_range(hollows@ + nested@, height_key@.len() as int),
        forall|h: int| 0 <= h < nested@.len() ==> !(#[trigger] nested@[h]).enclosed,
        hollows@.len() + nested@.len() + member_total(hollows@ + nested@) < u32::MAX,
    ensures
        out.0.hollows@.len() == hollows@.len() + nested@.len(),
        forall|h: int| 0 <= h < out.0.hollows@.len() ==> same_shape(#[trigger] out.0.hollows@[h], (hollows@ + nested@)[h]),
        lays_out(ocean@, enclosed_basin@, height_key@, flood.parent@, ranks_of(flood.order@, height_key@.len() as int),
            whole_levels(hollows@, flood.spill_key@, nested_levels@), kept@ + nested_kept@, hollows@.len() as int,
            out.0.hollows@, out.0.lakes@, out.0.outlets@),
        out.1@.len() == height_key@.len(),
        out.2@.len() == height_key@.len(),
        forall|x: int| 0 <= x < height_key@.len() ==> #[trigger] out.1@[x] == lake_holding(out.0.lakes@, x, out.0.lakes@.len() as int),
        forall|x: int| 0 <= x < height_key@.len() ==> #[trigger] out.2@[x] == if out.1@[x] != NO_LAKE {
            out.0.lakes@[out.1@[x] as int].level_key
        } else {
            height_key@[x]
        },
{
    let layout = lay_out(ocean, enclosed_basin, height_key, flood, hollows, kept, nested, nested_levels, nested_kept);
    let (lake_of, surface_key) = flatten_lakes(&layout.lakes, height_key);
    (layout, lake_of, surface_key)
}

/// A closed lake keeps its water: lake `l`'s entry drains nowhere.
pub fn seal(routing: &mut Routing, l: usize)
    requires
        l < old(routing).lakes@.len(),
        old(routing).lakes@[l as int].entry < old(routing).receiver@.len(),
    ensures
        final(routing).receiver@ == old(routing).receiver@.update(old(routing).lakes@[l as int].entry as int, NO_NODE),
        final(routing).lakes@ == old(routing).lakes@,
        final(routing).lake_of@ == old(routing).lake_of@,
        final(routing).surface_key@ == old(routing).surface_key@,
        final(routing).parent@ == old(routing).parent@,
        final(routing).committed@ == old(routing).committed@,
        final(routing).cuts@ == old(routing).cuts@,
{
    let entry = routing.lakes[l].entry as usize;
    routing.receiver.set(entry, NO_NODE);
}

/// The tree after a cut along `path` took its first `taken` steps: each node it stepped from
/// points at the next.
pub open spec fn pointed(parent: Seq<u32>, path: Seq<u32>, taken: int) -> Seq<u32> {
    Seq::new(parent.len(), |x: int| last_step(path, taken, x, parent[x]))
}

proof fn lemma_last_step_in_range(path: Seq<u32>, m: int, x: int, other: u32, n: int)
    requires
        0 <= m < path.len(),
        forall|k: int| 0 <= k < path.len() ==> #[trigger] path[k] < n,
        other == NO_NODE || other < n,
    ensures
        last_step(path, m, x, other) == NO_NODE || last_step(path, m, x, other) < n,
    decreases m,
{
    if m > 0 {
        lemma_last_step_in_range(path, m - 1, x, other, n);
    }
}

/// Opens a fresh basin's outlet: lake `l`'s way out -- its entry, then the flood's parents up
/// the shore and over the rim, short of the sea -- is cut as an explicit path, each node it
/// steps from pointing its receiver and parent at the next, until the sea or a lake member;
/// where the path runs out the cut carries on along the parent chain, as any cut does.
/// Returns the path, how many steps the explicit cut took, whether it stopped, and the nodes
/// the carried-on cut walked.
pub fn open_outlet(routing: &mut Routing, ocean: &Vec<bool>, flood_parent: &Vec<u32>, l: usize) -> (out: (Vec<u32>, usize, bool, Vec<u32>))
    requires
        l < old(routing).lakes@.len(),
        ocean@.len() <= u32::MAX,
        old(routing).lakes@[l as int].entry < ocean@.len(),
        flood_parent@.len() == ocean@.len(),
        old(routing).lake_of@.len() == ocean@.len(),
        old(routing).receiver@.len() == ocean@.len(),
        old(routing).parent@.len() == ocean@.len(),
        old(routing).committed@.len() == ocean@.len(),
        forall|x: int| 0 <= x < ocean@.len() ==> #[trigger] flood_parent@[x] == NO_NODE || flood_parent@[x] < ocean@.len(),
        forall|x: int| 0 <= x < ocean@.len() ==> #[trigger] old(routing).parent@[x] == NO_NODE || old(routing).parent@[x] < ocean@.len(),
    ensures
        ({
            let (path, taken, stopped, walked) = out;
            let old_r = *old(routing);
            let parent1 = pointed(old_r.parent@, path@, taken as int);
            let from = seq![path@.last()] + walked@;
            let carried = !stopped && path@.len() >= 2;
            &&& path@.len() >= 1
            &&& path@[0] == old_r.lakes@[l as int].entry
            &&& walks_up(flood_parent@, ocean@, path@)
            &&& ({
                let p = flood_parent@[path@.last() as int];
                path@.len() == ocean@.len() || p == NO_NODE || ocean@[p as int]
            })
            &&& path@.len() < 2 ==> taken == 0 && !stopped
            &&& path@.len() >= 2 ==> {
                &&& 1 <= taken <= path@.len() - 1
                &&& stopped <==> ocean@[path@[taken as int] as int] || old_r.lake_of@[path@[taken as int] as int] != NO_LAKE
                &&& !stopped ==> taken == path@.len() - 1
            }
            &&& carried ==> is_cut_walk(ocean@, old_r.lake_of@, parent1, Seq::new(ocean@.len() as nat, |x: int| old_r.committed@[x] || steps_along(path@, taken as int, x)), path@.last(), walked@)
            &&& !carried ==> walked@.len() == 0
            &&& final(routing).parent@ == parent1
            &&& forall|x: int| 0 <= x < ocean@.len() ==> #[trigger] final(routing).receiver@[x] == if carried && steps_from(parent1, from, x) {
                parent1[x]
            } else {
                last_step(path@, taken as int, x, old_r.receiver@[x])
            }
            &&& forall|x: int| 0 <= x < ocean@.len() ==> #[trigger] final(routing).committed@[x] == (old_r.committed@[x]
                || steps_along(path@, taken as int, x) || (carried && steps_from(parent1, from, x)))
            &&& final(routing).lakes@ == old_r.lakes@
            &&& final(routing).lake_of@ == old_r.lake_of@
            &&& final(routing).surface_key@ == old_r.surface_key@
            &&& final(routing).cuts@ == old_r.cuts@
        }),
{
    let n = ocean.len();
    let entry = routing.lakes[l].entry;
    let path = walk_parents(flood_parent, ocean, entry, n);
    proof {
        assert forall|k: int| 0 <= k < path@.len() implies #[trigger] path@[k] < n by {
            if k > 0 {
                lemma_walk_in_range(flood_parent@, ocean@, path@, k);
            }
        }
    }
    let ghost r0 = routing.receiver@;
    let ghost p0 = routing.parent@;
    let ghost c0 = routing.committed@;
    let (taken, stopped) = point_along(ocean, &routing.lake_of, &path, &mut routing.receiver, &mut routing.parent, &mut routing.committed);
    proof {
        assert(routing.parent@ =~= pointed(p0, path@, taken as int));
    }
    let mut walked: Vec<u32> = Vec::new();
    if !stopped && path.len() >= 2 {
        let last = path[path.len() - 1];
        proof {
            assert forall|x: int| 0 <= x < n implies #[trigger] routing.parent@[x] == NO_NODE || routing.parent@[x] < n by {
                lemma_last_step_in_range(path@, taken as int, x, p0[x], n as int);
            }
            assert(routing.committed@ =~= Seq::new(n as nat, |x: int| c0[x] || steps_along(path@, taken as int, x)));
        }
        walked = follow_parents(ocean, &routing.lake_of, &routing.parent, &mut routing.receiver, &mut routing.committed, last);
    }
    (path, taken, stopped, walked)
}

/// A walk up the parent chain from a node stays on nodes.
proof fn lemma_walk_in_range(parent: Seq<u32>, stop: Seq<bool>, path: Seq<u32>, k: int)
    requires
        0 < k < path.len(),
        path[0] < parent.len(),
        walks_up(parent, stop, path),
        forall|i: int| 0 <= i < parent.len() ==> #[trigger] parent[i] == NO_NODE || parent[i] < parent.len(),
    ensures
        path[k] < parent.len(),
    decreases k,
{
    if k > 1 {
        lemma_walk_in_range(parent, stop, path, k - 1);
    }
    assert(parent[path[k - 1] as int] == path[k]);
}

} // verus!
