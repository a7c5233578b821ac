//! A hollow is a connected set of nodes the flood had to raise to one flat level. It is kept as
//! a lake or pond, or notched so it drains.
use vstd::prelude::*;
use crate::graph::{LandGraph, ascending, insert_sorted, well_linked};
use crate::components::{NO_BASIN, NO_COMPONENT, components, connected, lemma_connected_self, lemma_connected_through};
use crate::drainage::NO_NODE;
use crate::flood::Flood;

verus! {


/// Rank of a node that was never taken off the flood's queue.
pub const NO_RANK: u64 = 0xffff_ffff_ffff_ffffu64;

/// What becomes of a hollow.
#[derive(Debug, Clone, Copy, PartialEq, Eq, Structural)]
pub enum Fate {
    Keep,
    Notch,
}

/// The shape of one hollow: its nodes, ascending; its floor, the lowest of them; its entry,
/// the one the flood took first; the node it spills out through; and whether any of it lies in
/// an enclosed below-datum basin.
pub struct HollowShape {
    pub members: Vec<u32>,
    pub floor: u32,
    pub entry: u32,
    pub outlet: u32,
    pub enclosed: bool,
}

/// The nodes a hollow can hold: reached by the flood, raised above their own ground, and not
/// ocean.
pub open spec fn raised_nodes(reached: Seq<bool>, spill: Seq<u64>, height: Seq<u64>, ocean: Seq<bool>) -> Seq<bool> {
    Seq::new(reached.len(), |i: int| reached[i] && spill[i] > height[i] && !ocean[i])
}

/// Where a node stands in the flood's pop order (`NO_RANK` if it is not there).
pub open spec fn rank_in(order: Seq<u32>, x: int) -> int {
    if order.contains(x as u32) {
        order.index_of(x as u32)
    } else {
        NO_RANK as int
    }
}

/// The hollow's floor: a member no other member is lower than, and the first such.
pub open spec fn is_floor(members: Seq<u32>, height: Seq<u64>, floor: u32) -> bool {
    &&& members.contains(floor)
    &&& forall|k: int| 0 <= k < members.len() ==> height[floor as int] <= height[#[trigger] members[k] as int]
    &&& forall|k: int| 0 <= k < members.len() && #[trigger] members[k] < floor ==> height[floor as int]
        < height[members[k] as int]
}

/// The hollow's entry: a member the flood took no later than any other, and the first such.
pub open spec fn is_entry(members: Seq<u32>, order: Seq<u32>, entry: u32) -> bool {
    &&& members.contains(entry)
    &&& forall|k: int| 0 <= k < members.len() ==> rank_in(order, entry as int) <= rank_in(order, #[trigger] members[k] as int)
    &&& forall|k: int| 0 <= k < members.len() && #[trigger] members[k] < entry ==> rank_in(order, entry as int)
        < rank_in(order, members[k] as int)
}

/// Every node before `upto` with label `g`, and nothing else, ascending.
pub open spec fn lists_group(list: Seq<u32>, label: Seq<u32>, g: int, upto: int) -> bool {
    &&& ascending(list)
    &&& forall|k: int| 0 <= k < list.len() ==> #[trigger] list[k] < upto && label[list[k] as int] == g
    &&& forall|y: int| 0 <= y < upto && label[y] == g ==> list.contains(y as u32)
}

/// The nodes of each group, ascending.
pub(crate) fn group_lists(label: &Vec<u32>, count: usize) -> (lists: Vec<Vec<u32>>)
    requires
        label@.len() <= u32::MAX,
        count <= u32::MAX,
        forall|i: int| 0 <= i < label@.len() ==> #[trigger] label@[i] == NO_COMPONENT || label@[i] < count,
    ensures
        lists@.len() == count,
        forall|g: int| 0 <= g < count ==> lists_group((#[trigger] lists@[g])@, label@, g, label@.len() as int),
{
    let mut lists: Vec<Vec<u32>> = Vec::new();
    let mut g: usize = 0;
    while g < count
        invariant
            g <= count,
            lists@.len() == g,
            forall|h: int| 0 <= h < g ==> (#[trigger] lists@[h])@ == Seq::<u32>::empty(),
        decreases count - g,
    {
        lists.push(Vec::new());
        g += 1;
    }
    let n = label.len();
    let mut x: usize = 0;
    while x < n
        invariant
            x <= n,
            n == label@.len(),
            n <= u32::MAX,
            count <= u32::MAX,
            lists@.len() == count,
            forall|i: int| 0 <= i < n ==> #[trigger] label@[i] == NO_COMPONENT || label@[i] < count,
            forall|h: int| 0 <= h < count ==> lists_group((#[trigger] lists@[h])@, label@, h, x as int),
        decreases n - x,
    {
        let c = label[x];
        if c != NO_COMPONENT {
            let ghost before = lists@;
            let ghost row = lists@[c as int]@;
            lists[c as usize].push(x as u32);
            proof {
                assert forall|h: int| 0 <= h < count implies lists_group((#[trigger] lists@[h])@, label@, h, x + 1) by {
                    if h == c as int {
                        let r = lists@[h]@;
                        assert(r == row.push(x as u32));
                        assert forall|y: int| 0 <= y < x + 1 && label@[y] == h implies r.contains(y as u32) by {
                            if y < x {
                                let k = choose|k: int| 0 <= k < row.len() && row[k] == y as u32;
                                assert(r[k] == y as u32);
                            } else {
                                assert(r[r.len() - 1] == y as u32);
                            }
                        }
                    } else {
                        assert(lists@[h] == before[h]);
                    }
                }
            }
        } else {
            proof {
                assert forall|h: int| 0 <= h < count implies lists_group((#[trigger] lists@[h])@, label@, h, x + 1) by {
                }
            }
        }
        x += 1;
    }
    lists
}

/// Each node's place in the flood's pop order.
pub(crate) fn order_ranks(order: &Vec<u32>, n: usize) -> (rank: Vec<u64>)
    requires
        n <= u32::MAX,
        order@.no_duplicates(),
        forall|a: int| 0 <= a < order@.len() ==> #[trigger] order@[a] < n,
    ensures
        rank@.len() == n,
        forall|x: int| 0 <= x < n ==> #[trigger] rank@[x] == rank_in(order@, x),
{
    let mut rank: Vec<u64> = Vec::new();
    let mut i: usize = 0;
    while i < n
        invariant
            i <= n,
            rank@.len() == i,
            forall|x: int| 0 <= x < i ==> rank@[x] == NO_RANK,
        decreases n - i,
    {
        rank.push(NO_RANK);
        i += 1;
    }
    let mut r: usize = 0;
    while r < order.len()
        invariant
            r <= order@.len(),
            n <= u32::MAX,
            rank@.len() == n,
            order@.no_duplicates(),
            forall|a: int| 0 <= a < order@.len() ==> #[trigger] order@[a] < n,
            forall|x: int| 0 <= x < n && !order@.take(r as int).contains(x as u32) ==> #[trigger] rank@[x] == NO_RANK,
            forall|a: int| 0 <= a < r ==> #[trigger] rank@[order@[a] as int] == a,
        decreases order@.len() - r,
    {
        let x = order[r];
        let ghost before = rank@;
        rank.set(x as usize, r as u64);
        proof {
            assert forall|a: int| 0 <= a < r + 1 implies #[trigger] rank@[order@[a] as int] == a by {
                if a < r {
                    assert(order@[a] != order@[r as int]);
                }
            }
            assert forall|y: int| 0 <= y < n && !order@.take(r + 1).contains(y as u32) implies #[trigger] rank@[y] == NO_RANK by {
                assert(order@.take(r + 1)[r as int] == x);
                assert(y != x as int);
                assert(!order@.take(r as int).contains(y as u32)) by {
                    if order@.take(r as int).contains(y as u32) {
                        let k = choose|k: int| 0 <= k < r && order@.take(r as int)[k] == y as u32;
                        assert(order@.take(r + 1)[k] == y as u32);
                    }
                }
            }
        }
        r += 1;
    }
    proof {
        assert(order@.take(order@.len() as int) == order@);
        assert forall|x: int| 0 <= x < n implies #[trigger] rank@[x] == rank_in(order@, x) by {
            if order@.contains(x as u32) {
                let a = order@.index_of(x as u32);
                assert(order@[a] == x as u32);
                assert(rank@[order@[a] as int] == a);
            }
        }
    }
    rank
}

/// The entry by ranks already looked up: a member with no larger rank than any other, and the
/// first such.
pub open spec fn is_first_taken(members: Seq<u32>, rank: Seq<u64>, entry: u32) -> bool {
    &&& members.contains(entry)
    &&& forall|k: int| 0 <= k < members.len() ==> rank[entry as int] <= rank[#[trigger] members[k] as int]
    &&& forall|k: int| 0 <= k < members.len() && #[trigger] members[k] < entry ==> rank[entry as int]
        < rank[members[k] as int]
}

/// Some member lies in an enclosed basin.
pub open spec fn touches_basin(members: Seq<u32>, enclosed_basin: Seq<u32>) -> bool {
    exists|k: int| 0 <= k < members.len() && enclosed_basin[#[trigger] members[k] as int] != NO_BASIN
}

/// A hollow's node out: the flood's parent of its entry, or the entry itself for a seed.
pub open spec fn outlet_of(parent: Seq<u32>, entry: u32) -> u32 {
    if parent[entry as int] == NO_NODE {
        entry
    } else {
        parent[entry as int]
    }
}

fn shape_of(members: Vec<u32>, height: &Vec<u64>, rank: &Vec<u64>, parent: &Vec<u32>, enclosed_basin: &Vec<u32>)
    -> (shape: HollowShape)
    requires
        members@.len() > 0,
        ascending(members@),
        forall|k: int| 0 <= k < members@.len() ==> #[trigger] members@[k] < height@.len(),
        rank@.len() == height@.len(),
        parent@.len() == height@.len(),
        enclosed_basin@.len() == height@.len(),
    ensures
        shape.members@ == members@,
        is_floor(members@, height@, shape.floor),
        is_first_taken(members@, rank@, shape.entry),
        shape.outlet == outlet_of(parent@, shape.entry),
        shape.enclosed == touches_basin(members@, enclosed_basin@),
{
    let ghost ms = members@;
    let mut floor = members[0];
    let mut entry = members[0];
    let mut enclosed = enclosed_basin[members[0] as usize] != NO_BASIN;
    let ghost mut fi: int = 0;
    let ghost mut ei: int = 0;
    let mut k: usize = 1;
    while k < members.len()
        invariant
            ms == members@,
            1 <= k <= ms.len(),
            ascending(ms),
            forall|j: int| 0 <= j < ms.len() ==> #[trigger] ms[j] < height@.len(),
            rank@.len() == height@.len(),
            enclosed_basin@.len() == height@.len(),
            0 <= fi < k,
            ms[fi] == floor,
            forall|j: int| 0 <= j < k ==> height@[floor as int] <= height@[#[trigger] ms[j] as int],
            forall|j: int| 0 <= j < fi ==> height@[floor as int] < height@[#[trigger] ms[j] as int],
            0 <= ei < k,
            ms[ei] == entry,
            forall|j: int| 0 <= j < k ==> rank@[entry as int] <= rank@[#[trigger] ms[j] as int],
            forall|j: int| 0 <= j < ei ==> rank@[entry as int] < rank@[#[trigger] ms[j] as int],
            enclosed == exists|j: int| 0 <= j < k && enclosed_basin@[#[trigger] ms[j] as int] != NO_BASIN,
        decreases ms.len() - k,
    {
        let m = members[k];
        if height[m as usize] < height[floor as usize] {
            floor = m;
            proof {
                fi = k as int;
            }
        }
        if rank[m as usize] < rank[entry as usize] {
            entry = m;
            proof {
                ei = k as int;
            }
        }
        if enclosed_basin[m as usize] != NO_BASIN {
            enclosed = true;
        }
        proof {
            assert(enclosed == exists|j: int| 0 <= j < k + 1 && enclosed_basin@[#[trigger] ms[j] as int] != NO_BASIN) by {
                if enclosed_basin@[ms[k as int] as int] != NO_BASIN {
                    assert(enclosed_basin@[ms[k as int] as int] != NO_BASIN);
                }
            }
        }
        k += 1;
    }
    proof {
        assert(ms.contains(floor)) by {
            assert(ms[fi] == floor);
        }
        assert(ms.contains(entry)) by {
            assert(ms[ei] == entry);
        }
        assert forall|j: int| 0 <= j < ms.len() && #[trigger] ms[j] < floor implies height@[floor as int] < height@[ms[j] as int] by {
            if j >= fi {
                if j > fi {
                    assert(ms[fi] < ms[j]);
                }
            }
        }
        assert forall|j: int| 0 <= j < ms.len() && #[trigger] ms[j] < entry implies rank@[entry as int] < rank@[ms[j] as int] by {
            if j >= ei {
                if j > ei {
                    assert(ms[ei] < ms[j]);
                }
            }
        }
    }
    let outlet_node = parent[entry as usize];
    let outlet = if outlet_node == NO_NODE { entry } else { outlet_node };
    HollowShape { members, floor, entry, outlet, enclosed }
}

/// Groups the nodes a flood raised into hollows.
///
/// A hollow is everything joined to a raised, non-ocean node through neighbours that are
/// raised, non-ocean and at the same spill level. Hollows come in the order of their lowest
/// node, and every raised non-ocean node is in one. Levels and heights are compared as keys.
pub fn find_hollows(
    graph: &LandGraph,
    ocean: &Vec<bool>,
    enclosed_basin: &Vec<u32>,
    height_key: &Vec<u64>,
    flood: &Flood,
) -> (hollows: Vec<HollowShape>)
    requires
        ocean@.len() == graph.node_count(),
        enclosed_basin@.len() == graph.node_count(),
        height_key@.len() == graph.node_count(),
        flood.spill_key@.len() == graph.node_count(),
        flood.parent@.len() == graph.node_count(),
        flood.reached@.len() == graph.node_count(),
        flood.order@.no_duplicates(),
        forall|a: int| 0 <= a < flood.order@.len() ==> #[trigger] flood.order@[a] < graph.node_count(),
    ensures
        forall|h: int| 0 <= h < hollows@.len() ==> {
            let m = (#[trigger] hollows@[h]).members@;
            &&& m.len() > 0
            &&& ascending(m)
            &&& forall|k: int| 0 <= k < m.len() ==> #[trigger] m[k] < graph.node_count()
            &&& forall|x: int| 0 <= x < graph.node_count() ==> (m.contains(x as u32) <==> raised_nodes(flood.reached@,
                flood.spill_key@, height_key@, ocean@)[x] && connected(graph.rows(), raised_nodes(flood.reached@,
                flood.spill_key@, height_key@, ocean@), flood.spill_key@, m[0] as int, x))
            &&& is_floor(m, height_key@, hollows@[h].floor)
            &&& is_entry(m, flood.order@, hollows@[h].entry)
            &&& hollows@[h].outlet == outlet_of(flood.parent@, hollows@[h].entry)
            &&& hollows@[h].enclosed == touches_basin(m, enclosed_basin@)
        },
        forall|a: int, b: int| 0 <= a < b < hollows@.len() ==> (#[trigger] hollows@[a]).members@[0]
            < (#[trigger] hollows@[b]).members@[0],
        forall|x: int| 0 <= x < graph.node_count() && raised_nodes(flood.reached@, flood.spill_key@, height_key@,
            ocean@)[x] ==> exists|h: int| 0 <= h < hollows@.len() && (#[trigger] hollows@[h]).members@.contains(x as u32),
        forall|a: int, b: int, x: u32| 0 <= a < b < hollows@.len() ==> !(#[trigger] hollows@[a].members@.contains(x)
            && #[trigger] hollows@[b].members@.contains(x)),
{
    let n = graph.len();
    let ghost hm = raised_nodes(flood.reached@, flood.spill_key@, height_key@, ocean@);
    let mut member: Vec<bool> = Vec::new();
    let mut i: usize = 0;
    while i < n
        invariant
            i <= n,
            n == graph.node_count(),
            hm == raised_nodes(flood.reached@, flood.spill_key@, height_key@, ocean@),
            ocean@.len() == n,
            height_key@.len() == n,
            flood.spill_key@.len() == n,
            flood.reached@.len() == n,
            member@ == hm.take(i as int),
        decreases n - i,
    {
        member.push(flood.reached[i] && flood.spill_key[i] > height_key[i] && !ocean[i]);
        proof {
            assert(member@ =~= hm.take(i + 1));
        }
        i += 1;
    }
    proof {
        assert(member@ =~= hm);
    }
    let comps = components(graph, &member, &flood.spill_key);
    let count = comps.firsts.len();
    proof {
        assert(count <= n) by {
            assert forall|g: int| 0 <= g < count implies #[trigger] comps.firsts@[g] >= g by {
                lemma_ascending_at_least(comps.firsts@, g);
            }
            if count > 0 {
                assert(comps.firsts@[count - 1] >= count - 1);
            }
        }
    }
    let mut lists = group_lists(&comps.label, count);
    let rank = order_ranks(&flood.order, n);
    let mut hollows: Vec<HollowShape> = Vec::new();
    let mut g: usize = 0;
    while g < count
        invariant
            g <= count,
            n == graph.node_count(),
            n <= u32::MAX,
            count == comps.firsts@.len(),
            hm == raised_nodes(flood.reached@, flood.spill_key@, height_key@, ocean@),
            hm.len() == n,
            height_key@.len() == n,
            rank@.len() == n,
            flood.parent@.len() == n,
            enclosed_basin@.len() == n,
            forall|x: int| 0 <= x < n ==> #[trigger] rank@[x] == rank_in(flood.order@, x),
            comps.label@.len() == n,
            forall|x: int| 0 <= x < n ==> (#[trigger] comps.label@[x] == NO_COMPONENT <==> !hm[x]),
            forall|x: int| 0 <= x < n && hm[x] ==> #[trigger] comps.label@[x] < comps.firsts@.len(),
            forall|a: int, b: int| 0 <= a < b < comps.firsts@.len() ==> #[trigger] comps.firsts@[a] < #[trigger] comps.firsts@[b],
            forall|c: int| 0 <= c < comps.firsts@.len() ==> #[trigger] comps.firsts@[c] < n
                && comps.label@[comps.firsts@[c] as int] == c,
            forall|x: int| 0 <= x < n && hm[x] ==> comps.firsts@[#[trigger] comps.label@[x] as int] <= x,
            forall|x: int, y: int|
                0 <= x < n && 0 <= y < n && hm[x] && hm[y] ==> (comps.label@[x] == comps.label@[y]
                    <==> #[trigger] connected(graph.rows(), hm, flood.spill_key@, x, y)),
            lists@.len() == count,
            forall|c: int| g <= c < count ==> lists_group((#[trigger] lists@[c])@, comps.label@, c, n as int),
            hollows@.len() == g,
            forall|h: int| 0 <= h < g ==> {
                let m = (#[trigger] hollows@[h]).members@;
                &&& lists_group(m, comps.label@, h, n as int)
                &&& is_floor(m, height_key@, hollows@[h].floor)
                &&& is_first_taken(m, rank@, hollows@[h].entry)
                &&& hollows@[h].outlet == outlet_of(flood.parent@, hollows@[h].entry)
                &&& hollows@[h].enclosed == touches_basin(m, enclosed_basin@)
            },
        decreases count - g,
    {
        let mut members: Vec<u32> = Vec::new();
        let ghost before = lists@;
        std::mem::swap(&mut members, &mut lists[g]);
        proof {
            assert(members@ == before[g as int]@);
            assert forall|c: int| g + 1 <= c < count implies lists_group((#[trigger] lists@[c])@, comps.label@, c, n as int) by {
                assert(lists@[c] == before[c]);
            }
            let f = comps.firsts@[g as int];
            assert(members@.contains(f));
        }
        let shape = shape_of(members, height_key, &rank, &flood.parent, enclosed_basin);
        hollows.push(shape);
        g += 1;
    }
    proof {
        assert forall|h: int| 0 <= h < hollows@.len() implies {
            let m = (#[trigger] hollows@[h]).members@;
            &&& m.len() > 0
            &&& ascending(m)
            &&& forall|k: int| 0 <= k < m.len() ==> #[trigger] m[k] < n
            &&& forall|x: int| 0 <= x < n ==> (m.contains(x as u32) <==> hm[x] && connected(graph.rows(), hm,
                flood.spill_key@, m[0] as int, x))
            &&& is_floor(m, height_key@, hollows@[h].floor)
            &&& is_entry(m, flood.order@, hollows@[h].entry)
            &&& hollows@[h].outlet == outlet_of(flood.parent@, hollows@[h].entry)
            &&& hollows@[h].enclosed == touches_basin(m, enclosed_basin@)
        } by {
            let m = hollows@[h].members@;
            let f = comps.firsts@[h];
            assert(m.contains(f));
            lemma_first_is_least(m, comps.label@, h, n as int, f);
            assert(m[0] == f);
            assert forall|x: int| 0 <= x < n implies (m.contains(x as u32) <==> hm[x] && connected(graph.rows(), hm,
                flood.spill_key@, m[0] as int, x)) by {
                if m.contains(x as u32) {
                    let k = choose|k: int| 0 <= k < m.len() && m[k] == x as u32;
                    assert(comps.label@[m[k] as int] == h);
                }
                if hm[x] && connected(graph.rows(), hm, flood.spill_key@, m[0] as int, x) {
                    assert(comps.label@[f as int] == comps.label@[x]);
                }
            }
            let e = hollows@[h].entry;
            assert forall|k: int| 0 <= k < m.len() implies rank_in(flood.order@, e as int) <= rank_in(flood.order@,
                #[trigger] m[k] as int) by {
                assert(rank@[e as int] <= rank@[m[k] as int]);
            }
            assert forall|k: int| 0 <= k < m.len() && #[trigger] m[k] < e implies rank_in(flood.order@, e as int)
                < rank_in(flood.order@, m[k] as int) by {
                assert(rank@[e as int] < rank@[m[k] as int]);
            }
        }
        assert forall|a: int, b: int| 0 <= a < b < hollows@.len() implies (#[trigger] hollows@[a]).members@[0]
            < (#[trigger] hollows@[b]).members@[0] by {
            lemma_first_is_least(hollows@[a].members@, comps.label@, a, n as int, comps.firsts@[a]);
            lemma_first_is_least(hollows@[b].members@, comps.label@, b, n as int, comps.firsts@[b]);
        }
        assert forall|x: int| 0 <= x < n && hm[x] implies exists|h: int| 0 <= h < hollows@.len()
            && (#[trigger] hollows@[h]).members@.contains(x as u32) by {
            let c = comps.label@[x] as int;
            assert(hollows@[c].members@.contains(x as u32));
        }
        let raised = raised_nodes(flood.reached@, flood.spill_key@, height_key@, ocean@);
        assert forall|a: int, b: int, x: u32| 0 <= a < b < hollows@.len() implies !(#[trigger] hollows@[a].members@.contains(x)
            && #[trigger] hollows@[b].members@.contains(x)) by {
            if hollows@[a].members@.contains(x) && hollows@[b].members@.contains(x) {
                let q = choose|q: int| 0 <= q < hollows@[a].members@.len() && hollows@[a].members@[q] == x;
                assert(hollows@[a].members@[q] < n);
                lemma_hollows_apart(graph.rows(), raised, flood.spill_key@, hollows@[a].members@, hollows@[b].members@, x as int);
            }
        }
    }
    hollows
}

/// Two hollows, each exactly the raised nodes joined at one level to its first member, that
/// share a node start at the same node.
pub proof fn lemma_hollows_apart(rows: Seq<Seq<u32>>, raised: Seq<bool>, spill: Seq<u64>, a: Seq<u32>, b: Seq<u32>, x: int)
    requires
        well_linked(rows, rows.len() as int),
        a.len() > 0,
        b.len() > 0,
        ascending(a),
        ascending(b),
        forall|k: int| 0 <= k < a.len() ==> #[trigger] a[k] < rows.len(),
        forall|k: int| 0 <= k < b.len() ==> #[trigger] b[k] < rows.len(),
        forall|y: int|
            #![trigger a.contains(y as u32)]
            0 <= y < rows.len() ==> (a.contains(y as u32) <==> raised[y] && connected(rows, raised, spill, a[0] as int, y)),
        forall|y: int|
            #![trigger b.contains(y as u32)]
            0 <= y < rows.len() ==> (b.contains(y as u32) <==> raised[y] && connected(rows, raised, spill, b[0] as int, y)),
        0 <= x < rows.len(),
        a.contains(x as u32),
        b.contains(x as u32),
    ensures
        a[0] == b[0],
{
    let a0 = a[0] as int;
    let b0 = b[0] as int;
    assert(a[0] < rows.len() && b[0] < rows.len());
    assert(a.contains(a0 as u32));
    assert(b.contains(b0 as u32));
    lemma_connected_self(rows, raised, spill, a0 as u32);
    lemma_connected_self(rows, raised, spill, b0 as u32);
    lemma_connected_through(rows, raised, spill, a0, x, a0);
    lemma_connected_through(rows, raised, spill, b0, x, b0);
    lemma_connected_through(rows, raised, spill, x, a0, b0);
    lemma_connected_through(rows, raised, spill, x, b0, a0);
    assert(a.contains(b0 as u32));
    assert(b.contains(a0 as u32));
    let i = choose|i: int| 0 <= i < a.len() && a[i] == b0 as u32;
    let j = choose|j: int| 0 <= j < b.len() && b[j] == a0 as u32;
    if i > 0 {
        assert(a[0] < a[i]);
    }
    if j > 0 {
        assert(b[0] < b[j]);
    }
}

/// In a strictly ascending list of naturals, entry `g` is at least `g`.
pub(crate) proof fn lemma_ascending_at_least(s: Seq<u32>, g: int)
    requires
        forall|a: int, b: int| 0 <= a < b < s.len() ==> #[trigger] s[a] < #[trigger] s[b],
        0 <= g < s.len(),
    ensures
        s[g] >= g,
    decreases g,
{
    if g > 0 {
        lemma_ascending_at_least(s, g - 1);
        assert(s[g - 1] < s[g]);
    }
}

/// The group's lowest node, listed, is the list's first entry.
pub(crate) proof fn lemma_first_is_least(m: Seq<u32>, label: Seq<u32>, g: int, n: int, f: u32)
    requires
        lists_group(m, label, g, n),
        m.contains(f),
        forall|k: int| 0 <= k < m.len() ==> f <= #[trigger] m[k],
    ensures
        m.len() > 0,
        m[0] == f,
{
    let k = choose|k: int| 0 <= k < m.len() && m[k] == f;
    if k > 0 {
        assert(m[0] < m[k]);
        assert(f <= m[0]);
    }
}

/// Every node nearest a forced-outlet point, ascending and each once. A point with no nearest
/// node (an empty graph) adds nothing.
pub fn forced_nodes(nearest: &Vec<Option<u32>>) -> (forced: Vec<u32>)
    ensures
        ascending(forced@),
        forall|y: u32| #[trigger] forced@.contains(y) <==> exists|i: int| 0 <= i < nearest@.len()
            && #[trigger] nearest@[i] == Some(y),
{
    let mut forced: Vec<u32> = Vec::new();
    let mut i: usize = 0;
    while i < nearest.len()
        invariant
            i <= nearest@.len(),
            ascending(forced@),
            forall|y: u32| #[trigger] forced@.contains(y) <==> exists|k: int| 0 <= k < i
                && #[trigger] nearest@[k] == Some(y),
        decreases nearest@.len() - i,
    {
        match nearest[i] {
            Some(node) => {
                insert_sorted(&mut forced, node);
            },
            None => {},
        }
        proof {
            assert forall|y: u32| #[trigger] forced@.contains(y) <==> exists|k: int| 0 <= k < i + 1
                && #[trigger] nearest@[k] == Some(y) by {
                if nearest@[i as int] == Some(y) {
                    assert(exists|k: int| 0 <= k < i + 1 && #[trigger] nearest@[k] == Some(y));
                }
                if exists|k: int| 0 <= k < i + 1 && #[trigger] nearest@[k] == Some(y) {
                    let k = choose|k: int| 0 <= k < i + 1 && #[trigger] nearest@[k] == Some(y);
                    if k < i {
                        assert(exists|k: int| 0 <= k < i && #[trigger] nearest@[k] == Some(y));
                    }
                }
            }
        }
        i += 1;
    }
    forced
}

/// Whether an ascending list holds `x`, by halving.
pub(crate) fn holds(list: &Vec<u32>, x: u32) -> (found: bool)
    requires
        ascending(list@),
    ensures
        found == list@.contains(x),
{
    let mut lo: usize = 0;
    let mut hi: usize = list.len();
    while lo < hi
        invariant
            lo <= hi <= list@.len(),
            ascending(list@),
            forall|k: int| 0 <= k < lo ==> #[trigger] list@[k] < x,
            forall|k: int| hi <= k < list@.len() ==> #[trigger] list@[k] > x,
        decreases hi - lo,
    {
        let mid = lo + (hi - lo) / 2;
        let v = list[mid];
        if v == x {
            return true;
        } else if v < x {
            proof {
                assert forall|k: int| 0 <= k < mid + 1 implies #[trigger] list@[k] < x by {
                    if k < mid {
                        assert(list@[k] < list@[mid as int]);
                    }
                }
            }
            lo = mid + 1;
        } else {
            proof {
                assert forall|k: int| mid <= k < list@.len() implies #[trigger] list@[k] > x by {
                    if k > mid {
                        assert(list@[mid as int] < list@[k]);
                    }
                }
            }
            hi = mid;
        }
    }
    proof {
        if list@.contains(x) {
            let k = choose|k: int| 0 <= k < list@.len() && list@[k] == x;
            assert(list@[k] == x);
        }
    }
    false
}

/// What the judge decides of one hollow.
#[derive(Debug, Clone, Copy, PartialEq, Eq, Structural)]
pub struct Verdict {
    /// A forced outlet point lies on one of its nodes.
    pub forced: bool,
    /// Too large to keep, whatever its depth.
    pub capped: bool,
    pub fate: Fate,
}

/// Some member of the hollow is a forced node.
pub open spec fn meets_forced(members: Seq<u32>, forced: Seq<u32>) -> bool {
    exists|k: int| 0 <= k < members.len() && forced.contains(#[trigger] members[k])
}

/// The rule, on what has already been measured: a hollow neither enclosed nor forced whose
/// area is over the cap is notched, whatever its depth; otherwise an enclosed, a forced, or a
/// deep and wide hollow is kept, and any other notched.
pub open spec fn verdict_for(enclosed: bool, forced: bool, deep_and_wide: bool, over_cap: bool) -> Verdict {
    let capped = !enclosed && !forced && over_cap;
    Verdict {
        forced,
        capped,
        fate: if capped {
            Fate::Notch
        } else if enclosed || forced || deep_and_wide {
            Fate::Keep
        } else {
            Fate::Notch
        },
    }
}

/// The keep rule: a hollow on a forced outlet point, or of an enclosed basin, is never capped
/// and always kept; one capped (too large, neither enclosed nor forced) is always notched; and
/// otherwise a hollow is kept exactly when it is enclosed, forced, or deep and wide enough.
pub proof fn lemma_the_keep_rule(enclosed: bool, forced: bool, deep_and_wide: bool, over_cap: bool)
    ensures
        verdict_for(enclosed, forced, deep_and_wide, over_cap).forced == forced,
        forced ==> !verdict_for(enclosed, forced, deep_and_wide, over_cap).capped
            && verdict_for(enclosed, forced, deep_and_wide, over_cap).fate == Fate::Keep,
        enclosed ==> !verdict_for(enclosed, forced, deep_and_wide, over_cap).capped
            && verdict_for(enclosed, forced, deep_and_wide, over_cap).fate == Fate::Keep,
        verdict_for(enclosed, forced, deep_and_wide, over_cap).capped <==> !enclosed && !forced && over_cap,
        verdict_for(enclosed, forced, deep_and_wide, over_cap).capped ==> verdict_for(enclosed, forced, deep_and_wide,
            over_cap).fate == Fate::Notch,
        !over_cap ==> (verdict_for(enclosed, forced, deep_and_wide, over_cap).fate == Fate::Keep <==> enclosed || forced
            || deep_and_wide),
{
}

/// Judges one hollow. `forced` is the ascending list of forced nodes; `deep_and_wide` is
/// whether its depth and area both reach the keeping thresholds, and `over_cap` whether its
/// area exceeds the largest a hollow may be kept at.
pub fn judge(hollow: &HollowShape, forced: &Vec<u32>, deep_and_wide: bool, over_cap: bool) -> (verdict: Verdict)
    requires
        ascending(forced@),
    ensures
        verdict == verdict_for(hollow.enclosed, meets_forced(hollow.members@, forced@), deep_and_wide, over_cap),
        verdict.forced == meets_forced(hollow.members@, forced@),
        meets_forced(hollow.members@, forced@) ==> !verdict.capped && verdict.fate == Fate::Keep,
        hollow.enclosed ==> !verdict.capped && verdict.fate == Fate::Keep,
        verdict.capped <==> !hollow.enclosed && !meets_forced(hollow.members@, forced@) && over_cap,
        verdict.capped ==> verdict.fate == Fate::Notch,
        !verdict.capped ==> (verdict.fate == Fate::Keep <==> hollow.enclosed || meets_forced(hollow.members@, forced@)
            || deep_and_wide),
{
    proof {
        lemma_the_keep_rule(hollow.enclosed, meets_forced(hollow.members@, forced@), deep_and_wide, over_cap);
    }
    let hit = hits_forced(&hollow.members, forced);
    let capped = !hollow.enclosed && !hit && over_cap;
    let fate = if capped {
        Fate::Notch
    } else if hollow.enclosed || hit || deep_and_wide {
        Fate::Keep
    } else {
        Fate::Notch
    };
    Verdict { forced: hit, capped, fate }
}

/// Whether a forced node lies among `members`. `forced` is ascending.
pub fn hits_forced(members: &Vec<u32>, forced: &Vec<u32>) -> (hit: bool)
    requires
        ascending(forced@),
    ensures
        hit == meets_forced(members@, forced@),
{
    let mut hit = false;
    let mut k: usize = 0;
    while k < members.len()
        invariant
            k <= members@.len(),
            ascending(forced@),
            hit == exists|j: int| 0 <= j < k && forced@.contains(#[trigger] members@[j]),
        decreases members@.len() - k,
    {
        if holds(forced, members[k]) {
            hit = true;
        }
        proof {
            if forced@.contains(members@[k as int]) {
                assert(exists|j: int| 0 <= j < k + 1 && forced@.contains(#[trigger] members@[j]));
            }
        }
        k += 1;
    }
    hit
}

/// The floor of `members`: the lowest of them, the first where several are as low.
pub fn floor_of(members: &Vec<u32>, height: &Vec<u64>) -> (floor: u32)
    requires
        members@.len() > 0,
        ascending(members@),
        forall|k: int| 0 <= k < members@.len() ==> #[trigger] members@[k] < height@.len(),
    ensures
        is_floor(members@, height@, floor),
{
    let mut fi: usize = 0;
    let mut k: usize = 1;
    while k < members.len()
        invariant
            1 <= k <= members@.len(),
            fi < k,
            forall|j: int| 0 <= j < members@.len() ==> #[trigger] members@[j] < height@.len(),
            forall|j: int| 0 <= j < k ==> height@[members@[fi as int] as int] <= height@[#[trigger] members@[j] as int],
            forall|j: int| 0 <= j < fi ==> height@[members@[fi as int] as int] < height@[#[trigger] members@[j] as int],
        decreases members@.len() - k,
    {
        if height[members[k] as usize] < height[members[fi] as usize] {
            fi = k;
        }
        k += 1;
    }
    let floor = members[fi];
    proof {
        let ms = members@;
        assert(ms[fi as int] == floor);
        assert forall|j: int| 0 <= j < ms.len() && #[trigger] ms[j] < floor implies height@[floor as int] < height@[ms[j] as int] by {
            if j >= fi {
                if j > fi {
                    assert(ms[fi as int] < ms[j]);
                }
            }
        }
    }
    floor
}

} // verus!
