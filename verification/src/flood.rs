//! Priority flood: water rises from the seeds and every node learns the level it would stand
//! at, and the way it was reached.
//!
//! Always the lowest frontier node next, so a hollow is met from its lowest rim and filled to
//! exactly that level. Levels and heights are the integer keys of [`crate::keys`].
use vstd::prelude::*;
use crate::seqs::{count_false, lemma_count_false_set};
use crate::drainage::NO_NODE;
use crate::graph::{LandGraph, well_linked};
use crate::heap::{Entry, FloodQueue, entry_le, is_least};

verus! {

broadcast use vstd::multiset::group_multiset_properties;

/// The key of the datum, `+0.0`: where every ocean seed stands.
pub const DATUM_KEY: u64 = 0x8000_0000_0000_0000u64;

/// What one flood learns about every node: the level it spills at, the node it was reached
/// from, the order non-seed nodes were taken off the queue, and whether it was reached at all.
pub struct Flood {
    pub spill_key: Vec<u64>,
    pub parent: Vec<u32>,
    pub order: Vec<u32>,
    pub reached: Vec<bool>,
}

/// Node `x` is one of the seeds.
pub open spec fn seed_node(seeds: Seq<(u32, u64)>, x: int) -> bool {
    exists|k: int| 0 <= k < seeds.len() && #[trigger] seeds[k].0 == x
}

/// Node `x` is seeded at level `l`.
pub open spec fn seed_level(seeds: Seq<(u32, u64)>, x: int, l: u64) -> bool {
    exists|k: int| 0 <= k < seeds.len() && #[trigger] seeds[k] == (x as u32, l)
}

/// The larger of two keys.
pub open spec fn key_max(a: u64, b: u64) -> u64 {
    if a > b {
        a
    } else {
        b
    }
}

/// Node `x` was raised from `p`: its spill is its own height or the level `p` was taken off the
/// queue at, whichever is higher.
pub open spec fn raised_from(seeds: Seq<(u32, u64)>, height: Seq<u64>, spill: Seq<u64>, x: int, p: int) -> bool {
    if seed_node(seeds, p) {
        exists|l: u64| seed_level(seeds, p, l) && spill[x] == key_max(height[x], l)
    } else {
        spill[x] == key_max(height[x], spill[p])
    }
}

/// Node `y`, a neighbour of `z`, spills no higher than its own ground or the level water
/// stands at in `z`: `z`'s spill if `z` is not a seed, and each level `z` is seeded at if it is.
pub open spec fn spills_no_higher(seeds: Seq<(u32, u64)>, height: Seq<u64>, spill: Seq<u64>, z: int, y: int) -> bool {
    &&& !seed_node(seeds, z) ==> spill[y] <= key_max(height[y], spill[z])
    &&& forall|k: int| 0 <= k < seeds.len() && (#[trigger] seeds[k]).0 == z ==> spill[y] <= key_max(height[y], seeds[k].1)
}

/// A way into node `path.last()`: from the seed `path[0]`, entered at one of its seed levels
/// `level`, through neighbouring nodes the flood may enter that are not seeds.
pub open spec fn is_way_in(rows: Seq<Seq<u32>>, seeds: Seq<(u32, u64)>, allowed: Seq<bool>, path: Seq<u32>, level: u64) -> bool {
    &&& path.len() >= 2
    &&& seed_level(seeds, path[0] as int, level)
    &&& forall|i: int| 0 <= i < path.len() ==> #[trigger] path[i] < rows.len()
    &&& forall|i: int| 1 <= i < path.len() ==> allowed[#[trigger] path[i] as int] && !seed_node(seeds, path[i] as int)
    &&& forall|i: int| 0 <= i < path.len() - 1 ==> rows[#[trigger] path[i] as int].contains(path[i + 1])
}

/// The highest a way in climbs: its seed level, or the highest ground it crosses after the seed.
pub open spec fn way_top(height: Seq<u64>, path: Seq<u32>, level: u64) -> u64
    decreases path.len(),
{
    if path.len() <= 1 {
        level
    } else {
        key_max(way_top(height, path.drop_last(), level), height[path.last() as int])
    }
}

proof fn lemma_way_in(
    rows: Seq<Seq<u32>>,
    seeds: Seq<(u32, u64)>,
    height: Seq<u64>,
    allowed: Seq<bool>,
    spill: Seq<u64>,
    reached: Seq<bool>,
    path: Seq<u32>,
    level: u64,
)
    requires
        is_way_in(rows, seeds, allowed, path, level),
        forall|x: int| 0 <= x < rows.len() && seed_node(seeds, x) ==> #[trigger] reached[x],
        forall|r: int, k: int|
            0 <= r < rows.len() && reached[r] && 0 <= k < rows[r].len() && allowed[rows[r][k] as int] ==> #[trigger] reached[rows[r][k] as int],
        forall|z: int, j: int|
            0 <= z < rows.len() && reached[z] && 0 <= j < rows[z].len() && allowed[rows[z][j] as int] && !seed_node(seeds,
                rows[z][j] as int) ==> spills_no_higher(seeds, height, spill, z, #[trigger] rows[z][j] as int),
    ensures
        reached[path.last() as int],
        spill[path.last() as int] <= way_top(height, path, level),
    decreases path.len(),
{
    let n = path.len();
    let y = path[n - 1];
    let z = path[n - 2];
    assert(rows[z as int].contains(y));
    let j = choose|j: int| 0 <= j < rows[z as int].len() && rows[z as int][j] == y;
    assert(allowed[y as int] && !seed_node(seeds, y as int));
    if n == 2 {
        assert(z == path[0]);
        let k = choose|k: int| 0 <= k < seeds.len() && #[trigger] seeds[k] == (z, level);
        assert(seed_node(seeds, z as int)) by {
            assert(seeds[k].0 == z);
        }
        assert(reached[z as int]);
        assert(spills_no_higher(seeds, height, spill, z as int, rows[z as int][j] as int));
        assert(seeds[k].0 == z);
        assert(path.drop_last().len() == 1);
        assert(way_top(height, path.drop_last(), level) == level);
        assert(spill[y as int] <= key_max(height[y as int], seeds[k].1));
        assert(seeds[k].1 == level);
        assert(way_top(height, path, level) == key_max(level, height[y as int]));
    } else {
        let front = path.drop_last();
        assert forall|i: int| 0 <= i < front.len() implies #[trigger] front[i] < rows.len() by {
            assert(front[i] == path[i]);
        }
        assert forall|i: int| 1 <= i < front.len() implies allowed[#[trigger] front[i] as int] && !seed_node(seeds, front[i] as int) by {
            assert(front[i] == path[i]);
        }
        assert forall|i: int| 0 <= i < front.len() - 1 implies rows[#[trigger] front[i] as int].contains(front[i + 1]) by {
            assert(front[i] == path[i] && front[i + 1] == path[i + 1]);
        }
        assert(front[0] == path[0]);
        lemma_way_in(rows, seeds, height, allowed, spill, reached, front, level);
        assert(front.last() == z);
        assert(!seed_node(seeds, z as int)) by {
            assert(path[n - 2] == z);
        }
        assert(spills_no_higher(seeds, height, spill, z as int, rows[z as int][j] as int));
        assert(spill[y as int] <= key_max(height[y as int], spill[z as int]));
        assert(spill[z as int] <= way_top(height, front, level));
        assert(way_top(height, path, level) == key_max(way_top(height, front, level), height[y as int]));
    }
}

/// `path`, entered at `level`, is a way into `x` that climbs exactly to `s`.
#[verifier::opaque]
pub open spec fn realizes(
    rows: Seq<Seq<u32>>,
    seeds: Seq<(u32, u64)>,
    allowed: Seq<bool>,
    height: Seq<u64>,
    path: Seq<u32>,
    level: u64,
    x: int,
    s: u64,
) -> bool {
    is_way_in(rows, seeds, allowed, path, level) && path.last() == x && way_top(height, path, level) == s
}

/// A step from a seed, entered at one of its levels, is a way in that climbs to that level or
/// the ground it steps onto.
proof fn lemma_way_from_seed(
    rows: Seq<Seq<u32>>,
    seeds: Seq<(u32, u64)>,
    allowed: Seq<bool>,
    height: Seq<u64>,
    p: int,
    level: u64,
    j: int,
)
    requires
        seed_level(seeds, p, level),
        rows.len() <= u32::MAX,
        0 <= p < rows.len(),
        0 <= j < rows.len(),
        rows[p].contains(j as u32),
        allowed[j],
        !seed_node(seeds, j),
    ensures
        realizes(rows, seeds, allowed, height, seq![p as u32, j as u32], level, j, key_max(height[j], level)),
{
    reveal(realizes);
    let path = seq![p as u32, j as u32];
    assert(path.drop_last() =~= seq![p as u32]);
    assert(way_top(height, path.drop_last(), level) == level);
}

/// A way into `p` followed by one step to a neighbour `j` is a way into `j` that climbs to the
/// higher of the two: where the way into `p` got, and `j`'s ground.
proof fn lemma_way_extend(
    rows: Seq<Seq<u32>>,
    seeds: Seq<(u32, u64)>,
    allowed: Seq<bool>,
    height: Seq<u64>,
    path: Seq<u32>,
    level: u64,
    p: int,
    s: u64,
    j: int,
)
    requires
        realizes(rows, seeds, allowed, height, path, level, p, s),
        rows.len() <= u32::MAX,
        0 <= j < rows.len(),
        rows[p].contains(j as u32),
        allowed[j],
        !seed_node(seeds, j),
    ensures
        realizes(rows, seeds, allowed, height, path.push(j as u32), level, j, key_max(height[j], s)),
{
    reveal(realizes);
    let longer = path.push(j as u32);
    assert(longer.drop_last() =~= path);
    assert forall|i: int| 0 <= i < longer.len() implies #[trigger] longer[i] < rows.len() by {
        if i < path.len() {
            assert(longer[i] == path[i]);
        }
    }
    assert forall|i: int| 1 <= i < longer.len() implies allowed[#[trigger] longer[i] as int] && !seed_node(
        seeds,
        longer[i] as int,
    ) by {
        if i < path.len() {
            assert(longer[i] == path[i]);
        }
    }
    assert forall|i: int| 0 <= i < longer.len() - 1 implies rows[#[trigger] longer[i] as int].contains(longer[i + 1]) by {
        if i < path.len() - 1 {
            assert(longer[i] == path[i] && longer[i + 1] == path[i + 1]);
        } else {
            assert(longer[i] == p as u32);
        }
    }
    assert(longer[0] == path[0]);
}

/// Following parents from `x` comes to a seed within `fuel` steps.
pub open spec fn leads_to_seed(parent: Seq<u32>, seeds: Seq<(u32, u64)>, x: int, fuel: nat) -> bool
    decreases fuel,
{
    seed_node(seeds, x) || (fuel > 0 && parent[x] != NO_NODE && leads_to_seed(parent, seeds, parent[x] as int, (fuel - 1) as nat))
}

/// Following parents from `x` comes to a seed.
pub open spec fn leads_back(parent: Seq<u32>, seeds: Seq<(u32, u64)>, x: int) -> bool {
    exists|fuel: nat| leads_to_seed(parent, seeds, x, fuel)
}

/// Where every reached node that is not a seed has a reached parent taken off the queue
/// before it, its parents lead to a seed within as many steps as its rank.
proof fn lemma_ranks_lead_back(
    parent: Seq<u32>,
    seeds: Seq<(u32, u64)>,
    reached: Seq<bool>,
    ranks: Seq<nat>,
    n: int,
    x: int,
    fuel: nat,
)
    requires
        n <= u32::MAX,
        0 <= x < n,
        reached[x],
        fuel >= ranks[x],
        forall|y: int|
            0 <= y < n && !seed_node(seeds, y) && #[trigger] reached[y] ==> parent[y] < n && reached[parent[y] as int]
                && ranks[parent[y] as int] < ranks[y],
    ensures
        leads_to_seed(parent, seeds, x, fuel),
    decreases fuel,
{
    if !seed_node(seeds, x) {
        lemma_ranks_lead_back(parent, seeds, reached, ranks, n, parent[x] as int, (fuel - 1) as nat);
    }
}

/// Every ocean node, at the datum, in node order.
pub fn ocean_seeds(ocean: &Vec<bool>) -> (seeds: Vec<(u32, u64)>)
    requires
        ocean@.len() <= u32::MAX,
    ensures
        forall|k: int| 0 <= k < seeds@.len() ==> (#[trigger] seeds@[k]).1 == DATUM_KEY && seeds@[k].0 < ocean@.len(),
        forall|x: int| 0 <= x < ocean@.len() ==> (ocean@[x] <==> seed_node(seeds@, x)),
        forall|a: int, b: int| 0 <= a < b < seeds@.len() ==> #[trigger] seeds@[a].0 < #[trigger] seeds@[b].0,
{
    let mut seeds: Vec<(u32, u64)> = Vec::new();
    let mut n: usize = 0;
    while n < ocean.len()
        invariant
            n <= ocean@.len(),
            ocean@.len() <= u32::MAX,
            forall|k: int| 0 <= k < seeds@.len() ==> (#[trigger] seeds@[k]).1 == DATUM_KEY && seeds@[k].0 < n,
            forall|x: int| 0 <= x < n ==> (ocean@[x] <==> seed_node(seeds@, x)),
            forall|a: int, b: int| 0 <= a < b < seeds@.len() ==> #[trigger] seeds@[a].0 < #[trigger] seeds@[b].0,
        decreases ocean@.len() - n,
    {
        let ghost before = seeds@;
        if ocean[n] {
            seeds.push((n as u32, DATUM_KEY));
        }
        proof {
            assert(n < u32::MAX);
            assert((n as u32) as int == n as int);
            if ocean@[n as int] {
                assert(seeds@ == before.push((n as u32, DATUM_KEY)));
            } else {
                assert(seeds@ == before);
            }
            assert forall|k: int| 0 <= k < seeds@.len() implies (#[trigger] seeds@[k]).1 == DATUM_KEY && seeds@[k].0 < n + 1 by {
                if k < before.len() {
                    assert(seeds@[k] == before[k]);
                }
            }
            assert forall|a: int, b: int| 0 <= a < b < seeds@.len() implies #[trigger] seeds@[a].0 < #[trigger] seeds@[b].0 by {
                if b < before.len() {
                    assert(seeds@[a] == before[a] && seeds@[b] == before[b]);
                } else {
                    assert(seeds@[a] == before[a]);
                }
            }
            assert forall|x: int| 0 <= x < n + 1 implies (ocean@[x] <==> seed_node(seeds@, x)) by {
                if seed_node(seeds@, x) {
                    let k = choose|k: int| 0 <= k < seeds@.len() && #[trigger] seeds@[k].0 == x;
                    if k < before.len() {
                        assert(before[k].0 == x);
                        assert(x < n);
                        assert(seed_node(before, x));
                    } else {
                        assert(ocean@[n as int]);
                        assert(x == n);
                    }
                }
                if x < n && seed_node(before, x) {
                    let k = choose|k: int| 0 <= k < before.len() && #[trigger] before[k].0 == x;
                    assert(seeds@[k].0 == x);
                }
                if x == n && ocean@[n as int] {
                    assert(seeds@[seeds@.len() - 1].0 == x);
                }
            }
        }
        n += 1;
    }
    seeds
}

/// The entry a non-seed node is queued with: its spill, then its own height, then itself.
pub open spec fn entry_of(height: Seq<u64>, spill: Seq<u64>, x: int) -> Entry {
    (spill[x], height[x], x as u32)
}

/// Floods `graph` from `seeds`, entering only nodes that `allowed` lets in.
///
/// Each seed stands at its own level. A node reached from a neighbour spills at its own height
/// or that neighbour's level, whichever is higher, and the lowest frontier node is always taken
/// next -- lowest level, then lowest ground, then lowest index. So every reached node spills
/// exactly at the lowest top any way in from a seed climbs to, and its parents lead back to a
/// seed.
#[verifier::spinoff_prover]
#[verifier::rlimit(30)]
pub fn flood(graph: &LandGraph, height_key: &Vec<u64>, seeds: &Vec<(u32, u64)>, allowed: &Vec<bool>) -> (f: Flood)
    requires
        height_key@.len() == graph.node_count(),
        allowed@.len() == graph.node_count(),
        forall|k: int| 0 <= k < seeds@.len() ==> #[trigger] seeds@[k].0 < graph.node_count(),
    ensures
        f.spill_key@.len() == graph.node_count(),
        f.parent@.len() == graph.node_count(),
        f.reached@.len() == graph.node_count(),
        forall|x: int|
            0 <= x < graph.node_count() && seed_node(seeds@, x) ==> {
                &&& f.reached@[x]
                &&& f.parent@[x] == NO_NODE
                &&& seed_level(seeds@, x, f.spill_key@[x])
                &&& forall|k: int|
                    0 <= k < seeds@.len() && seeds@[k].0 == x && (forall|k2: int|
                        k < k2 < seeds@.len() ==> seeds@[k2].0 != x) ==> #[trigger] seeds@[k].1 == f.spill_key@[x]
            },
        forall|x: int|
            0 <= x < graph.node_count() && !seed_node(seeds@, x) && #[trigger] f.reached@[x] ==> {
                &&& allowed@[x]
                &&& f.parent@[x] < graph.node_count()
                &&& f.reached@[f.parent@[x] as int]
                &&& graph.rows()[x].contains(f.parent@[x])
                &&& raised_from(seeds@, height_key@, f.spill_key@, x, f.parent@[x] as int)
            },
        forall|x: int|
            0 <= x < graph.node_count() && !seed_node(seeds@, x) && !#[trigger] f.reached@[x] ==> f.parent@[x]
                == NO_NODE && f.spill_key@[x] == height_key@[x],
        forall|r: int, k: int|
            0 <= r < graph.node_count() && f.reached@[r] && 0 <= k < graph.rows()[r].len()
                && allowed@[graph.rows()[r][k] as int] ==> #[trigger] f.reached@[graph.rows()[r][k] as int],
        f.order@.no_duplicates(),
        forall|a: int| 0 <= a < f.order@.len() ==> #[trigger] f.order@[a] < graph.node_count(),
        forall|x: int|
            0 <= x < graph.node_count() ==> (f.order@.contains(x as u32) <==> f.reached@[x] && !seed_node(
                seeds@,
                x,
            )),
        forall|a: int, b: int|
            0 <= a < b < f.order@.len() ==> f.spill_key@[#[trigger] f.order@[a] as int]
                <= f.spill_key@[#[trigger] f.order@[b] as int],
        forall|path: Seq<u32>, level: u64|
            #[trigger] is_way_in(graph.rows(), seeds@, allowed@, path, level) ==> f.reached@[path.last() as int]
                && f.spill_key@[path.last() as int] <= way_top(height_key@, path, level),
        forall|x: int| 0 <= x < graph.node_count() && #[trigger] f.reached@[x] ==> leads_back(f.parent@, seeds@, x),
        forall|x: int|
            0 <= x < graph.node_count() && !seed_node(seeds@, x) && #[trigger] f.reached@[x] ==> exists|
                path: Seq<u32>,
                level: u64,
            |
                #[trigger] is_way_in(graph.rows(), seeds@, allowed@, path, level) && path.last() == x && way_top(
                    height_key@,
                    path,
                    level,
                ) == f.spill_key@[x],
{
    let n = graph.len();
    let ghost rows = graph.rows();
    let ghost h = height_key@;
    let ghost sd = seeds@;
    let mut spill_key: Vec<u64> = Vec::new();
    let mut parent: Vec<u32> = Vec::new();
    let mut reached: Vec<bool> = Vec::new();
    let mut is_seed: Vec<bool> = Vec::new();
    let mut i: usize = 0;
    while i < n
        invariant
            i <= n,
            n == graph.node_count(),
            h == height_key@,
            h.len() == n,
            spill_key@ == h.take(i as int),
            parent@.len() == i,
            reached@.len() == i,
            is_seed@.len() == i,
            forall|x: int| 0 <= x < i ==> parent@[x] == NO_NODE && !reached@[x] && !is_seed@[x],
        decreases n - i,
    {
        spill_key.push(height_key[i]);
        parent.push(NO_NODE);
        reached.push(false);
        is_seed.push(false);
        proof {
            assert(h.take(i + 1) == h.take(i as int).push(h[i as int]));
        }
        i += 1;
    }
    proof {
        assert(h.take(n as int) == h);
    }
    let mut queue = FloodQueue::new();
    let mut s: usize = 0;
    while s < seeds.len()
        invariant
            s <= sd.len(),
            sd == seeds@,
            n == graph.node_count(),
            h == height_key@,
            h.len() == n,
            spill_key@.len() == n,
            parent@.len() == n,
            reached@.len() == n,
            is_seed@.len() == n,
            forall|k: int| 0 <= k < sd.len() ==> #[trigger] sd[k].0 < n,
            forall|x: int| 0 <= x < n ==> (#[trigger] is_seed@[x] <==> seed_node(sd.take(s as int), x)),
            forall|x: int| 0 <= x < n ==> (#[trigger] reached@[x] <==> is_seed@[x]),
            forall|x: int| 0 <= x < n ==> #[trigger] parent@[x] == NO_NODE,
            forall|x: int| 0 <= x < n && !#[trigger] is_seed@[x] ==> spill_key@[x] == h[x],
            forall|x: int| 0 <= x < n && #[trigger] is_seed@[x] ==> seed_level(sd.take(s as int), x, spill_key@[x])
                && forall|k: int| 0 <= k < s && sd[k].0 == x && (forall|k2: int| k < k2 < s ==> sd[k2].0 != x)
                    ==> #[trigger] sd[k].1 == spill_key@[x],
            forall|e: Entry| #[trigger] queue.view().contains(e) ==> e.2 < n && is_seed@[e.2 as int] && e.1 == e.0
                && seed_level(sd, e.2 as int, e.0),
            forall|x: int| 0 <= x < n && #[trigger] is_seed@[x] ==> exists|e: Entry| queue.view().contains(e) && e.2 == x,
            forall|k: int| 0 <= k < s ==> queue.view().contains((#[trigger] sd[k].1, sd[k].1, sd[k].0)),
        decreases sd.len() - s,
    {
        let (node, level) = seeds[s];
        let ghost before_seed = is_seed@;
        let ghost before_spill = spill_key@;
        let ghost q0 = queue.view();
        is_seed.set(node as usize, true);
        reached.set(node as usize, true);
        spill_key.set(node as usize, level);
        queue.push_tied(level, level, node);
        proof {
            let t0 = sd.take(s as int);
            let t1 = sd.take(s + 1);
            assert(t1 == t0.push((node, level)));
            assert(seed_level(sd, node as int, level)) by {
                assert(sd[s as int] == (node, level));
            }
            assert forall|x: int| 0 <= x < n implies (#[trigger] is_seed@[x] <==> seed_node(t1, x)) by {
                if seed_node(t1, x) {
                    let k = choose|k: int| 0 <= k < t1.len() && #[trigger] t1[k].0 == x;
                    if k < s {
                        assert(t0[k].0 == x);
                    }
                }
                if x != node as int && seed_node(t0, x) {
                    let k = choose|k: int| 0 <= k < t0.len() && #[trigger] t0[k].0 == x;
                    assert(t1[k].0 == x);
                }
                if x == node as int {
                    assert(t1[s as int].0 == x);
                }
            }
            assert forall|x: int| 0 <= x < n && #[trigger] is_seed@[x] implies seed_level(t1, x, spill_key@[x])
                && forall|k: int| 0 <= k < s + 1 && sd[k].0 == x && (forall|k2: int| k < k2 < s + 1 ==> sd[k2].0 != x)
                    ==> #[trigger] sd[k].1 == spill_key@[x] by {
                if x == node as int {
                    assert(t1[s as int] == (node, level));
                    assert forall|k: int| 0 <= k < s + 1 && sd[k].0 == x && (forall|k2: int| k < k2 < s + 1 ==> sd[k2].0 != x)
                        implies #[trigger] sd[k].1 == spill_key@[x] by {
                        if k < s {
                            assert(sd[s as int].0 == x);
                        }
                    }
                } else {
                    assert(before_seed[x]);
                    let k = choose|k: int| 0 <= k < t0.len() && #[trigger] t0[k] == (x as u32, spill_key@[x]);
                    assert(t1[k] == (x as u32, spill_key@[x]));
                    assert forall|k: int| 0 <= k < s + 1 && sd[k].0 == x && (forall|k2: int| k < k2 < s + 1 ==> sd[k2].0 != x)
                        implies #[trigger] sd[k].1 == spill_key@[x] by {
                        assert(k < s);
                    }
                }
            }
            assert(queue.view() == q0.insert((level, level, node)));
            assert forall|e: Entry| #[trigger] queue.view().contains(e) implies e.2 < n && is_seed@[e.2 as int] && e.1 == e.0
                && seed_level(sd, e.2 as int, e.0) by {
                if e != (level, level, node) {
                    assert(q0.contains(e));
                }
            }
            assert forall|x: int| 0 <= x < n && #[trigger] is_seed@[x] implies exists|e: Entry| queue.view().contains(e) && e.2 == x by {
                if x == node as int {
                    assert(queue.view().contains((level, level, node)));
                } else {
                    assert(before_seed[x]);
                    let e = choose|e: Entry| q0.contains(e) && e.2 == x;
                    assert(queue.view().contains(e));
                }
            }
            assert forall|k: int| 0 <= k < s + 1 implies queue.view().contains((#[trigger] sd[k].1, sd[k].1, sd[k].0)) by {
                if k < s {
                    assert(q0.contains((sd[k].1, sd[k].1, sd[k].0)));
                } else {
                    assert(sd[k] == (node, level));
                }
            }
        }
        s += 1;
    }
    proof {
        assert(sd.take(sd.len() as int) == sd);
    }
    proof {
        assert forall|x: int| 0 <= x < n && !is_seed@[x] implies queue.view().count(#[trigger] entry_of(h, spill_key@, x)) == 0 by {
            if queue.view().count(entry_of(h, spill_key@, x)) > 0 {
                assert(queue.view().contains(entry_of(h, spill_key@, x)));
            }
        }
    }
    let mut order: Vec<u32> = Vec::new();
    let ghost mut popped: Seq<bool> = Seq::new(n as nat, |x: int| false);
    let ghost mut last_level: u64 = 0;
    let ghost mut ways: Seq<(Seq<u32>, u64)> = Seq::new(n as nat, |x: int| (Seq::<u32>::empty(), 0u64));
    let ghost mut ranks: Seq<nat> = Seq::new(n as nat, |x: int| 0nat);
    let ghost mut pops: nat = 0;
    loop
        invariant_except_break
            true,
        invariant
            sd == seeds@,
            n == graph.node_count(),
            rows == graph.rows(),
            well_linked(rows, n as int),
            n <= u32::MAX,
            h == height_key@,
            h.len() == n,
            allowed@.len() == n,
            spill_key@.len() == n,
            parent@.len() == n,
            reached@.len() == n,
            is_seed@.len() == n,
            popped.len() == n,
            ways.len() == n,
            forall|x: int|
                0 <= x < n && !is_seed@[x] && #[trigger] reached@[x] ==> realizes(
                    rows,
                    sd,
                    allowed@,
                    h,
                    ways[x].0,
                    ways[x].1,
                    x,
                    spill_key@[x],
                ),
            forall|k: int| 0 <= k < sd.len() ==> #[trigger] sd[k].0 < n,
            forall|x: int| 0 <= x < n ==> (#[trigger] is_seed@[x] <==> seed_node(sd, x)),
            forall|x: int| 0 <= x < n && #[trigger] is_seed@[x] ==> reached@[x] && parent@[x] == NO_NODE,
            forall|x: int| 0 <= x < n && #[trigger] is_seed@[x] ==> seed_level(sd, x, spill_key@[x])
                && forall|k: int| 0 <= k < sd.len() && sd[k].0 == x && (forall|k2: int| k < k2 < sd.len() ==> sd[k2].0 != x)
                    ==> #[trigger] sd[k].1 == spill_key@[x],
            forall|x: int|
                0 <= x < n && !is_seed@[x] && #[trigger] reached@[x] ==> {
                    &&& allowed@[x]
                    &&& parent@[x] < n
                    &&& reached@[parent@[x] as int]
                    &&& rows[x].contains(parent@[x])
                    &&& raised_from(sd, h, spill_key@, x, parent@[x] as int)
                },
            forall|x: int| 0 <= x < n && !is_seed@[x] && !#[trigger] reached@[x] ==> parent@[x] == NO_NODE && spill_key@[x] == h[x],
            forall|e: Entry|
                #[trigger] queue.view().contains(e) ==> {
                    &&& e.2 < n
                    &&& reached@[e.2 as int]
                    &&& e.0 >= last_level
                    &&& is_seed@[e.2 as int] ==> e.1 == e.0 && seed_level(sd, e.2 as int, e.0)
                    &&& !is_seed@[e.2 as int] ==> e == entry_of(h, spill_key@, e.2 as int) && !popped[e.2 as int]
                },
            forall|x: int| 0 <= x < n && !is_seed@[x] ==> queue.view().count(#[trigger] entry_of(h, spill_key@, x)) <= 1,
            forall|x: int| 0 <= x < n && #[trigger] reached@[x] && !popped[x] ==> exists|e: Entry| queue.view().contains(e) && e.2 == x,
            forall|x: int| 0 <= x < n && #[trigger] popped[x] ==> reached@[x],
            forall|x: int, k: int|
                0 <= x < n && popped[x] && 0 <= k < rows[x].len() && allowed@[rows[x][k] as int] ==> #[trigger] reached@[rows[x][k] as int],
            ranks.len() == n,
            forall|x: int| 0 <= x < n && #[trigger] popped[x] ==> ranks[x] < pops,
            forall|x: int|
                0 <= x < n && !is_seed@[x] && #[trigger] reached@[x] ==> popped[parent@[x] as int] && (popped[x]
                    ==> ranks[parent@[x] as int] < ranks[x]),
            order@.no_duplicates(),
            forall|x: int| 0 <= x < n ==> (order@.contains(x as u32) <==> popped[x] && !is_seed@[x]),
            forall|a: int| 0 <= a < order@.len() ==> #[trigger] order@[a] < n,
            forall|a: int, b: int|
                0 <= a < b < order@.len() ==> spill_key@[#[trigger] order@[a] as int] <= spill_key@[#[trigger] order@[b] as int],
            forall|a: int| 0 <= a < order@.len() ==> spill_key@[#[trigger] order@[a] as int] <= last_level,
            forall|k: int| 0 <= k < sd.len() && !popped[sd[k].0 as int] ==> queue.view().contains((#[trigger] sd[k].1, sd[k].1, sd[k].0)),
            forall|y: int| 0 <= y < n && !is_seed@[y] && #[trigger] reached@[y] ==> spill_key@[y] <= key_max(h[y], last_level),
            forall|z: int, j: int|
                0 <= z < n && popped[z] && 0 <= j < rows[z].len() && allowed@[rows[z][j] as int] && !is_seed@[rows[z][j] as int]
                    ==> spills_no_higher(sd, h, spill_key@, z, #[trigger] rows[z][j] as int),
        ensures
            queue.view().len() == 0,
        decreases count_false(reached@), queue.view().len(),
    {
        let ghost q0 = queue.view();
        let popped_entry = queue.pop_entry();
        let e = match popped_entry {
            None => {
                break;
            },
            Some(e) => e,
        };
        let level = e.0;
        let node = e.2;
        let ghost old_popped = popped;
        let ghost old_order = order@;
        let ghost old_last = last_level;
        proof {
            assert(q0.contains(e));
            if !old_popped[node as int] {
                ranks = ranks.update(node as int, pops);
                pops = pops + 1;
            }
            popped = popped.update(node as int, true);
            last_level = level;
        }
        if !is_seed[node as usize] {
            order.push(node);
            proof {
                assert(e == entry_of(h, spill_key@, node as int));
                assert(!old_popped[node as int]);
                assert(!old_order.contains(node)) by {
                    if old_order.contains(node) {
                        assert(old_popped[node as int]);
                    }
                }
                assert(order@ == old_order.push(node));
            }
        }
        proof {
            // the queue after the pop
            let q1 = queue.view();
            assert(q1 == q0.remove(e));
            if !is_seed@[node as int] {
                assert(q0.count(e) <= 1);
                assert(q1.count(e) == 0);
            }
            assert forall|e2: Entry| #[trigger] q1.contains(e2) implies {
                &&& e2.2 < n
                &&& reached@[e2.2 as int]
                &&& e2.0 >= last_level
                &&& is_seed@[e2.2 as int] ==> e2.1 == e2.0 && seed_level(sd, e2.2 as int, e2.0)
                &&& !is_seed@[e2.2 as int] ==> e2 == entry_of(h, spill_key@, e2.2 as int) && !popped[e2.2 as int]
            } by {
                assert(q0.contains(e2));
                assert(is_least(e, q0));
                if !is_seed@[e2.2 as int] && e2.2 == node {
                    assert(e2 == e);
                }
            }
            assert forall|x: int| 0 <= x < n && #[trigger] reached@[x] && !popped[x] implies exists|e2: Entry| q1.contains(e2) && e2.2 == x by {
                let e2 = choose|e2: Entry| q0.contains(e2) && e2.2 == x;
                assert(e2 != e);
                assert(q1.contains(e2));
            }
            assert forall|x: int| 0 <= x < n && !is_seed@[x] implies q1.count(#[trigger] entry_of(h, spill_key@, x)) <= 1 by {}
            assert forall|kk: int| 0 <= kk < sd.len() && !popped[sd[kk].0 as int] implies q1.contains((#[trigger] sd[kk].1,
                sd[kk].1, sd[kk].0)) by {
                assert(old_popped[sd[kk].0 as int] == popped[sd[kk].0 as int] || sd[kk].0 == node);
                assert(q0.contains((sd[kk].1, sd[kk].1, sd[kk].0)));
                assert((sd[kk].1, sd[kk].1, sd[kk].0) != e);
            }
            assert(level >= old_last);
            assert forall|y: int| 0 <= y < n && !is_seed@[y] && #[trigger] reached@[y] implies spill_key@[y] <= key_max(h[y],
                last_level) by {}
            if is_seed@[node as int] && !old_popped[node as int] {
                assert forall|kk: int| 0 <= kk < sd.len() && (#[trigger] sd[kk]).0 == node implies level <= sd[kk].1 by {
                    assert(q0.contains((sd[kk].1, sd[kk].1, sd[kk].0)));
                    assert(is_least(e, q0));
                    assert(entry_le(e, (sd[kk].1, sd[kk].1, sd[kk].0)));
                }
            }
            assert forall|x: int| 0 <= x < n implies (order@.contains(x as u32) <==> popped[x] && !is_seed@[x]) by {
                if !is_seed@[node as int] {
                    if order@.contains(x as u32) && x != node as int {
                        let m = choose|m: int| 0 <= m < order@.len() && order@[m] == x as u32;
                        assert(old_order[m] == x as u32);
                    }
                    if x != node as int && old_order.contains(x as u32) {
                        let m = choose|m: int| 0 <= m < old_order.len() && old_order[m] == x as u32;
                        assert(order@[m] == x as u32);
                    }
                    if x == node as int {
                        assert(order@[order@.len() - 1] == node);
                    }
                }
            }
        }
        let ghost cf0 = count_false(reached@);
        let ghost ql0 = queue.view().len();
        let nb = graph.neighbours(node);
        let mut k: usize = 0;
        while k < nb.len()
            invariant
                sd == seeds@,
                n == graph.node_count(),
                rows == graph.rows(),
                well_linked(rows, n as int),
                n <= u32::MAX,
                node < n,
                nb@ == rows[node as int],
                k <= nb@.len(),
                popped[node as int],
                level == last_level,
                is_seed@[node as int] ==> seed_level(sd, node as int, level),
                !is_seed@[node as int] ==> level == spill_key@[node as int],
                h == height_key@,
                h.len() == n,
                allowed@.len() == n,
                spill_key@.len() == n,
                parent@.len() == n,
                reached@.len() == n,
                is_seed@.len() == n,
                popped.len() == n,
                ways.len() == n,
                forall|x: int|
                    0 <= x < n && !is_seed@[x] && #[trigger] reached@[x] ==> realizes(
                        rows,
                        sd,
                        allowed@,
                        h,
                        ways[x].0,
                        ways[x].1,
                        x,
                        spill_key@[x],
                    ),
                forall|k: int| 0 <= k < sd.len() ==> #[trigger] sd[k].0 < n,
                forall|x: int| 0 <= x < n ==> (#[trigger] is_seed@[x] <==> seed_node(sd, x)),
                forall|x: int| 0 <= x < n && #[trigger] is_seed@[x] ==> reached@[x] && parent@[x] == NO_NODE,
                forall|x: int| 0 <= x < n && #[trigger] is_seed@[x] ==> seed_level(sd, x, spill_key@[x])
                    && forall|k: int| 0 <= k < sd.len() && sd[k].0 == x && (forall|k2: int| k < k2 < sd.len() ==> sd[k2].0 != x)
                        ==> #[trigger] sd[k].1 == spill_key@[x],
                forall|x: int|
                    0 <= x < n && !is_seed@[x] && #[trigger] reached@[x] ==> {
                        &&& allowed@[x]
                        &&& parent@[x] < n
                        &&& reached@[parent@[x] as int]
                        &&& rows[x].contains(parent@[x])
                        &&& raised_from(sd, h, spill_key@, x, parent@[x] as int)
                    },
                forall|x: int| 0 <= x < n && !is_seed@[x] && !#[trigger] reached@[x] ==> parent@[x] == NO_NODE && spill_key@[x] == h[x],
                forall|e: Entry|
                    #[trigger] queue.view().contains(e) ==> {
                        &&& e.2 < n
                        &&& reached@[e.2 as int]
                        &&& e.0 >= last_level
                        &&& is_seed@[e.2 as int] ==> e.1 == e.0 && seed_level(sd, e.2 as int, e.0)
                        &&& !is_seed@[e.2 as int] ==> e == entry_of(h, spill_key@, e.2 as int) && !popped[e.2 as int]
                    },
                forall|x: int| 0 <= x < n && !is_seed@[x] ==> queue.view().count(#[trigger] entry_of(h, spill_key@, x)) <= 1,
                forall|x: int| 0 <= x < n && #[trigger] reached@[x] && !popped[x] ==> exists|e: Entry| queue.view().contains(e) && e.2 == x,
                forall|x: int| 0 <= x < n && #[trigger] popped[x] ==> reached@[x],
                forall|x: int, k: int|
                    0 <= x < n && x != node && popped[x] && 0 <= k < rows[x].len() && allowed@[rows[x][k] as int] ==> #[trigger] reached@[rows[x][k] as int],
                ranks.len() == n,
                forall|x: int| 0 <= x < n && #[trigger] popped[x] ==> ranks[x] < pops,
                forall|x: int|
                    0 <= x < n && !is_seed@[x] && #[trigger] reached@[x] ==> popped[parent@[x] as int] && (popped[x]
                        ==> ranks[parent@[x] as int] < ranks[x]),
                forall|j: int| 0 <= j < k && allowed@[rows[node as int][j] as int] ==> #[trigger] reached@[rows[node as int][j] as int],
                order@.no_duplicates(),
                forall|x: int| 0 <= x < n ==> (order@.contains(x as u32) <==> popped[x] && !is_seed@[x]),
                forall|a: int| 0 <= a < order@.len() ==> #[trigger] order@[a] < n,
                forall|a: int, b: int|
                    0 <= a < b < order@.len() ==> spill_key@[#[trigger] order@[a] as int] <= spill_key@[#[trigger] order@[b] as int],
                forall|a: int| 0 <= a < order@.len() ==> spill_key@[#[trigger] order@[a] as int] <= last_level,
                count_false(reached@) + queue.view().len() == cf0 + ql0,
                queue.view().len() >= ql0,
                forall|kk: int| 0 <= kk < sd.len() && !popped[sd[kk].0 as int] ==> queue.view().contains((#[trigger] sd[kk].1, sd[kk].1, sd[kk].0)),
                forall|y: int| 0 <= y < n && !is_seed@[y] && #[trigger] reached@[y] ==> spill_key@[y] <= key_max(h[y], last_level),
                forall|z: int, j: int|
                    0 <= z < n && popped[z] && (z != node || old_popped[node as int]) && 0 <= j < rows[z].len()
                        && allowed@[rows[z][j] as int] && !is_seed@[rows[z][j] as int]
                        ==> spills_no_higher(sd, h, spill_key@, z, #[trigger] rows[z][j] as int),
                forall|j: int| 0 <= j < k && allowed@[rows[node as int][j] as int] && !is_seed@[rows[node as int][j] as int]
                    ==> spill_key@[#[trigger] rows[node as int][j] as int] <= key_max(h[rows[node as int][j] as int], level),
                is_seed@[node as int] && !old_popped[node as int] ==> forall|kk: int| 0 <= kk < sd.len()
                    && (#[trigger] sd[kk]).0 == node ==> level <= sd[kk].1,
                forall|x: int| 0 <= x < n && x != node ==> old_popped[x] == popped[x],
                old_popped[node as int] ==> forall|j: int| 0 <= j < rows[node as int].len() && allowed@[rows[node as int][j] as int]
                    ==> #[trigger] reached@[rows[node as int][j] as int],
            decreases nb@.len() - k,
        {
            let next = nb[k];
            proof {
                assert(rows[node as int][k as int] == next);
                assert(next < n);
            }
            let i = next as usize;
            if reached[i] || !allowed[i] {
                k += 1;
                continue;
            }
            proof {
                assert(!popped[i as int]);
            }
            let ghost before_reached = reached@;
            let ghost before_spill = spill_key@;
            let ghost qa = queue.view();
            reached.set(i, true);
            parent.set(i, node);
            let own = height_key[i];
            let spill = if own > level { own } else { level };
            spill_key.set(i, spill);
            queue.push_tied(spill, own, next);
            proof {
                lemma_count_false_set(before_reached, i as int);
                assert(!is_seed@[i as int]);
                assert(rows[node as int].contains(next)) by {
                    assert(rows[node as int][k as int] == next);
                }
                if is_seed@[node as int] {
                    lemma_way_from_seed(rows, sd, allowed@, h, node as int, level, i as int);
                    ways = ways.update(i as int, (seq![node, next], level));
                } else {
                    assert(reached@[node as int]);
                    assert(before_spill[node as int] == level);
                    lemma_way_extend(rows, sd, allowed@, h, ways[node as int].0, ways[node as int].1, node as int, level, i as int);
                    ways = ways.update(i as int, (ways[node as int].0.push(next), ways[node as int].1));
                }
                let ne = (spill, own, next);
                assert(ne == entry_of(h, spill_key@, i as int));
                assert(qa.count(ne) == 0) by {
                    if qa.count(ne) > 0 {
                        assert(qa.contains(ne));
                    }
                }
                assert(rows[i as int].contains(node)) by {
                    assert(rows[node as int].contains(next));
                }
                assert(raised_from(sd, h, spill_key@, i as int, node as int)) by {
                    if seed_node(sd, node as int) {
                        assert(seed_level(sd, node as int, level));
                    } else {
                        assert(spill_key@[node as int] == before_spill[node as int]);
                    }
                }
                assert forall|x: int|
                    0 <= x < n && !is_seed@[x] && #[trigger] reached@[x] implies {
                        &&& allowed@[x]
                        &&& parent@[x] < n
                        &&& reached@[parent@[x] as int]
                        &&& rows[x].contains(parent@[x])
                        &&& raised_from(sd, h, spill_key@, x, parent@[x] as int)
                    } by {
                    if x != i as int {
                        let p = parent@[x] as int;
                        assert(before_reached[p]);
                        assert(p != i as int);
                        if seed_node(sd, p) {
                            let l = choose|l: u64| seed_level(sd, p, l) && before_spill[x] == key_max(h[x], l);
                        }
                    }
                }
                assert forall|e: Entry|
                    #[trigger] queue.view().contains(e) implies {
                        &&& e.2 < n
                        &&& reached@[e.2 as int]
                        &&& e.0 >= last_level
                        &&& is_seed@[e.2 as int] ==> e.1 == e.0 && seed_level(sd, e.2 as int, e.0)
                        &&& !is_seed@[e.2 as int] ==> e == entry_of(h, spill_key@, e.2 as int) && !popped[e.2 as int]
                    } by {
                    if e != ne {
                        assert(qa.contains(e));
                        assert(e.2 != next);
                    }
                }
                assert forall|x: int| 0 <= x < n && !is_seed@[x] implies queue.view().count(#[trigger] entry_of(h, spill_key@, x)) <= 1 by {
                    if x != i as int {
                        assert(entry_of(h, spill_key@, x) == entry_of(h, before_spill, x));
                        assert(entry_of(h, spill_key@, x) != ne);
                    }
                }
                assert forall|x: int| 0 <= x < n && #[trigger] reached@[x] && !popped[x] implies exists|e: Entry| queue.view().contains(e) && e.2 == x by {
                    if x == i as int {
                        assert(queue.view().contains(ne));
                    } else {
                        let e = choose|e: Entry| qa.contains(e) && e.2 == x;
                        assert(queue.view().contains(e));
                    }
                }
                assert forall|z: int, j: int|
                    0 <= z < n && popped[z] && (z != node || old_popped[node as int]) && 0 <= j < rows[z].len()
                        && allowed@[rows[z][j] as int] && !is_seed@[rows[z][j] as int]
                        implies spills_no_higher(sd, h, spill_key@, z, #[trigger] rows[z][j] as int) by {
                    let y = rows[z][j] as int;
                    assert(y != i as int) by {
                        if y == i as int {
                            assert(before_reached[y]);
                        }
                    }
                    assert(z != i as int);
                    assert(spill_key@[y] == before_spill[y]);
                    assert(spill_key@[z] == before_spill[z]);
                }
                assert forall|j: int| 0 <= j < k + 1 && allowed@[rows[node as int][j] as int] && !is_seed@[rows[node as int][j] as int]
                    implies spill_key@[#[trigger] rows[node as int][j] as int] <= key_max(h[rows[node as int][j] as int], level) by {
                    if j < k {
                        assert(rows[node as int][j] < rows[node as int][k as int]);
                    }
                }
                assert forall|a: int| 0 <= a < order@.len() implies spill_key@[#[trigger] order@[a] as int] == before_spill[order@[a] as int] by {
                    assert(order@[a] != next) by {
                        if order@[a] == next {
                            assert(order@.contains(next));
                        }
                    }
                }
            }
            k += 1;
        }
        proof {
            assert forall|z: int, j: int|
                0 <= z < n && popped[z] && 0 <= j < rows[z].len() && allowed@[rows[z][j] as int]
                    && !is_seed@[rows[z][j] as int] implies spills_no_higher(sd, h, spill_key@, z, #[trigger] rows[z][j]
                    as int) by {
                if z == node as int && !old_popped[node as int] {
                    let y = rows[z][j] as int;
                    assert(spill_key@[y] <= key_max(h[y], level));
                    if !seed_node(sd, z) {
                        assert(level == spill_key@[z]);
                    }
                    assert forall|kk: int| 0 <= kk < sd.len() && (#[trigger] sd[kk]).0 == z implies spill_key@[y]
                        <= key_max(h[y], sd[kk].1) by {
                        assert(is_seed@[z]);
                        assert(level <= sd[kk].1);
                    }
                }
            }
            assert(ql0 + 1 == q0.len());
            assert(count_false(reached@) <= cf0);
            assert forall|x: int, k: int|
                0 <= x < n && popped[x] && 0 <= k < rows[x].len() && allowed@[rows[x][k] as int] implies #[trigger] reached@[rows[x][k] as int] by {
                if x == node as int {
                    assert(rows[node as int][k] == rows[x][k]);
                }
            }
        }
    }
    let ghost order_view = order@;
    let ghost reached_view = reached@;
    proof {
        assert forall|x: int| 0 <= x < n && reached@[x] implies popped[x] by {
            if !popped[x] {
                let e = choose|e: Entry| queue.view().contains(e) && e.2 == x;
                assert(queue.view().count(e) > 0);
            }
        }
        assert forall|r: int, k: int|
            0 <= r < n && reached@[r] && 0 <= k < rows[r].len() && allowed@[rows[r][k] as int] implies #[trigger] reached@[rows[r][k] as int] by {
            assert(popped[r]);
        }
        assert forall|x: int| 0 <= x < n && seed_node(sd, x) implies {
            &&& reached@[x]
            &&& parent@[x] == NO_NODE
            &&& seed_level(sd, x, spill_key@[x])
            &&& forall|k: int|
                0 <= k < sd.len() && sd[k].0 == x && (forall|k2: int|
                    k < k2 < sd.len() ==> sd[k2].0 != x) ==> #[trigger] sd[k].1 == spill_key@[x]
        } by {
            assert(is_seed@[x]);
        }
        assert forall|x: int| 0 <= x < n implies (#[trigger] order@.contains(x as u32) <==> reached@[x] && !seed_node(sd, x)) by {
            assert(is_seed@[x] <==> seed_node(sd, x));
            assert(order@.contains(x as u32) <==> popped[x] && !is_seed@[x]);
            if reached@[x] && !popped[x] {
                let e = choose|e: Entry| queue.view().contains(e) && e.2 == x;
                assert(queue.view().count(e) > 0);
                assert(queue.view().len() > 0);
            }
            if popped[x] {
                assert(reached@[x]);
            }
        }
    }
    proof {
        assert forall|x: int| 0 <= x < n && #[trigger] reached@[x] implies popped[x] by {
            if !popped[x] {
                let e = choose|e: Entry| queue.view().contains(e) && e.2 == x;
                assert(queue.view().count(e) > 0);
            }
        }
        assert forall|path: Seq<u32>, level: u64| #[trigger] is_way_in(rows, sd, allowed@, path, level) implies reached@[
            path.last() as int] && spill_key@[path.last() as int] <= way_top(h, path, level) by {
            assert forall|x: int| 0 <= x < rows.len() && seed_node(sd, x) implies #[trigger] reached@[x] by {
                assert(is_seed@[x]);
            }
            assert forall|z: int, j: int|
                0 <= z < rows.len() && reached@[z] && 0 <= j < rows[z].len() && allowed@[rows[z][j] as int]
                    && !seed_node(sd, rows[z][j] as int) implies spills_no_higher(sd, h, spill_key@, z, #[trigger] rows[z][j]
                    as int) by {
                assert(popped[z]);
                assert(!is_seed@[rows[z][j] as int]);
            }
            assert forall|r: int, k: int|
                0 <= r < rows.len() && reached@[r] && 0 <= k < rows[r].len() && allowed@[rows[r][k] as int] implies #[trigger] reached@[
                rows[r][k] as int] by {
                assert(popped[r]);
            }
            lemma_way_in(rows, sd, h, allowed@, spill_key@, reached@, path, level);
        }
    }
    proof {
        assert forall|x: int| 0 <= x < n && #[trigger] reached@[x] implies leads_back(parent@, sd, x) by {
            assert forall|y: int|
                0 <= y < n && !seed_node(sd, y) && #[trigger] reached@[y] implies parent@[y] < n && reached@[parent@[y] as int]
                    && ranks[parent@[y] as int] < ranks[y] by {
                assert(!is_seed@[y]);
                assert(popped[y]);
            }
            lemma_ranks_lead_back(parent@, sd, reached@, ranks, n as int, x, ranks[x]);
        }
        assert forall|x: int| 0 <= x < n && !seed_node(sd, x) && #[trigger] reached@[x] implies exists|
            path: Seq<u32>,
            level: u64,
        | #[trigger] is_way_in(rows, sd, allowed@, path, level) && path.last() == x && way_top(h, path, level)
            == spill_key@[x] by {
            assert(!is_seed@[x]);
            reveal(realizes);
            assert(is_way_in(rows, sd, allowed@, ways[x].0, ways[x].1));
        }
    }
    let f = Flood { spill_key, parent, order, reached };
    proof {
        assert forall|x: int| 0 <= x < graph.node_count() implies (f.order@.contains(x as u32) <==> f.reached@[x]
            && !seed_node(seeds@, x)) by {
            assert(f.order@ == order_view);
            assert(f.reached@ == reached_view);
            assert(order_view.contains(x as u32) <==> reached_view[x] && !seed_node(sd, x));
        }
    }
    f
}

} // verus!
