//! The fine pond search on one strip of ground cells: the strip as a four-neighbour grid, the
//! level every cell would stand at when water rises from the strip's edge, and the hollows
//! that level leaves.
//!
//! A strip `cells_across` wide and `steps` long holds its cells row by row: cell `i` is at row
//! `i / cells_across`, column `i % cells_across`.
use vstd::prelude::*;
use crate::graph::{LandGraph, joined, lists_view, linked, well_linked};
use crate::flood::{flood, is_way_in, seed_level, seed_node, way_top};
use crate::components::{NO_COMPONENT, bond, components, connected, is_path};
use crate::ponds::{clipped_at, near_end, near_side};
use crate::graph::ascending;
use crate::hollows::{group_lists, is_floor, lemma_ascending_at_least, lemma_first_is_least, lists_group};

verus! {

/// Cells `a` and `b` of a grid of `count` cells, `w` to a row, are side by side: one row apart
/// in the same column, or one column apart in the same row.
pub open spec fn grid_step(w: int, count: int, a: int, b: int) -> bool {
    ||| a >= w && b == a - w
    ||| a + w < count && b == a + w
    ||| a >= 1 && a % w != 0 && b == a - 1
    ||| a + 1 < count && (a + 1) % w != 0 && b == a + 1
}

/// Side by side is symmetric.
proof fn lemma_grid_step_symmetric(w: int, count: int, a: int, b: int)
    requires
        0 <= a < count,
        0 <= b < count,
        grid_step(w, count, a, b),
    ensures
        grid_step(w, count, b, a),
{
}

proof fn lemma_push_contains(s: Seq<u32>, x: u32)
    ensures
        forall|y: u32| #[trigger] s.push(x).contains(y) <==> s.contains(y) || y == x,
{
    assert forall|y: u32| #[trigger] s.push(x).contains(y) implies s.contains(y) || y == x by {
        let k = choose|k: int| 0 <= k < s.push(x).len() && s.push(x)[k] == y;
        if k < s.len() {
            assert(s[k] == y);
        }
    }
    assert forall|y: u32| s.contains(y) implies #[trigger] s.push(x).contains(y) by {
        let k = choose|k: int| 0 <= k < s.len() && s[k] == y;
        assert(s.push(x)[k] == y);
    }
    assert(s.push(x)[s.len() as int] == x);
}

/// The four-neighbour grid of a strip `cells_across` wide and `steps` long.
pub fn strip_grid(cells_across: usize, steps: usize) -> (grid: LandGraph)
    requires
        cells_across >= 1,
        cells_across * steps <= u32::MAX,
    ensures
        grid.node_count() == cells_across * steps,
        well_linked(grid.rows(), grid.node_count()),
        forall|a: int, b: int|
            0 <= a < cells_across * steps && 0 <= b < cells_across * steps ==> (#[trigger] grid.rows()[a].contains(
                b as u32,
            ) <==> grid_step(cells_across as int, cells_across * steps, a, b)),
{
    let w = cells_across;
    let count = cells_across * steps;
    let mut directed: Vec<Vec<u32>> = Vec::new();
    let mut i: usize = 0;
    while i < count
        invariant
            i <= count,
            w >= 1,
            count == cells_across * steps,
            w == cells_across,
            count <= u32::MAX,
            directed@.len() == i,
            forall|a: int, k: int| 0 <= a < i && 0 <= k < directed@[a]@.len() ==> #[trigger] directed@[a]@[k] < count,
            forall|a: int, b: int|
                0 <= a < i && 0 <= b < count ==> (#[trigger] directed@[a]@.contains(b as u32) <==> grid_step(
                    w as int,
                    count as int,
                    a,
                    b,
                )),
        decreases count - i,
    {
        let mut list: Vec<u32> = Vec::new();
        if i >= w {
            proof {
                lemma_push_contains(list@, (i - w) as u32);
            }
            list.push((i - w) as u32);
        }
        if w < count - i {
            proof {
                lemma_push_contains(list@, (i + w) as u32);
            }
            list.push((i + w) as u32);
        }
        if i >= 1 && i % w != 0 {
            proof {
                lemma_push_contains(list@, (i - 1) as u32);
            }
            list.push((i - 1) as u32);
        }
        if i + 1 < count && (i + 1) % w != 0 {
            proof {
                lemma_push_contains(list@, (i + 1) as u32);
            }
            list.push((i + 1) as u32);
        }
        proof {
            assert forall|b: int| 0 <= b < count implies (#[trigger] list@.contains(b as u32) <==> grid_step(
                w as int,
                count as int,
                i as int,
                b,
            )) by {}
        }
        directed.push(list);
        i += 1;
    }
    let grid = LandGraph::from_parts(count, &directed);
    proof {
        let dir = lists_view(directed@);
        assert forall|a: int, b: int| 0 <= a < count && 0 <= b < count implies (#[trigger] grid.rows()[a].contains(
            b as u32,
        ) <==> grid_step(w as int, count as int, a, b)) by {
            assert(dir[a] == directed@[a]@);
            assert(dir[b] == directed@[b]@);
            if linked(dir, b, a) {
                lemma_grid_step_symmetric(w as int, count as int, b, a);
            }
            assert(grid_step(w as int, count as int, a, b) ==> a != b);
        }
    }
    grid
}

/// Cell `x` lies on the strip's edge: its first or last row, or its first or last column.
pub open spec fn on_edge(w: int, count: int, x: int) -> bool {
    x < w || x + w >= count || x % w == 0 || x % w == w - 1
}

/// Every edge cell, in cell order, seeded at its own ground.
fn edge_seeds(cells_across: usize, count: usize, ground_key: &Vec<u64>) -> (seeds: Vec<(u32, u64)>)
    requires
        cells_across >= 1,
        count <= u32::MAX,
        ground_key@.len() == count,
    ensures
        forall|k: int|
            0 <= k < seeds@.len() ==> {
                &&& (#[trigger] seeds@[k]).0 < count
                &&& on_edge(cells_across as int, count as int, seeds@[k].0 as int)
                &&& seeds@[k].1 == ground_key@[seeds@[k].0 as int]
            },
        forall|x: int| 0 <= x < count && on_edge(cells_across as int, count as int, x) ==> seed_node(seeds@, x),
{
    let w = cells_across;
    let mut seeds: Vec<(u32, u64)> = Vec::new();
    let mut i: usize = 0;
    while i < count
        invariant
            i <= count,
            w == cells_across,
            w >= 1,
            count <= u32::MAX,
            ground_key@.len() == count,
            forall|k: int|
                0 <= k < seeds@.len() ==> {
                    &&& (#[trigger] seeds@[k]).0 < i
                    &&& on_edge(w as int, count as int, seeds@[k].0 as int)
                    &&& seeds@[k].1 == ground_key@[seeds@[k].0 as int]
                },
            forall|x: int| 0 <= x < i && on_edge(w as int, count as int, x) ==> seed_node(seeds@, x),
        decreases count - i,
    {
        let ghost before = seeds@;
        if i < w || w >= count - i || i % w == 0 || i % w == w - 1 {
            seeds.push((i as u32, ground_key[i]));
            proof {
                assert forall|x: int| 0 <= x < i + 1 && on_edge(w as int, count as int, x) implies seed_node(seeds@, x) by {
                    if x < i {
                        let k = choose|k: int| 0 <= k < before.len() && #[trigger] before[k].0 == x;
                        assert(seeds@[k].0 == x);
                    } else {
                        assert(seeds@[seeds@.len() - 1].0 == x);
                    }
                }
            }
        } else {
            proof {
                assert forall|x: int| 0 <= x < i + 1 && on_edge(w as int, count as int, x) implies seed_node(seeds@, x) by {
                    if x == i {
                        assert(!on_edge(w as int, count as int, x));
                    }
                }
            }
        }
        i += 1;
    }
    seeds
}

/// A way up from the strip's edge to `path.last()`: it leaves an edge cell and steps from cell
/// to side-by-side cell, never back onto the edge.
pub open spec fn is_edge_way(w: int, count: int, path: Seq<u32>) -> bool {
    &&& path.len() >= 2
    &&& on_edge(w, count, path[0] as int)
    &&& forall|i: int| 0 <= i < path.len() ==> #[trigger] path[i] < count
    &&& forall|i: int| 1 <= i < path.len() ==> !on_edge(w, count, #[trigger] path[i] as int)
    &&& forall|i: int| 0 <= i < path.len() - 1 ==> grid_step(w, count, #[trigger] path[i] as int, path[i + 1] as int)
}

/// Some way up from the edge to `x` climbs exactly to `s`.
pub open spec fn edge_way_to(w: int, count: int, ground: Seq<u64>, x: int, s: u64) -> bool {
    exists|path: Seq<u32>|
        #[trigger] is_edge_way(w, count, path) && path.last() == x && way_top(ground, path, ground[path[0] as int]) == s
}

/// Every cell of a grid whose edge cells are reached, and which is closed under side-by-side
/// steps, is reached: walk up the column to the first row.
proof fn lemma_grid_all_reached(
    w: int,
    count: int,
    rows: Seq<Seq<u32>>,
    allowed: Seq<bool>,
    reached: Seq<bool>,
    x: int,
)
    requires
        w >= 1,
        0 <= x < count,
        count <= u32::MAX,
        rows.len() == count,
        reached.len() == count,
        forall|a: int, b: int|
            0 <= a < count && 0 <= b < count ==> (#[trigger] rows[a].contains(b as u32) <==> grid_step(w, count, a, b)),
        forall|y: int| 0 <= y < count && on_edge(w, count, y) ==> #[trigger] reached[y],
        forall|y: int| 0 <= y < count ==> allowed[y],
        forall|r: int, k: int|
            0 <= r < count && reached[r] && 0 <= k < rows[r].len() && allowed[rows[r][k] as int]
                ==> #[trigger] reached[rows[r][k] as int],
    ensures
        reached[x],
    decreases x,
{
    if x >= w {
        lemma_grid_all_reached(w, count, rows, allowed, reached, x - w);
        assert(grid_step(w, count, x - w, x));
        assert(rows[x - w].contains(x as u32));
        let row = rows[x - w];
        let k = choose|k: int| 0 <= k < row.len() && #[trigger] row[k] == x as u32;
        assert(allowed[x]);
        assert(reached[rows[x - w][k] as int]);
    }
}

/// What the flood from the edge seeds gives, said of the strip itself.
proof fn lemma_spill_from_flood(
    wi: int,
    ci: int,
    rows: Seq<Seq<u32>>,
    sd: Seq<(u32, u64)>,
    allowed: Seq<bool>,
    g: Seq<u64>,
    spill: Seq<u64>,
    reached: Seq<bool>,
)
    requires
        wi >= 1,
        ci <= u32::MAX,
        rows.len() == ci,
        allowed.len() == ci,
        g.len() == ci,
        spill.len() == ci,
        reached.len() == ci,
        forall|x: int| 0 <= x < ci ==> allowed[x],
        forall|a: int, b: int|
            0 <= a < ci && 0 <= b < ci ==> (#[trigger] rows[a].contains(b as u32) <==> grid_step(wi, ci, a, b)),
        forall|k: int|
            0 <= k < sd.len() ==> {
                &&& (#[trigger] sd[k]).0 < ci
                &&& on_edge(wi, ci, sd[k].0 as int)
                &&& sd[k].1 == g[sd[k].0 as int]
            },
        forall|x: int| 0 <= x < ci && on_edge(wi, ci, x) ==> seed_node(sd, x),
        forall|x: int|
            0 <= x < ci && seed_node(sd, x) ==> {
                &&& reached[x]
                &&& seed_level(sd, x, spill[x])
            },
        forall|r: int, k: int|
            0 <= r < ci && reached[r] && 0 <= k < rows[r].len() && allowed[rows[r][k] as int]
                ==> #[trigger] reached[rows[r][k] as int],
        forall|path: Seq<u32>, level: u64|
            #[trigger] is_way_in(rows, sd, allowed, path, level) ==> reached[path.last() as int]
                && spill[path.last() as int] <= way_top(g, path, level),
        forall|x: int|
            0 <= x < ci && !seed_node(sd, x) && #[trigger] reached[x] ==> exists|path: Seq<u32>, level: u64|
                #[trigger] is_way_in(rows, sd, allowed, path, level) && path.last() == x && way_top(g, path, level)
                    == spill[x],
    ensures
        forall|x: int| 0 <= x < ci && on_edge(wi, ci, x) ==> #[trigger] spill[x] == g[x],
        forall|path: Seq<u32>|
            #[trigger] is_edge_way(wi, ci, path) ==> spill[path.last() as int] <= way_top(g, path, g[path[0] as int]),
        forall|x: int| 0 <= x < ci && !on_edge(wi, ci, x) ==> #[trigger] edge_way_to(wi, ci, g, x, spill[x]),
{
    // A seed is an edge cell at its own ground, and every edge cell is one.
    assert forall|x: int, l: u64| 0 <= x < ci && seed_level(sd, x, l) implies on_edge(wi, ci, x) && l == g[x] by {
        let k = choose|k: int| 0 <= k < sd.len() && #[trigger] sd[k] == (x as u32, l);
    }
    assert forall|x: int| 0 <= x < ci && seed_node(sd, x) implies on_edge(wi, ci, x) by {
        let k = choose|k: int| 0 <= k < sd.len() && #[trigger] sd[k].0 == x;
    }
    assert forall|x: int| 0 <= x < ci && on_edge(wi, ci, x) implies #[trigger] spill[x] == g[x] by {
        assert(seed_node(sd, x));
        assert(seed_level(sd, x, spill[x]));
    }
    assert forall|path: Seq<u32>| #[trigger] is_edge_way(wi, ci, path) implies spill[path.last() as int]
        <= way_top(g, path, g[path[0] as int]) by {
        assert(seed_node(sd, path[0] as int));
        let k = choose|k: int| 0 <= k < sd.len() && #[trigger] sd[k].0 == path[0];
        assert(sd[k] == (path[0], g[path[0] as int]));
        assert(seed_level(sd, path[0] as int, g[path[0] as int]));
        assert forall|i: int| 1 <= i < path.len() implies allowed[#[trigger] path[i] as int] && !seed_node(
            sd,
            path[i] as int,
        ) by {
            assert(path[i] < ci);
            assert(!on_edge(wi, ci, path[i] as int));
        }
        assert forall|i: int| 0 <= i < path.len() - 1 implies rows[#[trigger] path[i] as int].contains(path[i + 1]) by {
            assert(grid_step(wi, ci, path[i] as int, path[i + 1] as int));
            assert(path[i] < ci && path[i + 1] < ci);
            assert(rows[path[i] as int].contains((path[i + 1] as int) as u32));
        }
        assert(is_way_in(rows, sd, allowed, path, g[path[0] as int]));
    }
    assert forall|x: int| 0 <= x < ci implies #[trigger] reached[x] by {
        assert forall|y: int| 0 <= y < ci && on_edge(wi, ci, y) implies #[trigger] reached[y] by {
            assert(seed_node(sd, y));
        }
        lemma_grid_all_reached(wi, ci, rows, allowed, reached, x);
    }
    assert forall|x: int| 0 <= x < ci && !on_edge(wi, ci, x) implies #[trigger] edge_way_to(wi, ci, g, x, spill[x]) by {
        assert(reached[x]);
        assert(!seed_node(sd, x));
        let (path, level) = choose|path: Seq<u32>, level: u64|
            #[trigger] is_way_in(rows, sd, allowed, path, level) && path.last() == x && way_top(g, path, level)
                == spill[x];
        assert(on_edge(wi, ci, path[0] as int) && level == g[path[0] as int]);
        assert forall|i: int| 1 <= i < path.len() implies !on_edge(wi, ci, #[trigger] path[i] as int) by {
            assert(path[i] < ci);
            if on_edge(wi, ci, path[i] as int) {
                assert(seed_node(sd, path[i] as int));
            }
        }
        assert forall|i: int| 0 <= i < path.len() - 1 implies grid_step(wi, ci, #[trigger] path[i] as int, path[i + 1] as int) by {
            assert(rows[path[i] as int].contains(path[i + 1]));
            assert(path[i] < ci && path[i + 1] < ci);
            assert(rows[path[i] as int].contains((path[i + 1] as int) as u32));
        }
        assert(is_edge_way(wi, ci, path));
    }
}

/// The level every cell of a strip would stand at when water rises from its edge: an edge cell
/// stands at its own ground, and any other cell at the lowest top that a way up from the edge
/// to it climbs, as order-keeping keys.
pub fn spill_levels(cells_across: usize, steps: usize, ground_key: &Vec<u64>) -> (spill: Vec<u64>)
    requires
        cells_across * steps <= u32::MAX,
        ground_key@.len() == cells_across * steps,
    ensures
        spill@.len() == cells_across * steps,
        forall|x: int|
            0 <= x < cells_across * steps && on_edge(cells_across as int, cells_across * steps, x) ==> #[trigger] spill@[x]
                == ground_key@[x],
        forall|path: Seq<u32>|
            #[trigger] is_edge_way(cells_across as int, cells_across * steps, path) ==> spill@[path.last() as int]
                <= way_top(ground_key@, path, ground_key@[path[0] as int]),
        forall|x: int|
            0 <= x < cells_across * steps && !on_edge(cells_across as int, cells_across * steps, x)
                ==> #[trigger] edge_way_to(cells_across as int, cells_across * steps, ground_key@, x, spill@[x]),
{
    if cells_across == 0 {
        return Vec::new();
    }
    let w = cells_across;
    let count = cells_across * steps;
    let ghost wi = w as int;
    let ghost ci = count as int;
    let grid = strip_grid(w, steps);
    let seeds = edge_seeds(w, count, ground_key);
    let mut allowed: Vec<bool> = Vec::new();
    let mut i: usize = 0;
    while i < count
        invariant
            i <= count,
            allowed@.len() == i,
            forall|x: int| 0 <= x < i ==> allowed@[x],
        decreases count - i,
    {
        allowed.push(true);
        i += 1;
    }
    let f = flood(&grid, ground_key, &seeds, &allowed);
    proof {
        lemma_spill_from_flood(wi, ci, grid.rows(), seeds@, allowed@, ground_key@, f.spill_key@, f.reached@);
    }
    f.spill_key
}

/// Cells `a` and `b` are both chosen, carry the same key, and lie side by side.
pub open spec fn grid_bond(w: int, count: int, member: Seq<bool>, key: Seq<u64>, a: int, b: int) -> bool {
    &&& 0 <= a < count
    &&& 0 <= b < count
    &&& member[a]
    &&& member[b]
    &&& key[a] == key[b]
    &&& grid_step(w, count, a, b)
}

/// A walk from a chosen cell through bonded steps.
pub open spec fn is_grid_path(w: int, count: int, member: Seq<bool>, key: Seq<u64>, path: Seq<u32>) -> bool {
    &&& path.len() > 0
    &&& path[0] < count
    &&& member[path[0] as int]
    &&& forall|k: int| 0 <= k < path.len() - 1 ==> grid_bond(w, count, member, key, #[trigger] path[k] as int, path[k + 1] as int)
}

/// Some walk of bonded steps leads from cell `a` to cell `b`.
pub open spec fn grid_connected(w: int, count: int, member: Seq<bool>, key: Seq<u64>, a: int, b: int) -> bool {
    exists|path: Seq<u32>| #[trigger] is_grid_path(w, count, member, key, path) && path[0] == a && path.last() == b
}

/// On rows that hold exactly the side-by-side cells, being joined through the rows is being
/// joined through the grid.
proof fn lemma_connected_on_grid(w: int, count: int, rows: Seq<Seq<u32>>, member: Seq<bool>, key: Seq<u64>)
    requires
        count <= u32::MAX,
        rows.len() == count,
        forall|a: int, b: int| 0 <= a < count && 0 <= b < count ==> (#[trigger] rows[a].contains(b as u32) <==> grid_step(w, count, a, b)),
    ensures
        forall|a: int, b: int| #[trigger] connected(rows, member, key, a, b) <==> grid_connected(w, count, member, key, a, b),
{
    reveal(connected);
    assert forall|path: Seq<u32>| #[trigger] is_path(rows, member, key, path) <==> is_grid_path(w, count, member, key, path) by {
        assert forall|k: int| 0 <= k < path.len() - 1 implies (bond(rows, member, key, #[trigger] path[k] as int, path[k + 1] as int)
            <==> grid_bond(w, count, member, key, path[k] as int, path[k + 1] as int)) by {
            if 0 <= path[k] < count && 0 <= path[k + 1] < count {
                assert(rows[path[k] as int].contains((path[k + 1] as int) as u32) <==> grid_step(w, count, path[k] as int, path[k + 1] as int));
            }
        }
    }
    assert forall|a: int, b: int| #[trigger] connected(rows, member, key, a, b) <==> grid_connected(w, count, member, key, a, b) by {
        if connected(rows, member, key, a, b) {
            let path = choose|path: Seq<u32>| #[trigger] is_path(rows, member, key, path) && path[0] == a && path.last() == b;
            assert(is_grid_path(w, count, member, key, path));
        }
        if grid_connected(w, count, member, key, a, b) {
            let path = choose|path: Seq<u32>| #[trigger] is_grid_path(w, count, member, key, path) && path[0] == a && path.last() == b;
            assert(is_path(rows, member, key, path));
        }
    }
}

/// One hollow found in a strip: its cells in row-major order, the level water stands at in
/// it, its lowest cell, and whether it runs up against the strip's sides or its ends.
pub struct PondCells {
    pub cells: Vec<u32>,
    pub level_key: u64,
    pub anchor: u32,
    pub touches_side: bool,
    pub touches_end: bool,
}

/// Which cells stand under water: their spill is above their ground.
pub open spec fn under_water(ground: Seq<u64>, spill: Seq<u64>) -> Seq<bool> {
    Seq::new(spill.len(), |x: int| spill[x] > ground[x])
}

/// Some of `cells` lies on the first interior ring by the strip's sides.
pub open spec fn cells_near_side(cells: Seq<u32>, w: int) -> bool {
    exists|k: int| 0 <= k < cells.len() && near_side((#[trigger] cells[k]) as int % w, w)
}

/// Some of `cells` lies on the first interior ring by the strip's ends.
pub open spec fn cells_near_end(cells: Seq<u32>, w: int, steps: int) -> bool {
    exists|k: int| 0 <= k < cells.len() && near_end((#[trigger] cells[k]) as int / w, steps)
}

/// The hollow made of `cells`, ascending: its lowest cell (the first of equals), and where it
/// touches the strip.
fn pond_of(cells: Vec<u32>, cells_across: usize, steps: usize, ground_key: &Vec<u64>, level_key: u64) -> (pond: PondCells)
    requires
        cells_across >= 1,
        cells@.len() > 0,
        ascending(cells@),
        forall|k: int| 0 <= k < cells@.len() ==> #[trigger] cells@[k] < ground_key@.len(),
    ensures
        pond.cells@ == cells@,
        pond.level_key == level_key,
        is_floor(cells@, ground_key@, pond.anchor),
        pond.touches_side == cells_near_side(cells@, cells_across as int),
        pond.touches_end == cells_near_end(cells@, cells_across as int, steps as int),
{
    let ghost ms = cells@;
    let mut floor = cells[0];
    let ghost mut fi: int = 0;
    let mut at: Vec<(usize, usize)> = Vec::new();
    at.push(((cells[0] as usize) / cells_across, (cells[0] as usize) % cells_across));
    let mut k: usize = 1;
    while k < cells.len()
        invariant
            ms == cells@,
            cells_across >= 1,
            1 <= k <= ms.len(),
            ascending(ms),
            forall|j: int| 0 <= j < ms.len() ==> #[trigger] ms[j] < ground_key@.len(),
            0 <= fi < k,
            ms[fi] == floor,
            forall|j: int| 0 <= j < k ==> ground_key@[floor as int] <= ground_key@[#[trigger] ms[j] as int],
            forall|j: int| 0 <= j < fi ==> ground_key@[floor as int] < ground_key@[#[trigger] ms[j] as int],
            at@.len() == k,
            forall|j: int|
                0 <= j < k ==> (#[trigger] at@[j]).0 == ms[j] as int / cells_across as int && at@[j].1 == ms[j] as int
                    % cells_across as int,
        decreases ms.len() - k,
    {
        let m = cells[k];
        if ground_key[m as usize] < ground_key[floor as usize] {
            floor = m;
            proof {
                fi = k as int;
            }
        }
        at.push(((m as usize) / cells_across, (m as usize) % cells_across));
        k += 1;
    }
    let (side, end) = clipped_at(&at, steps, cells_across);
    proof {
        assert(ms.contains(floor));
        assert forall|j: int| 0 <= j < ms.len() && #[trigger] ms[j] < floor implies ground_key@[floor as int]
            < ground_key@[ms[j] as int] by {
            if j >= fi {
                if j > fi {
                    assert(ms[fi] < ms[j]);
                }
            }
        }
        if side {
            let k = choose|k: int| 0 <= k < at@.len() && near_side((#[trigger] at@[k]).1 as int, cells_across as int);
            assert(near_side(ms[k] as int % cells_across as int, cells_across as int));
        }
        if cells_near_side(ms, cells_across as int) {
            let k = choose|k: int| 0 <= k < ms.len() && near_side((#[trigger] ms[k]) as int % cells_across as int, cells_across as int);
            assert(near_side(at@[k].1 as int, cells_across as int));
        }
        if end {
            let k = choose|k: int| 0 <= k < at@.len() && near_end((#[trigger] at@[k]).0 as int, steps as int);
            assert(near_end(ms[k] as int / cells_across as int, steps as int));
        }
        if cells_near_end(ms, cells_across as int, steps as int) {
            let k = choose|k: int| 0 <= k < ms.len() && near_end((#[trigger] ms[k]) as int / cells_across as int, steps as int);
            assert(near_end(at@[k].0 as int, steps as int));
        }
    }
    PondCells { cells, level_key, anchor: floor, touches_side: side, touches_end: end }
}

/// `hollows` are the hollows of a strip `w` cells across and `steps` long, with ground `ground`,
/// whose cells spill at `spill`: each a group of under-water cells joined by side-by-side steps
/// between cells of equal spill, listed in row-major order, with its level, its lowest cell and
/// where it touches the strip; in the order of their first cells, and every under-water cell
/// in one.
pub open spec fn splits_into(w: int, steps: int, ground: Seq<u64>, spill: Seq<u64>, hollows: Seq<PondCells>) -> bool {
    &&& forall|h: int|
        0 <= h < hollows.len() ==> {
            let m = (#[trigger] hollows[h]).cells@;
            &&& m.len() > 0
            &&& ascending(m)
            &&& forall|k: int| 0 <= k < m.len() ==> #[trigger] m[k] < w * steps
            &&& forall|x: int|
                0 <= x < w * steps ==> (m.contains(x as u32) <==> under_water(ground, spill)[x]
                    && grid_connected(
                    w,
                    w * steps,
                    under_water(ground, spill),
                    spill,
                    m[0] as int,
                    x,
                ))
            &&& is_floor(m, ground, hollows[h].anchor)
            &&& hollows[h].level_key == spill[m[0] as int]
            &&& hollows[h].touches_side == cells_near_side(m, w)
            &&& hollows[h].touches_end == cells_near_end(m, w, steps)
        }
    &&& forall|a: int, b: int| 0 <= a < b < hollows.len() ==> (#[trigger] hollows[a]).cells@[0]
        < (#[trigger] hollows[b]).cells@[0]
    &&& forall|x: int|
        0 <= x < w * steps && under_water(ground, spill)[x] ==> exists|h: int|
            0 <= h < hollows.len() && (#[trigger] hollows[h]).cells@.contains(x as u32)
}

/// `spill` is the level every cell of a strip `w` cells across, `count` cells in all, would
/// stand at when water rises from its edge.
pub open spec fn is_spill(w: int, count: int, ground: Seq<u64>, spill: Seq<u64>) -> bool {
    &&& spill.len() == count
    &&& forall|x: int| 0 <= x < count && on_edge(w, count, x) ==> #[trigger] spill[x] == ground[x]
    &&& forall|path: Seq<u32>|
        #[trigger] is_edge_way(w, count, path) ==> spill[path.last() as int] <= way_top(ground, path, ground[path[0] as int])
    &&& forall|x: int| 0 <= x < count && !on_edge(w, count, x) ==> #[trigger] edge_way_to(w, count, ground, x, spill[x])
}

/// The hollows of a strip whose cells spill at `spill`, as `splits_into` says.
pub fn group_hollows(cells_across: usize, steps: usize, ground_key: &Vec<u64>, spill: &Vec<u64>) -> (hollows: Vec<PondCells>)
    requires
        cells_across * steps <= u32::MAX,
        ground_key@.len() == cells_across * steps,
        spill@.len() == cells_across * steps,
    ensures
        splits_into(cells_across as int, steps as int, ground_key@, spill@, hollows@),
{
    let n = cells_across * steps;
    if cells_across == 0 {
        return Vec::new();
    }
    let ghost wet = under_water(ground_key@, spill@);
    let grid = strip_grid(cells_across, steps);
    proof {
        lemma_connected_on_grid(cells_across as int, n as int, grid.rows(), wet, spill@);
    }
    let mut member: Vec<bool> = Vec::new();
    let mut i: usize = 0;
    while i < n
        invariant
            i <= n,
            ground_key@.len() == n,
            spill@.len() == n,
            wet == under_water(ground_key@, spill@),
            member@ == wet.take(i as int),
        decreases n - i,
    {
        member.push(spill[i] > ground_key[i]);
        proof {
            assert(member@ =~= wet.take(i + 1));
        }
        i += 1;
    }
    proof {
        assert(member@ =~= wet);
    }
    let comps = components(&grid, &member, spill);
    let count = comps.firsts.len();
    proof {
        assert(count <= n) by {
            assert forall|g: int| 0 <= g < count implies #[trigger] comps.firsts@[g] >= g by {
                lemma_ascending_at_least(comps.firsts@, g);
            }
            if count > 0 {
                assert(comps.firsts@[count - 1] >= count - 1);
            }
        }
    }
    let mut lists = group_lists(&comps.label, count);
    let mut hollows: Vec<PondCells> = Vec::new();
    let mut g: usize = 0;
    while g < count
        invariant
            g <= count,
            cells_across >= 1,
            n == cells_across * steps,
            n <= u32::MAX,
            count == comps.firsts@.len(),
            wet == under_water(ground_key@, spill@),
            wet.len() == n,
            ground_key@.len() == n,
            spill@.len() == n,
            comps.label@.len() == n,
            forall|x: int| 0 <= x < n ==> (#[trigger] comps.label@[x] == NO_COMPONENT <==> !wet[x]),
            forall|x: int| 0 <= x < n && wet[x] ==> #[trigger] comps.label@[x] < comps.firsts@.len(),
            forall|a: int, b: int| 0 <= a < b < comps.firsts@.len() ==> #[trigger] comps.firsts@[a] < #[trigger] comps.firsts@[b],
            forall|c: int| 0 <= c < comps.firsts@.len() ==> #[trigger] comps.firsts@[c] < n
                && comps.label@[comps.firsts@[c] as int] == c,
            forall|x: int| 0 <= x < n && wet[x] ==> comps.firsts@[#[trigger] comps.label@[x] as int] <= x,
            lists@.len() == count,
            forall|c: int| g <= c < count ==> lists_group((#[trigger] lists@[c])@, comps.label@, c, n as int),
            hollows@.len() == g,
            forall|h: int|
                0 <= h < g ==> {
                    let m = (#[trigger] hollows@[h]).cells@;
                    &&& lists_group(m, comps.label@, h, n as int)
                    &&& is_floor(m, ground_key@, hollows@[h].anchor)
                    &&& hollows@[h].level_key == spill@[comps.firsts@[h] as int]
                    &&& hollows@[h].touches_side == cells_near_side(m, cells_across as int)
                    &&& hollows@[h].touches_end == cells_near_end(m, cells_across as int, steps as int)
                },
        decreases count - g,
    {
        let mut cells: Vec<u32> = Vec::new();
        let ghost before = lists@;
        std::mem::swap(&mut cells, &mut lists[g]);
        proof {
            assert(cells@ == before[g as int]@);
            assert forall|c: int| g + 1 <= c < count implies lists_group((#[trigger] lists@[c])@, comps.label@, c, n as int) by {
                assert(lists@[c] == before[c]);
            }
            let f = comps.firsts@[g as int];
            assert(cells@.contains(f));
        }
        let level = spill[comps.firsts[g] as usize];
        let pond = pond_of(cells, cells_across, steps, ground_key, level);
        hollows.push(pond);
        g += 1;
    }
    proof {
        assert forall|h: int| 0 <= h < hollows@.len() implies {
            let m = (#[trigger] hollows@[h]).cells@;
            &&& m.len() > 0
            &&& ascending(m)
            &&& forall|k: int| 0 <= k < m.len() ==> #[trigger] m[k] < n
            &&& forall|x: int|
                0 <= x < n ==> (m.contains(x as u32) <==> wet[x] && grid_connected(
                    cells_across as int,
                    n as int,
                    wet,
                    spill@,
                    m[0] as int,
                    x,
                ))
            &&& is_floor(m, ground_key@, hollows@[h].anchor)
            &&& hollows@[h].level_key == spill@[m[0] as int]
            &&& hollows@[h].touches_side == cells_near_side(m, cells_across as int)
            &&& hollows@[h].touches_end == cells_near_end(m, cells_across as int, steps as int)
        } by {
            let m = hollows@[h].cells@;
            let f = comps.firsts@[h];
            assert(m.contains(f));
            lemma_first_is_least(m, comps.label@, h, n as int, f);
            assert(m[0] == f);
            assert forall|x: int| 0 <= x < n implies (m.contains(x as u32) <==> wet[x] && grid_connected(
                cells_across as int,
                n as int,
                wet,
                spill@,
                m[0] as int,
                x,
            )) by {
                if m.contains(x as u32) {
                    let k = choose|k: int| 0 <= k < m.len() && m[k] == x as u32;
                    assert(comps.label@[m[k] as int] == h);
                    assert(connected(grid.rows(), wet, spill@, f as int, x));
                }
                if wet[x] && grid_connected(cells_across as int, n as int, wet, spill@, m[0] as int, x) {
                    assert(connected(grid.rows(), wet, spill@, f as int, x));
                    assert(comps.label@[f as int] == comps.label@[x]);
                }
            }
        }
        assert forall|a: int, b: int| 0 <= a < b < hollows@.len() implies (#[trigger] hollows@[a]).cells@[0]
            < (#[trigger] hollows@[b]).cells@[0] by {
            lemma_first_is_least(hollows@[a].cells@, comps.label@, a, n as int, comps.firsts@[a]);
            lemma_first_is_least(hollows@[b].cells@, comps.label@, b, n as int, comps.firsts@[b]);
        }
        assert forall|x: int| 0 <= x < n && wet[x] implies exists|h: int| 0 <= h < hollows@.len()
            && (#[trigger] hollows@[h]).cells@.contains(x as u32) by {
            let c = comps.label@[x] as int;
            assert(hollows@[c].cells@.contains(x as u32));
        }
        assert(splits_into(cells_across as int, steps as int, ground_key@, spill@, hollows@));
    }
    hollows
}

/// The hollows of a strip, found where water would stand when it rises from the strip's edge.
pub fn hollows_in(cells_across: usize, steps: usize, ground_key: &Vec<u64>) -> (hollows: Vec<PondCells>)
    requires
        cells_across * steps <= u32::MAX,
        ground_key@.len() == cells_across * steps,
    ensures
        exists|spill: Seq<u64>|
            #[trigger] is_spill(cells_across as int, cells_across * steps, ground_key@, spill) && splits_into(
                cells_across as int,
                steps as int,
                ground_key@,
                spill,
                hollows@,
            ),
{
    let spill = spill_levels(cells_across, steps, ground_key);
    let hollows = group_hollows(cells_across, steps, ground_key, &spill);
    proof {
        assert(is_spill(cells_across as int, cells_across * steps, ground_key@, spill@));
    }
    hollows
}

/// Water stands level in a hollow: every cell of a hollow is under water, and spills at the
/// hollow's level.
pub proof fn lemma_a_hollow_stands_level(
    w: int,
    steps: int,
    ground: Seq<u64>,
    spill: Seq<u64>,
    hollows: Seq<PondCells>,
    h: int,
    k: int,
)
    requires
        spill.len() == w * steps,
        splits_into(w, steps, ground, spill, hollows),
        0 <= h < hollows.len(),
        0 <= k < hollows[h].cells@.len(),
    ensures
        spill[hollows[h].cells@[k] as int] == hollows[h].level_key,
        spill[hollows[h].cells@[k] as int] > ground[hollows[h].cells@[k] as int],
{
    let m = hollows[h].cells@;
    let x = m[k] as int;
    let wet = under_water(ground, spill);
    assert(m.contains(m[k]));
    assert(0 <= x < w * steps);
    assert(wet[x] && grid_connected(w, w * steps, wet, spill, m[0] as int, x));
    let path = choose|path: Seq<u32>| #[trigger] is_grid_path(w, w * steps, wet, spill, path) && path[0] == m[0] as int && path.last() == x;
    lemma_grid_path_keeps_its_key(w, w * steps, wet, spill, path, path.len() - 1);
}

/// Along a bonded walk the key never changes.
proof fn lemma_grid_path_keeps_its_key(w: int, count: int, member: Seq<bool>, key: Seq<u64>, path: Seq<u32>, j: int)
    requires
        is_grid_path(w, count, member, key, path),
        0 <= j < path.len(),
    ensures
        key[path[j] as int] == key[path[0] as int],
    decreases j,
{
    if j > 0 {
        lemma_grid_path_keeps_its_key(w, count, member, key, path, j - 1);
        assert(grid_bond(w, count, member, key, path[j - 1] as int, path[j] as int));
    }
}

} // verus!
