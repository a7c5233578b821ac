use worldbuilder_engine::components::{NO_COMPONENT, Water, components, label_water, largest_group};
use worldbuilder_engine::drainage::NO_NODE;
use worldbuilder_engine::flood::{DATUM_KEY, Flood, flood, ocean_seeds};
use worldbuilder_engine::graph::LandGraph;
use worldbuilder_engine::keys::{sortable_bits, unsortable_bits};

fn key(value: f64) -> u64 {
    sortable_bits(value.to_bits())
}

fn metres(key: u64) -> f64 {
    f64::from_bits(unsortable_bits(key))
}

fn chain(n: usize) -> Vec<Vec<u32>> {
    (0..n as u32)
        .map(|i| {
            let mut v = Vec::new();
            if i > 0 {
                v.push(i - 1);
            }
            if (i as usize) + 1 < n {
                v.push(i + 1);
            }
            v
        })
        .collect()
}

fn water_of(graph: &LandGraph, heights: &[f64], areas: &[f64]) -> Water {
    let below: Vec<bool> = heights.iter().map(|h| *h <= 0.0).collect();
    let groups = components(graph, &below, &vec![0u64; heights.len()]);
    let mut area = vec![0.0f64; groups.firsts.len()];
    for (i, &g) in groups.label.iter().enumerate() {
        if g != NO_COMPONENT {
            area[g as usize] += areas[i];
        }
    }
    let keys: Vec<u64> = area.iter().map(|a| key(*a)).collect();
    label_water(&groups.label, groups.firsts.len() as u32, largest_group(&keys).unwrap_or(0))
}

struct World {
    graph: LandGraph,
    heights: Vec<u64>,
    water: Water,
}

fn world(heights: &[f64], directed: &Vec<Vec<u32>>) -> World {
    let n = heights.len();
    let graph = LandGraph::from_parts(n, directed);
    let water = water_of(&graph, heights, &vec![1.0e6; n]);
    World { graph, heights: heights.iter().map(|h| key(*h)).collect(), water }
}

fn flood_all(w: &World, allowed: &[bool]) -> Flood {
    flood(&w.graph, &w.heights, &ocean_seeds(&w.water.ocean), &allowed.to_vec())
}

#[test]
fn a_pit_fills_to_its_lowest_way_out() {
    // Below-datum water at both ends; the right-hand pair is the larger, so it is the ocean
    // and node 0 is an enclosed pocket. The pit at node 2 can only reach the ocean over
    // node 3 (30 m), not over node 1 (50 m).
    let g = world(&[-10.0, 50.0, 10.0, 30.0, -20.0, -30.0], &chain(6));
    assert!(g.water.ocean[4] && g.water.ocean[5] && !g.water.ocean[0]);
    let f = flood_all(&g, &[true; 6]);
    assert_eq!(metres(f.spill_key[2]), 30.0, "the pit spills over the 30 m rim");
    assert_eq!(metres(f.spill_key[3]), 30.0);
    assert_eq!(f.parent[2], 3, "the pit is reached over its lowest rim");
}

#[test]
fn allowed_confines_the_flood() {
    let g = world(&[-10.0, 5.0, 6.0, 7.0, 8.0, 9.0], &chain(6));
    let allowed: Vec<bool> = (0..6).map(|n| n <= 2).collect();
    let f = flood_all(&g, &allowed);
    assert!(f.reached[2]);
    assert!(!f.reached[3]);
}

/// A 5x5 lattice, 4-neighbour adjacency. `(0,0)` is the only below-datum node (the ocean).
/// `(0,1)` is a single rim node the ocean touches, at 31 m. Everything else is a 30 m flat,
/// except a staircase of nodes running from the far corner `(4,4)` to `(1,1)` at 29 m -- a
/// valley one metre below the flat it crosses.
fn grid_with_a_diagonal_valley() -> World {
    let rows = 5usize;
    let cols = 5usize;
    let n = rows * cols;
    let idx = |r: usize, c: usize| -> u32 { (r * cols + c) as u32 };
    let mut height_m = vec![30.0; n];
    height_m[idx(0, 0) as usize] = -10.0;
    height_m[idx(0, 1) as usize] = 31.0;
    let valley = [(4, 4), (3, 4), (3, 3), (2, 3), (2, 2), (1, 2), (1, 1)];
    for &(r, c) in &valley {
        height_m[idx(r, c) as usize] = 29.0;
    }
    let mut directed: Vec<Vec<u32>> = vec![Vec::new(); n];
    for r in 0..rows {
        for c in 0..cols {
            let mut neighbours = Vec::new();
            if r > 0 {
                neighbours.push(idx(r - 1, c));
            }
            if r + 1 < rows {
                neighbours.push(idx(r + 1, c));
            }
            if c > 0 {
                neighbours.push(idx(r, c - 1));
            }
            if c + 1 < cols {
                neighbours.push(idx(r, c + 1));
            }
            directed[idx(r, c) as usize] = neighbours;
        }
    }
    // The ocean touches a single rim node, (0,1). Cut its edge to (1,0).
    let ocean = idx(0, 0) as usize;
    let south = idx(1, 0);
    directed[ocean].retain(|&x| x != south);
    directed[south as usize].retain(|&x| x != idx(0, 0));
    world(&height_m, &directed)
}

#[test]
fn inside_a_flat_the_flood_follows_the_low_ground() {
    let g = grid_with_a_diagonal_valley();
    assert!(g.water.ocean[0], "the corner is the only below-datum node");
    let f = flood_all(&g, &[true; 25]);
    let valley: [u32; 7] = [24, 19, 18, 13, 12, 7, 6];
    let rim = 1u32;
    let mut here = 24u32;
    let mut steps = 0;
    loop {
        let parent = f.parent[here as usize];
        steps += 1;
        assert!(steps < 25, "cycle in the parent chain");
        if parent == rim {
            break;
        }
        assert!(valley.contains(&parent), "expected the flood to follow the valley floor, found node {parent}");
        here = parent;
    }
    assert_eq!(f.parent[rim as usize], 0, "the rim's parent is the ocean");
}

#[test]
fn every_reached_node_leads_back_to_a_seed_through_non_increasing_spill() {
    let g = grid_with_a_diagonal_valley();
    let f = flood_all(&g, &[true; 25]);
    for &node in &f.order {
        let mut here = node;
        let mut steps = 0;
        while f.parent[here as usize] != NO_NODE {
            let up = f.parent[here as usize];
            assert!(f.spill_key[up as usize] <= f.spill_key[here as usize]);
            here = up;
            steps += 1;
            assert!(steps < 25, "a cycle");
        }
        assert!(g.water.ocean[here as usize], "chain from {node} ends at a seed");
    }
}

#[test]
fn the_flood_is_the_same_run_to_run() {
    let g = grid_with_a_diagonal_valley();
    let a = flood_all(&g, &[true; 25]);
    let b = flood_all(&g, &[true; 25]);
    assert_eq!(a.order, b.order);
    assert_eq!(a.parent, b.parent);
    assert_eq!(a.spill_key, b.spill_key);
}

#[test]
fn ocean_seeds_stand_at_the_datum_in_node_order() {
    let seeds = ocean_seeds(&vec![false, true, false, true]);
    assert_eq!(seeds, vec![(1, DATUM_KEY), (3, DATUM_KEY)]);
    assert_eq!(metres(DATUM_KEY).to_bits(), 0.0f64.to_bits());
}

#[test]
fn the_order_skips_the_seeds_and_never_falls() {
    let g = world(&[-10.0, 50.0, 10.0, 30.0, -20.0, -30.0], &chain(6));
    let f = flood_all(&g, &[true; 6]);
    assert!(!f.order.contains(&4) && !f.order.contains(&5));
    for pair in f.order.windows(2) {
        assert!(f.spill_key[pair[0] as usize] <= f.spill_key[pair[1] as usize]);
    }
}
