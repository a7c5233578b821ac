use worldbuilder_engine::assemble::{LakeMeasure, assemble_record};
use worldbuilder_engine::bake::{bake_core, judge_all, kept_of, refuse_undrained, unblocked};
use worldbuilder_engine::channels::extract_drained;
use worldbuilder_engine::components::{NO_COMPONENT, Water, components, label_water, largest_group};
use worldbuilder_engine::drainage::{NO_LAKE, NO_NODE};
use worldbuilder_engine::flood::{DATUM_KEY, Flood, flood, ocean_seeds};
use worldbuilder_engine::graph::LandGraph;
use worldbuilder_engine::heap::FloodQueue;
use worldbuilder_engine::hollows::{HollowShape, find_hollows, floor_of, forced_nodes, hits_forced};
use worldbuilder_engine::hydro::{BodyKind, HydroError};
use worldbuilder_engine::keys::{sortable_bits, unsortable_bits};
use worldbuilder_engine::lakes::{basins_closed, basins_to_open, forced_lakes, lakes_to_seal};
use worldbuilder_engine::counts::bake_counts;
use worldbuilder_engine::reaches::{Downstream, Reach, ReachClass};
use worldbuilder_engine::extent::shore_of;
use worldbuilder_engine::routing::{Routing, capped_pools, lake_surfaces, open_outlet, route, seal, shore_parents, shore_pools};

fn key_of(value: f64) -> u64 {
    sortable_bits(value.to_bits())
}

fn line_graph(n: usize) -> LandGraph {
    let directed: Vec<Vec<u32>> = (0..n as u32)
        .map(|i| {
            let mut v = Vec::new();
            if i > 0 {
                v.push(i - 1);
            }
            if (i as usize) + 1 < n {
                v.push(i + 1);
            }
            v
        })
        .collect();
    LandGraph::from_parts(n, &directed)
}

fn water_on(graph: &LandGraph, heights: &[f64], area: f64) -> Water {
    let below: Vec<bool> = heights.iter().map(|h| *h <= 0.0).collect();
    let groups = components(graph, &below, &vec![0u64; heights.len()]);
    let mut sums = vec![0.0f64; groups.firsts.len()];
    for &g in groups.label.iter() {
        if g != NO_COMPONENT {
            sums[g as usize] += area;
        }
    }
    let keys: Vec<u64> = sums.iter().map(|a| key_of(*a)).collect();
    label_water(&groups.label, groups.firsts.len() as u32, largest_group(&keys).unwrap_or(0))
}

/// A line of nodes, evenly spaced, flooded from its ocean, its hollows judged by the usual keep
/// rule (8 m deep and 1 km^2 wide), routed by the core.
struct Routed {
    graph: LandGraph,
    water: Water,
    keys: Vec<u64>,
    flood: Flood,
    shapes: Vec<HollowShape>,
    deep_and_wide: Vec<bool>,
    over_cap: Vec<bool>,
    nested: Vec<HollowShape>,
    nested_levels: Vec<u64>,
    nested_deep_and_wide: Vec<bool>,
    nested_over_cap: Vec<bool>,
    nested_blocked: Vec<bool>,
    shore_count: usize,
    capped: Vec<bool>,
}

fn prepared(heights: &[f64], area: f64) -> Routed {
    prepared_with(heights, area, 4.0e11)
}

/// The measures of a hollow of `members` standing at `level`: deep and wide enough to keep,
/// and over `cap`.
fn measured(heights: &[f64], members: &[u32], floor: u32, level: f64, area: f64, cap: f64) -> (bool, bool) {
    let depth = level - heights[floor as usize];
    let wide = members.len() as f64 * area;
    (depth >= 8.0 && wide >= 1.0e6, wide > cap)
}

/// As [`prepared`], with `cap` the largest area a hollow may keep.
fn prepared_with(heights: &[f64], area: f64, cap: f64) -> Routed {
    prepared_on(line_graph(heights.len()), heights, area, cap)
}

/// As [`prepared_with`], on `graph`.
fn prepared_on(graph: LandGraph, heights: &[f64], area: f64, cap: f64) -> Routed {
    let n = heights.len();
    let water = water_on(&graph, heights, area);
    let keys: Vec<u64> = heights.iter().map(|h| key_of(*h)).collect();
    let flood = flood(&graph, &keys, &ocean_seeds(&water.ocean), &vec![true; n]);
    let shapes = find_hollows(&graph, &water.ocean, &water.enclosed, &keys, &flood);
    let mut deep_and_wide = Vec::new();
    let mut over_cap = Vec::new();
    for s in &shapes {
        let floor_m = heights[s.floor as usize];
        let (depth, wide) = if s.enclosed {
            let below = s.members.iter().filter(|&&m| heights[m as usize] <= 0.0).count() as f64 * area;
            (0.0 - floor_m, below)
        } else {
            let level = f64::from_bits(unsortable_bits(flood.spill_key[s.members[0] as usize]));
            (level - floor_m, s.members.len() as f64 * area)
        };
        deep_and_wide.push(depth >= 8.0 && wide >= 1.0e6);
        over_cap.push(wide > cap);
    }
    let verdicts = judge_all(&shapes, &forced_nodes(&Vec::new()), &deep_and_wide, &over_cap);
    let kept = kept_of(&verdicts);
    let mut capped: Vec<bool> = verdicts.iter().map(|v| v.capped).collect();
    let mut nested: Vec<HollowShape> = Vec::new();
    let mut nested_levels: Vec<u64> = Vec::new();
    for sub in shore_pools(&graph, &water.ocean, &water.enclosed, &keys, &shapes, &kept) {
        nested.extend(sub.pools);
        nested_levels.extend(sub.levels);
    }
    let mut nested_deep_and_wide = Vec::new();
    let mut nested_over_cap = Vec::new();
    for (s, &level) in nested.iter().zip(nested_levels.iter()) {
        let (dw, oc) = measured(heights, &s.members, s.floor, f64::from_bits(unsortable_bits(level)), area, cap);
        nested_deep_and_wide.push(dw);
        nested_over_cap.push(oc);
    }
    let shore_count = nested.len();
    let shore_verdicts = judge_all(&nested, &forced_nodes(&Vec::new()), &nested_deep_and_wide, &nested_over_cap);
    capped.extend(shore_verdicts.iter().map(|v| v.capped));
    let mut joined = find_hollows(&graph, &water.ocean, &water.enclosed, &keys, &flood);
    for sub in shore_pools(&graph, &water.ocean, &water.enclosed, &keys, &shapes, &kept) {
        joined.extend(sub.pools);
    }
    let (tree, _) = shore_parents(&graph, &keys, &shapes, &kept, &flood.parent);
    let mut inner: Vec<HollowShape> = Vec::new();
    let mut inner_levels: Vec<u64> = Vec::new();
    let mut inner_blocked: Vec<bool> = Vec::new();
    for sub in capped_pools(&graph, &water.ocean, &water.enclosed, &keys, &tree, &joined, &capped) {
        inner.extend(sub.basin.pools);
        inner_levels.extend(sub.basin.levels);
        inner_blocked.extend(sub.blocked);
    }
    for (s, &level) in inner.iter().zip(inner_levels.iter()) {
        let (dw, oc) = measured(heights, &s.members, s.floor, f64::from_bits(unsortable_bits(level)), area, cap);
        nested_deep_and_wide.push(dw);
        nested_over_cap.push(oc);
    }
    let mut nested_blocked = vec![false; shore_count];
    nested_blocked.extend(inner_blocked);
    capped.extend(inner.iter().map(|_| false));
    nested.extend(inner);
    nested_levels.extend(inner_levels);
    Routed { graph, water, keys, flood, shapes, deep_and_wide, over_cap, nested, nested_levels, nested_deep_and_wide,
             nested_over_cap, nested_blocked, shore_count, capped }
}

fn nested_kept(p: &Routed) -> Vec<bool> {
    let judged = kept_of(&judge_all(&p.nested, &forced_nodes(&Vec::new()), &p.nested_deep_and_wide, &p.nested_over_cap));
    unblocked(&judged, &p.nested_blocked)
}

/// The steepest strictly lower neighbour on the lake surfaces, nodes evenly spaced.
fn steepest_on(p: &Routed) -> Vec<u32> {
    let verdicts = judge_all(&p.shapes, &forced_nodes(&Vec::new()), &p.deep_and_wide, &p.over_cap);
    let kept = kept_of(&verdicts);
    let (_, _, surface) = lake_surfaces(&p.water.ocean, &p.water.enclosed, &p.keys, &p.flood, &p.shapes, &kept, &p.nested,
                                        &p.nested_levels, &nested_kept(p));
    let height: Vec<f64> = surface.iter().map(|&k| f64::from_bits(unsortable_bits(k))).collect();
    (0..height.len() as u32)
        .map(|node| {
            let mut best = NO_NODE;
            let mut best_drop = 0.0;
            for &next in p.graph.neighbours(node) {
                let drop = height[node as usize] - height[next as usize];
                if drop > 0.0 && (best == NO_NODE || drop > best_drop) {
                    best = next;
                    best_drop = drop;
                }
            }
            best
        })
        .collect()
}

fn baked(heights: &[f64], area: f64) -> (Routed, Routing) {
    baked_with(heights, area, 4.0e11)
}

fn baked_with(heights: &[f64], area: f64, cap: f64) -> (Routed, Routing) {
    baked_on(line_graph(heights.len()), heights, area, cap)
}

fn baked_on(graph: LandGraph, heights: &[f64], area: f64, cap: f64) -> (Routed, Routing) {
    let p = prepared_on(graph, heights, area, cap);
    let steep = steepest_on(&p);
    let r = bake_core(&p.graph, &p.water.ocean, &p.water.enclosed, &p.keys, &p.flood, &p.shapes, &forced_nodes(&Vec::new()),
                      &p.deep_and_wide, &p.over_cap, &p.nested, &p.nested_levels, &p.nested_deep_and_wide,
                      &p.nested_over_cap, &p.nested_blocked, p.shore_count, &steep)
        .expect("everything drains");
    (p, r)
}

fn end_of(r: &Routing, node: u32) -> u32 {
    let mut here = node;
    let mut steps = 0;
    while r.receiver[here as usize] != NO_NODE {
        here = r.receiver[here as usize];
        steps += 1;
        assert!(steps < 10_000, "a cycle");
    }
    here
}

#[test]
fn a_notched_hollow_drains_and_its_route_only_falls() {
    let (_, r) = baked(&[-50.0, 30.0, 26.0, 27.0, 28.0, 70.0], 2.0e6);
    assert_eq!(end_of(&r, 2), 0, "the notched pit drains to the ocean");
    assert_eq!(r.cuts.len(), 1);
    assert_eq!(r.cuts[0], vec![2, 1], "the pit is cut out along its parent, over the rim");
    assert!(r.committed[2] && r.committed[1], "the cut steps from the pit and from the rim");
}

#[test]
fn a_kept_lake_flows_out_through_its_outlet() {
    let (_, r) = baked(&[-50.0, 40.0, 5.0, 12.0, 25.0, 70.0], 2.0e6);
    assert_eq!(r.lake_of[2], 0);
    assert_eq!(r.surface_key[2], key_of(40.0));
    assert_eq!(end_of(&r, 3), 0, "lake water leaves over the outlet and reaches the sea");
    assert_eq!(r.lakes[0].outlet, 1);
    assert!(r.cuts.is_empty(), "a kept lake above the datum needs no cut");
}

#[test]
fn an_enclosed_basin_is_a_sink_until_judged_fresh() {
    let (_, r) = baked(&[-50.0, -40.0, -30.0, 39.0, -5.0, 10.0, 60.0], 1.0e6);
    assert_eq!(r.surface_key[4], DATUM_KEY);
    assert_eq!(end_of(&r, 5), 4, "the shore above the datum drains into the basin");
    assert_eq!(r.receiver[4], NO_NODE);
}

#[test]
fn every_below_datum_pocket_is_its_own_lake() {
    let (p, r) = baked(&[60.0, -5.0, 5.0, -5.0, 39.0, -30.0, -40.0, -50.0], 1.0e6);
    assert_ne!(r.lake_of[1], NO_LAKE, "node 1's pocket is a lake");
    assert_ne!(r.lake_of[3], NO_LAKE, "node 3's pocket is a lake");
    assert_ne!(r.lake_of[1], r.lake_of[3], "the two pockets are different lakes");
    for node in 0..p.graph.len() as u32 {
        if p.water.ocean[node as usize] {
            continue;
        }
        let end = end_of(&r, node);
        assert!(p.water.ocean[end as usize] || r.lake_of[end as usize] != NO_LAKE, "node {node} ends at {end}");
    }
    for (l, lake) in r.lakes.iter().enumerate().filter(|(_, l)| l.kept && l.enclosed) {
        assert_eq!(r.outlets[l][0], lake.entry, "each pocket lake's outlet_path starts at its own lake_entry");
    }
}

#[test]
fn the_enclosed_fixture_has_exactly_one_lake() {
    let (_, r) = baked(&[-50.0, -40.0, -30.0, 39.0, -5.0, 10.0, 60.0], 1.0e6);
    let kept_enclosed: Vec<_> = r.lakes.iter().filter(|l| l.kept && l.enclosed).collect();
    assert_eq!(kept_enclosed.len(), 1, "exactly one enclosed lake");
    assert_eq!(kept_enclosed[0].entry, 4);
    let l = r.lakes.iter().position(|l| l.kept && l.enclosed).expect("the pocket");
    assert_eq!(r.outlets[l], vec![4, 3]);
}

/// The shore pool at node 4 (20 m, deep and wide enough to keep) sits on the pocket's way out
/// `[6, 5, 4, 3, 2]`, so it is notched, not kept.
#[test]
fn a_shore_lake_on_a_pockets_outlet_path_is_notched() {
    let (p, r) = baked(&[-50.0, -40.0, 39.0, 30.0, 5.0, 20.0, -5.0, 60.0], 1.0e6);
    let pocket = r.lakes.iter().position(|l| l.kept && l.enclosed).expect("the pocket");
    assert_eq!(r.outlets[pocket], vec![6, 5, 4, 3, 2]);
    let shore = (0..r.hollows.len()).find(|&h| !r.hollows[h].enclosed && r.hollows[h].members == vec![4]).expect("the nested shore pool");
    assert!(shore >= p.shapes.len(), "found on the basin's shore, after the hollows");
    let i = shore - p.shapes.len();
    assert!(p.nested_deep_and_wide[i] && !p.nested_over_cap[i], "sanity: the keep rule alone would keep it");
    assert!(nested_kept(&p)[i], "the judge keeps it");
    assert!(!r.lakes[shore].kept, "the way out notches it");
    assert_eq!(r.lake_of[4], NO_LAKE);
    assert_eq!(end_of(&r, 4), 6, "the notched pool drains into the pocket");
}

#[test]
fn a_routing_that_loops_is_refused_at_its_lowest_node() {
    // Ocean, then two land nodes that each name the other as lowest: the water cycles.
    let p = prepared(&[-50.0, 10.0, 20.0, 30.0], 1.0e6);
    let steep = vec![NO_NODE, 2, 1, 2];
    let r = bake_core(&p.graph, &p.water.ocean, &p.water.enclosed, &p.keys, &p.flood, &p.shapes, &forced_nodes(&Vec::new()),
                      &p.deep_and_wide, &p.over_cap, &p.nested, &p.nested_levels, &p.nested_deep_and_wide,
                      &p.nested_over_cap, &p.nested_blocked, p.shore_count, &steep);
    assert!(matches!(r, Err(HydroError::Drainage(1))), "{:?}", r.as_ref().err());
}

#[test]
fn route_and_bake_core_agree_on_a_drained_world() {
    let p = prepared(&[-50.0, 40.0, 5.0, 12.0, 25.0, 70.0], 2.0e6);
    let steep = steepest_on(&p);
    let kept = kept_of(&judge_all(&p.shapes, &forced_nodes(&Vec::new()), &p.deep_and_wide, &p.over_cap));
    let routed = route(&p.graph, &p.water.ocean, &p.water.enclosed, &p.keys, &p.flood, &p.shapes, &kept, &p.nested,
                       &p.nested_levels, &nested_kept(&p), &p.capped, &steep);
    let (_, baked_routing) = baked(&[-50.0, 40.0, 5.0, 12.0, 25.0, 70.0], 2.0e6);
    assert_eq!(routed.receiver, baked_routing.receiver);
    assert_eq!(routed.lake_of, baked_routing.lake_of);
}

#[test]
fn extract_drained_refuses_a_cycle_and_cuts_nothing() {
    let ocean = vec![true, false, false];
    let receiver = vec![NO_NODE, 2, 1];
    let lake_of = vec![NO_LAKE; 3];
    let flow = vec![0u64, key_of(5.0e7), key_of(5.0e7)];
    let r = extract_drained(&ocean, &receiver, &lake_of, &flow, key_of(1.0e7), key_of(1.0e8), key_of(1.0e9));
    assert!(matches!(r, Err(1)));
    let receiver = vec![NO_NODE, 0, 1];
    let r = extract_drained(&ocean, &receiver, &lake_of, &flow, key_of(1.0e7), key_of(1.0e8), key_of(1.0e9)).expect("drains");
    assert_eq!(r.len(), 1);
    assert_eq!(r[0].nodes[0], 2);
    assert_eq!(r[0].downstream, Downstream::Ocean);
}

#[test]
fn a_kept_lake_becomes_body_zero_and_drains_to_the_sea() {
    let (p, r) = baked(&[-50.0, 40.0, 5.0, 12.0, 25.0, 70.0], 2.0e6);
    let lakes = r.lakes.len();
    let measure = LakeMeasure {
        level_m: 40.0f64.to_bits(),
        area_m2: 6.0e6f64.to_bits(),
        depth_m: 35.0f64.to_bits(),
        anchor: (1.0f64.to_bits(), 2.0f64.to_bits()),
        small: false,
        forced: false,
        shore_reach_m: 55.5f64.to_bits(),
    };
    let lat: Vec<u64> = (0..p.graph.len() as u64).collect();
    let lon: Vec<u64> = (0..p.graph.len() as u64).map(|x| 100 + x).collect();
    let a = assemble_record(&p.graph, &p.water.ocean, &r.receiver, &r.lake_of, &r.lakes, &Vec::new(), &Vec::new(),
                            &vec![false; lakes], &vec![false; lakes], &vec![measure; lakes], &Vec::new(), &Vec::new(),
                            &vec![false; p.graph.len()], &p.keys, &lat, &lon);
    assert_eq!(a.bodies.len(), 1);
    assert_eq!(a.kept, 1);
    assert_eq!(a.notched, 0);
    let body = &a.bodies[0];
    assert_eq!(body.id, 0);
    assert_eq!(body.kind, BodyKind::Lake);
    assert!(body.fresh);
    assert_eq!(body.outlet_reach, None);
    assert_eq!(body.downstream, Downstream::Ocean);
    assert_eq!(body.level_m, 40.0f64.to_bits());
    assert_eq!(body.shore_member_count, 2, "nodes 2 and 4 have a neighbour off the lake");
    assert_eq!(body.outline, vec![(2, 102), (4, 104), (1, 101), (5, 105)], "the shore members, then the collar");
    assert_eq!(body.shore_reach_m, 55.5f64.to_bits());
}

#[test]
fn a_closed_salty_lake_is_a_salt_flat_that_drains_nowhere() {
    let (p, r) = baked(&[-50.0, 40.0, 5.0, 12.0, 25.0, 70.0], 2.0e6);
    let lakes = r.lakes.len();
    let measure = LakeMeasure { level_m: 0, area_m2: 0, depth_m: 0, anchor: (0, 0), small: true, forced: true, shore_reach_m: 0 };
    let zeros = vec![0u64; p.graph.len()];
    let a = assemble_record(&p.graph, &p.water.ocean, &r.receiver, &r.lake_of, &r.lakes, &Vec::new(), &Vec::new(),
                            &vec![true; lakes], &vec![true; lakes], &vec![measure; lakes], &Vec::new(), &Vec::new(),
                            &vec![false; p.graph.len()], &p.keys, &zeros, &zeros);
    assert_eq!(a.bodies[0].kind, BodyKind::SaltFlat);
    assert!(!a.bodies[0].fresh && a.bodies[0].forced);
    assert_eq!(a.bodies[0].downstream, Downstream::Sink);
}

#[test]
fn a_notch_line_splits_where_it_jumps_and_reaches_its_water() {
    let (p, r) = baked(&[-50.0, 30.0, 26.0, 27.0, 28.0, 70.0], 2.0e6);
    let lakes = r.lakes.len();
    let measure = LakeMeasure { level_m: 0, area_m2: 0, depth_m: 0, anchor: (0, 0), small: false, forced: false, shore_reach_m: 0 };
    // One outlet notch over nodes 2 and 4 (not neighbours), so its line starts again at 4.
    let deep = vec![true; p.graph.len()];
    let zeros = vec![0u64; p.graph.len()];
    let a = assemble_record(&p.graph, &p.water.ocean, &r.receiver, &r.lake_of, &r.lakes, &Vec::new(), &Vec::new(),
                            &vec![false; lakes], &vec![false; lakes], &vec![measure; lakes], &vec![vec![2, 4]],
                            &vec![Some(0)], &deep, &p.keys, &zeros, &zeros);
    assert_eq!(a.notches.len(), 1);
    let (nodes, starts) = &a.notches[0];
    assert_eq!(nodes, &vec![2, 4, r.receiver[4]]);
    assert_eq!(starts, &vec![0, 1]);
}

#[test]
fn a_queue_holds_pushes_minus_pops() {
    let mut q = FloodQueue::new();
    q.push(key_of(3.0), 1);
    q.push(key_of(1.0), 2);
    q.push_tied(key_of(2.0), key_of(0.0), 3);
    assert_eq!(q.len(), 3);
    assert!(q.pop().is_some());
    assert_eq!(q.len(), 2);
    q.push(key_of(5.0), 4);
    assert!(q.pop().is_some());
    assert!(q.pop().is_some());
    assert_eq!(q.len(), 1);
}

#[test]
fn the_shore_of_an_enclosed_basin_leads_down_into_it() {
    let (p, r) = baked(&[-50.0, -40.0, -30.0, 39.0, -5.0, 10.0, 60.0], 1.0e6);
    assert_eq!(p.flood.parent[5], 4, "the sea's flood reached the shore from the basin");
    assert_eq!(r.parent[5], 4, "and the shore's parent stays in the hollow, down into the basin");
    assert_eq!(r.parent[4], NO_NODE, "the basin's entry has no parent");
}

#[test]
fn a_fresh_basins_outlet_is_cut_up_the_shore_and_over_the_rim() {
    let (p, mut r) = baked(&[-50.0, -40.0, -30.0, 39.0, -5.0, 10.0, 60.0], 1.0e6);
    let l = r.lakes.iter().position(|lake| lake.kept && lake.enclosed).expect("the pocket");
    let (path, taken, stopped, walked) = open_outlet(&mut r, &p.water.ocean, &p.flood.parent, l);
    assert_eq!(path, vec![4, 3], "the way out: the entry, then the rim, short of the sea");
    assert_eq!((taken, stopped), (1, false));
    assert!(walked.is_empty(), "past the rim the chain steps straight into the sea");
    assert_eq!(r.receiver[4], 3);
    assert_eq!(r.parent[4], 3);
    assert_eq!(r.receiver[3], 2);
    assert!(r.committed[4] && r.committed[3]);
    assert_eq!(end_of(&r, 5), 2, "the shore now drains through the basin to the sea");
    assert!(refuse_undrained(&p.water.ocean, r).is_ok());
}

#[test]
fn a_sealed_lake_keeps_its_water() {
    let (p, mut r) = baked(&[-50.0, 40.0, 5.0, 12.0, 25.0, 70.0], 2.0e6);
    seal(&mut r, 0);
    assert_eq!(r.receiver[2], NO_NODE);
    assert_eq!(end_of(&r, 3), 2, "the lake's water gathers at its entry");
    assert!(refuse_undrained(&p.water.ocean, r).is_ok(), "a closed lake's sink drains");
}

#[test]
fn seed_pockets_are_not_nested_hollows_and_nothing_loops() {
    let (p, r) = baked(&[60.0, 10.0, -12.0, -10.0, 39.0, -30.0, -40.0, -50.0], 1.0e6);
    for node in 0..p.graph.len() as u32 {
        if p.water.ocean[node as usize] {
            continue;
        }
        let end = end_of(&r, node);
        assert!(p.water.ocean[end as usize] || r.lake_of[end as usize] != NO_LAKE, "node {node} ends at {end}, neither sea nor lake");
    }
    assert_eq!(r.lakes.iter().filter(|l| l.kept && l.enclosed).count(), 1, "one basin, one pocket");
}

#[test]
fn a_notch_never_cuts_a_lake() {
    let (_, r) = baked(&[-50.0, 25.0, 12.0, 30.0, 24.0, 70.0], 2.0e6);
    for (l, lake) in r.lakes.iter().enumerate() {
        if !lake.kept {
            continue;
        }
        for &m in &lake.members {
            if r.lake_of[m as usize] == l as u32 {
                assert_eq!(r.surface_key[m as usize], lake.level_key, "a lake member stands at its level");
                assert!(!r.committed[m as usize], "no cut steps from a lake member");
            }
        }
    }
    assert_eq!(r.cuts, vec![vec![4, 3]], "the notched pit is cut to the lake and stops there");
    assert_eq!(end_of(&r, 4), 0);
}

#[test]
fn no_land_outside_a_lake_is_left_with_nowhere_to_go() {
    for heights in [
        vec![-50.0, 30.0, 26.0, 27.0, 28.0, 70.0],
        vec![-50.0, 25.0, 12.0, 30.0, 24.0, 70.0],
        vec![60.0, -5.0, 5.0, -5.0, 39.0, -30.0, -40.0, -50.0],
    ] {
        let (p, r) = baked(&heights, 2.0e6);
        for x in 0..p.graph.len() {
            let sink = r.lakes.iter().any(|l| l.kept && l.enclosed && l.entry as usize == x);
            if !p.water.ocean[x] && r.lake_of[x] == NO_LAKE && r.parent[x] != NO_NODE && !sink {
                assert_ne!(r.receiver[x], NO_NODE, "node {x} of {heights:?}");
            }
        }
    }
}

#[test]
fn the_extent_is_shore_members_then_collar() {
    let (p, r) = baked(&[-50.0, 40.0, 5.0, 12.0, 25.0, 70.0], 2.0e6);
    let lake = &r.lakes[0];
    let shore = shore_of(&p.graph, &r.lake_of, 0, &lake.members, &p.keys, lake.level_key);
    assert_eq!(shore.shore, vec![2, 4]);
    assert_eq!(shore.collar, vec![1, 5]);
    assert_eq!(shore.usable, vec![(4, 5)], "the rim at the lake's own level is no usable step");
}

#[test]
fn a_collar_at_or_below_the_level_is_not_usable() {
    let (p, r) = baked(&[-50.0, 40.0, 5.0, 12.0, 25.0, 70.0], 2.0e6);
    let lake = &r.lakes[0];
    let above = shore_of(&p.graph, &r.lake_of, 0, &lake.members, &p.keys, key_of(69.0));
    assert_eq!(above.usable, vec![(4, 5)]);
    let higher = shore_of(&p.graph, &r.lake_of, 0, &lake.members, &p.keys, key_of(70.0));
    assert!(higher.usable.is_empty(), "no collar node stands above 70 m");
    assert_eq!(higher.shore, vec![2, 4], "the shore does not depend on the level");
}

#[test]
fn a_pocket_has_a_shore_in_its_basin() {
    let (p, r) = baked(&[-50.0, -40.0, -30.0, 39.0, -5.0, 10.0, 60.0], 1.0e6);
    let l = r.lakes.iter().position(|lake| lake.kept && lake.enclosed).expect("the pocket");
    let shore = shore_of(&p.graph, &r.lake_of, l as u32, &r.lakes[l].members, &p.keys, r.lakes[l].level_key);
    assert_eq!(shore.shore, vec![4]);
    assert_eq!(shore.collar, vec![3, 5]);
    assert_eq!(shore.usable, vec![(4, 3), (4, 5)]);
}

#[test]
fn the_closure_opens_balanced_basins_and_seals_starving_lakes() {
    let (_, r) = baked(&[-50.0, -40.0, -30.0, 39.0, -5.0, 10.0, 60.0], 1.0e6);
    let count = r.lakes.len();
    let l = r.lakes.iter().position(|lake| lake.kept && lake.enclosed).expect("the pocket");
    let none = vec![false; count];
    let all = vec![true; count];
    assert_eq!(basins_to_open(&r.lakes, &none, &none, &all), vec![l]);
    assert!(basins_to_open(&r.lakes, &none, &none, &none).is_empty(), "an unbalanced basin stays shut");
    assert_eq!(basins_to_open(&r.lakes, &all, &none, &none), vec![l], "a forced basin opens");
    assert!(basins_to_open(&r.lakes, &all, &all, &all).is_empty(), "a fresh basin is not opened twice");
    let closed = basins_closed(&r.lakes, &none);
    assert_eq!(closed.iter().filter(|&&c| c).count(), 1);
    assert!(closed[l]);
    assert!(basins_closed(&r.lakes, &all).iter().all(|&c| !c));
    assert!(lakes_to_seal(&r.lakes, &none, &none, &all).is_empty(), "an enclosed basin is never sealed");

    let (_, open) = baked(&[-50.0, 40.0, 5.0, 12.0, 25.0, 70.0], 2.0e6);
    let count = open.lakes.len();
    let none = vec![false; count];
    let all = vec![true; count];
    assert_eq!(lakes_to_seal(&open.lakes, &none, &none, &all), vec![0]);
    assert!(lakes_to_seal(&open.lakes, &all, &none, &all).is_empty(), "a forced lake stays open");
    assert!(lakes_to_seal(&open.lakes, &none, &all, &all).is_empty(), "a closed lake is not sealed twice");
    assert!(lakes_to_seal(&open.lakes, &none, &none, &none).is_empty(), "a fed lake stays open");
}

#[test]
fn a_shore_pool_is_found_above_the_datum_and_a_pocket_is_not() {
    let p = prepared(&[-50.0, -40.0, 39.0, 30.0, 5.0, 20.0, -5.0, 60.0], 1.0e6);
    assert_eq!(p.nested.len(), 1);
    assert_eq!(p.nested[0].members, vec![4]);
    assert!(!p.nested[0].enclosed);
    assert_eq!(p.nested_levels[0], key_of(20.0), "the pool stands at the shore's spill, 20 m");
    let q = prepared(&[60.0, 10.0, -12.0, -10.0, 39.0, -30.0, -40.0, -50.0], 1.0e6);
    assert!(q.nested.is_empty(), "a hollow with ground below the datum is a pocket, not a pool");
}

/// A hollow too large to keep (nodes 2-7, 6 km^2 against a 5 km^2 cap) still holds an inner
/// basin at node 4, 15 m deep under its own 25 m rim, kept as a lake of its own.
#[test]
fn a_capped_basin_keeps_a_deep_inner_lake() {
    let heights = [-50.0, 40.0, 5.0, 25.0, 10.0, 25.0, 30.0, 35.0, 70.0];
    let (p, r) = baked_with(&heights, 1.0e6, 5.0e6);
    assert_eq!(p.shapes.len(), 1, "sanity: one hollow before routing splits it");
    assert!(p.capped[0], "sanity: over the test cap");
    assert!(!r.lakes[0].kept, "too large to keep, whatever the inner lake");
    let inner = (0..r.hollows.len()).find(|&h| r.hollows[h].members == vec![4]).expect("the inner pocket");
    assert!(r.lakes[inner].kept, "deep and wide enough on its own");
    assert_eq!(r.lake_of[4], inner as u32, "the pocket floor is that lake's member");
    assert_eq!(r.surface_key[4], key_of(25.0), "the pocket floor stands at its lake's level");
    assert_eq!(end_of(&r, 4), 0, "the inner lake drains out of the capped basin to the sea");
}

/// The capped basin (nodes 2-6, floor at node 5) leaves over the 40 m rim along 5, 4, 3, 2. The
/// inner basin at node 3 sits on that way out, so it is notched and holds no water.
#[test]
fn a_lake_on_a_capped_basins_way_out_is_notched() {
    let (_, r) = baked_with(&[-50.0, 40.0, 30.0, 10.0, 25.0, 5.0, 35.0, 70.0], 1.0e6, 4.0e6);
    let inner = (0..r.hollows.len()).find(|&h| r.hollows[h].members == vec![3]).expect("the inner hollow at node 3");
    assert!(!r.lakes[inner].kept, "on the escape chain");
    assert_eq!(r.lake_of[3], NO_LAKE);
    assert_eq!(end_of(&r, 3), 0);
}

/// The same capped basin, wider: the inner basin at node 3 is on the floor's way out and is
/// notched; the one at node 7 is off it, and is kept as its own lake.
#[test]
fn a_capped_basin_keeps_the_lake_off_its_way_out() {
    let (p, r) = baked_with(&[-50.0, 40.0, 30.0, 10.0, 25.0, 5.0, 25.0, 12.0, 28.0, 35.0, 70.0], 1.0e6, 7.0e6);
    let on_chain = (0..r.hollows.len()).find(|&h| r.hollows[h].members == vec![3]).expect("the inner hollow at node 3");
    assert!(!r.lakes[on_chain].kept, "on the escape chain");
    assert!(p.nested_blocked[on_chain - p.shapes.len()], "it meets the way out");
    assert_eq!(r.lake_of[3], NO_LAKE);
    let off = (0..r.hollows.len()).find(|&h| r.hollows[h].members == vec![7]).expect("the inner hollow at node 7");
    assert!(r.lakes[off].kept, "off the escape chain");
    assert_eq!(r.lake_of[7], off as u32, "node 7 is that lake's member");
    for node in 0..p.graph.len() as u32 {
        if p.water.ocean[node as usize] {
            continue;
        }
        let end = end_of(&r, node);
        assert!(p.water.ocean[end as usize] || r.lake_of[end as usize] != NO_LAKE, "node {node} ends at {end}");
    }
}

#[test]
fn a_capped_basins_way_out_is_its_floors_parent_chain() {
    let p = prepared_with(&[-50.0, 40.0, 30.0, 10.0, 25.0, 5.0, 35.0, 70.0], 1.0e6, 4.0e6);
    assert!(p.shore_count == 0, "no enclosed basin, so the tree is the flood's own");
    let subs = capped_pools(&p.graph, &p.water.ocean, &p.water.enclosed, &p.keys, &p.flood.parent, &p.shapes,
                            &p.capped[..p.shapes.len()].to_vec());
    assert_eq!(subs.len(), 1, "one capped hollow, flooded once");
    let sub = &subs[0];
    assert_eq!(sub.basin.source, 0);
    assert_eq!(sub.basin.pools.len(), 1);
    assert_eq!(sub.basin.pools[0].members, vec![3]);
    assert_eq!(sub.basin.levels[0], key_of(25.0));
    assert_eq!(sub.basin.spill[3], key_of(25.0), "node 3 is held at its rim, node 4");
    assert!(sub.basin.reached.iter().enumerate().all(|(x, &r)| r == (2..=6).contains(&x)), "the flood stays in the hollow");
    assert_eq!(sub.escape, vec![5, 4, 3, 2], "the floor's parents while they stay in the basin");
    assert_eq!(sub.blocked, vec![true]);
}

#[test]
fn every_kept_basin_with_a_pocket_is_flooded_anew() {
    let p = prepared(&[-50.0, -40.0, 39.0, 30.0, 5.0, 20.0, -5.0, 60.0], 1.0e6);
    let kept = kept_of(&judge_all(&p.shapes, &forced_nodes(&Vec::new()), &p.deep_and_wide, &p.over_cap));
    let subs = shore_pools(&p.graph, &p.water.ocean, &p.water.enclosed, &p.keys, &p.shapes, &kept);
    assert_eq!(subs.len(), 1);
    assert_eq!(subs[0].source, 0);
    assert_eq!(subs[0].spill[6], DATUM_KEY, "the pocket is the seed, at the datum");
    assert_eq!(subs[0].spill[4], key_of(20.0));
    assert!(!subs[0].reached[0] && !subs[0].reached[2], "the sea and the rim lie outside the hollow");
    assert_eq!(subs[0].pools.len(), 1);
    assert_eq!(subs[0].pools[0].members, vec![4]);
}

/// Opens every kept basin's outlet, in lake order, as a closure that finds them all fed does.
fn all_opened(p: &Routed, mut r: Routing) -> Routing {
    for l in 0..r.lakes.len() {
        if r.lakes[l].kept && r.lakes[l].enclosed {
            open_outlet(&mut r, &p.water.ocean, &p.flood.parent, l);
        }
    }
    r
}

/// A capped shore pool inside an enclosed basin: the basin's own step has already pointed its
/// members down toward the pocket, so its way out follows those parents, and nothing loops.
#[test]
fn a_capped_shore_hollow_walks_its_own_way_out() {
    let (p, r) = baked_with(&[-50.0, 30.0, 10.0, 10.0, 20.0, -5.0], 1.0e6, 1.5e6);
    assert!(p.shore_count == 1 && p.capped[p.shapes.len()], "the shore pool is over the cap");
    assert!(refuse_undrained(&p.water.ocean, all_opened(&p, r)).is_ok());
}

/// A 6x3 grid where a capped basin's inner lake would sit on a fresh pocket's outlet path: it
/// is notched, and once every pocket is opened everything drains.
#[test]
fn a_capped_basins_inner_lake_stays_off_a_pockets_outlet_path() {
    let (w, h) = (6usize, 3usize);
    let heights = [
        -50.0, 60.0, 60.0, 10.0, 60.0, 60.0,
        -50.0, 0.0, 40.0, 30.0, 60.0, 60.0,
        -50.0, 60.0, 10.0, 30.0, 50.0, 0.0,
    ];
    let n = w * h;
    let directed: Vec<Vec<u32>> = (0..n)
        .map(|i| {
            let (row, col) = (i / w, i % w);
            let mut v = Vec::new();
            if row > 0 { v.push((i - w) as u32); }
            if col > 0 { v.push((i - 1) as u32); }
            if col + 1 < w { v.push((i + 1) as u32); }
            if row + 1 < h { v.push((i + w) as u32); }
            v
        })
        .collect();
    let (p, r) = baked_on(LandGraph::from_parts(n, &directed), &heights, 1.0e6, 1.5e6);
    assert!(refuse_undrained(&p.water.ocean, all_opened(&p, r)).is_ok());
}

#[test]
fn an_open_lakes_outlet_reach_starts_where_its_entry_drains() {
    let (p, r) = baked(&[-50.0, 40.0, 5.0, 12.0, 25.0, 70.0], 2.0e6);
    let lakes = r.lakes.len();
    let leaves = r.receiver[r.lakes[0].entry as usize];
    assert_eq!(leaves, 1, "the lake spills over node 1");
    let reaches = vec![Reach { nodes: vec![leaves], class: ReachClass::Stream, order: 1, downstream: Downstream::Ocean }];
    let points = vec![Vec::new()];
    let measure = LakeMeasure { level_m: 0, area_m2: 0, depth_m: 0, anchor: (0, 0), small: false, forced: false, shore_reach_m: 0 };
    let zeros = vec![0u64; p.graph.len()];
    let open = assemble_record(&p.graph, &p.water.ocean, &r.receiver, &r.lake_of, &r.lakes, &reaches, &points,
                               &vec![false; lakes], &vec![false; lakes], &vec![measure.clone(); lakes], &Vec::new(),
                               &Vec::new(), &vec![false; p.graph.len()], &p.keys, &zeros, &zeros);
    assert_eq!(open.bodies[0].outlet_reach, Some(0));
    assert_eq!(open.bodies[0].downstream, Downstream::Reach(0));
    let closed = assemble_record(&p.graph, &p.water.ocean, &r.receiver, &r.lake_of, &r.lakes, &reaches, &points,
                                 &vec![true; lakes], &vec![false; lakes], &vec![measure; lakes], &Vec::new(),
                                 &Vec::new(), &vec![false; p.graph.len()], &p.keys, &zeros, &zeros);
    assert_eq!(closed.bodies[0].outlet_reach, None, "a closed lake has no outlet reach");
    assert_eq!(closed.bodies[0].downstream, Downstream::Sink);
}

#[test]
fn the_sea_sends_its_water_nowhere() {
    for heights in [
        vec![-50.0, 30.0, 26.0, 27.0, 28.0, 70.0],
        vec![-50.0, -40.0, -30.0, 39.0, -5.0, 10.0, 60.0],
        vec![60.0, -5.0, 5.0, -5.0, 39.0, -30.0, -40.0, -50.0],
    ] {
        let (p, r) = baked(&heights, 1.0e6);
        for x in 0..p.graph.len() {
            if p.water.ocean[x] {
                assert_eq!(r.receiver[x], NO_NODE, "sea node {x} of {heights:?}");
            }
        }
    }
}

#[test]
fn each_basin_shore_capped_hollow_and_pocket_is_flooded_anew_once() {
    let (p, r) = baked(&[-50.0, -40.0, 39.0, 30.0, 5.0, 20.0, -5.0, 60.0], 1.0e6);
    assert_eq!(r.shore_trees.len(), 1, "one kept enclosed hollow");
    let t = &r.shore_trees[0];
    assert_eq!(t.source, 0);
    assert_eq!(t.parent[6], NO_NODE, "the pocket is the seed");
    assert_eq!(t.parent[5], 6);
    assert_eq!(t.parent[4], 5);
    assert_eq!(t.parent[3], 4, "the shore leads down into the basin, not over the rim");
    assert_eq!(r.parent[3], 4);
    assert!(r.capped_trees.is_empty(), "nothing is over the cap");
    assert_eq!(r.pocket_trees.len(), 1);
    assert_eq!(r.pocket_trees[0].parent[6], NO_NODE, "the pocket's entry has no parent");
    let _ = p;
    let (_, c) = baked_with(&[-50.0, 40.0, 30.0, 10.0, 25.0, 5.0, 35.0, 70.0], 1.0e6, 4.0e6);
    assert_eq!(c.capped_trees.len(), 1);
    assert_eq!(c.capped_trees[0].escape, vec![5, 4, 3, 2]);
    assert_eq!(c.capped_trees[0].tree.parent[5], NO_NODE, "the floor is the seed");
    assert_eq!(c.parent[6], 5, "off the way out, a node takes the capped flood's parent");
}

#[test]
fn the_counts_sum_the_bodies_and_the_forced_points_that_landed() {
    let (p, r) = baked(&[-50.0, 40.0, 5.0, 12.0, 25.0, 70.0], 2.0e6);
    let lakes = r.lakes.len();
    let measure = LakeMeasure { level_m: 0, area_m2: 0, depth_m: 0, anchor: (0, 0), small: false, forced: false, shore_reach_m: 0 };
    let zeros = vec![0u64; p.graph.len()];
    let a = assemble_record(&p.graph, &p.water.ocean, &r.receiver, &r.lake_of, &r.lakes, &Vec::new(), &Vec::new(),
                            &vec![false; lakes], &vec![false; lakes], &vec![measure; lakes], &Vec::new(), &Vec::new(),
                            &vec![false; p.graph.len()], &p.keys, &zeros, &zeros);
    let kept: Vec<bool> = r.lakes.iter().map(|l| l.kept).collect();
    let nearest = vec![Some(3), Some(5), None];
    let c = bake_counts(&p.water.ocean, &r.lake_of, &nearest, &kept, &vec![true; lakes], &vec![false; lakes],
                        &vec![false; lakes], &a.bodies);
    assert_eq!(c.land_nodes, 5);
    assert_eq!((c.hollows, c.kept, c.notched, c.closed), (1, 1, 0, 1));
    assert_eq!((c.forced_requested, c.forced_matched), (3, 1), "only the point at node 3 lies under the lake");
    assert_eq!((c.capped_basins, c.capped_inner, c.capped_inner_kept), (0, 0, 0));
    assert_eq!(c.shore_members, 2, "nodes 2 and 4");
    assert_eq!(c.collar_points, 2, "nodes 1 and 5");
    let c = bake_counts(&p.water.ocean, &r.lake_of, &Vec::new(), &vec![true, false, true], &Vec::new(),
                        &vec![true, false, false], &vec![false, true, true], &Vec::new());
    assert_eq!((c.capped_basins, c.capped_inner, c.capped_inner_kept, c.notched), (1, 2, 1, 1));
}

#[test]
fn a_pockets_forced_flag_is_its_own_and_a_whole_lake_takes_its_hollows() {
    let (_, r) = baked(&[60.0, -5.0, 5.0, -5.0, 39.0, -30.0, -40.0, -50.0], 1.0e6);
    let pocket_at_3 = r.lake_of[3] as usize;
    let pocket_at_1 = r.lake_of[1] as usize;
    let flags = forced_lakes(&r.lakes, &vec![false; r.hollows.len()], &vec![3]);
    assert!(flags[pocket_at_3] && !flags[pocket_at_1], "the forced node lies in the pocket at node 3 only");
    let (_, open) = baked(&[-50.0, 40.0, 5.0, 12.0, 25.0, 70.0], 2.0e6);
    assert!(forced_lakes(&open.lakes, &vec![true], &Vec::new())[0], "a whole lake's flag is its hollow's verdict");
    assert!(!forced_lakes(&open.lakes, &vec![false], &vec![3])[0]);
}

#[test]
fn a_floor_is_the_first_of_the_lowest_and_a_hit_is_any_forced_member() {
    let height = vec![key_of(5.0), key_of(3.0), key_of(3.0), key_of(9.0)];
    assert_eq!(floor_of(&vec![0, 1, 2, 3], &height), 1);
    assert_eq!(floor_of(&vec![0, 3], &height), 0);
    assert!(hits_forced(&vec![0, 2], &vec![1, 2, 7]));
    assert!(!hits_forced(&vec![0, 3], &vec![1, 2, 7]));
    assert!(!hits_forced(&Vec::new(), &vec![1]));
}

#[test]
fn hollows_share_no_node() {
    let p = prepared(&[-50.0, 30.0, 10.0, 35.0, 20.0, 60.0], 1.0e6);
    assert_eq!(p.shapes.len(), 2);
    assert_eq!(p.shapes[0].members, vec![2]);
    assert_eq!(p.shapes[1].members, vec![4]);
    for a in 0..p.shapes.len() {
        for b in a + 1..p.shapes.len() {
            assert!(p.shapes[a].members.iter().all(|x| !p.shapes[b].members.contains(x)));
        }
    }
}
