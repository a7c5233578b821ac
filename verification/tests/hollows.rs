use worldbuilder_engine::components::{NO_COMPONENT, Water, components, label_water, largest_group};
use worldbuilder_engine::flood::{flood, ocean_seeds};
use worldbuilder_engine::graph::LandGraph;
use worldbuilder_engine::hollows::{Fate, HollowShape, find_hollows, forced_nodes, judge};
use worldbuilder_engine::keys::{sortable_bits, unsortable_bits};

const KEEP_DEPTH_M: f64 = 8.0;
const KEEP_AREA_M2: f64 = 1.0e6;
const KEEP_MAX_AREA_M2: f64 = 4.0e11;

fn key(value: f64) -> u64 {
    sortable_bits(value.to_bits())
}

fn metres(key: u64) -> f64 {
    f64::from_bits(unsortable_bits(key))
}

fn chain(n: usize) -> Vec<Vec<u32>> {
    (0..n as u32)
        .map(|i| {
            let mut v = Vec::new();
            if i > 0 {
                v.push(i - 1);
            }
            if (i as usize) + 1 < n {
                v.push(i + 1);
            }
            v
        })
        .collect()
}

fn water_of(graph: &LandGraph, heights: &[f64], areas: &[f64]) -> Water {
    let below: Vec<bool> = heights.iter().map(|h| *h <= 0.0).collect();
    let groups = components(graph, &below, &vec![0u64; heights.len()]);
    let mut area = vec![0.0f64; groups.firsts.len()];
    for (i, &g) in groups.label.iter().enumerate() {
        if g != NO_COMPONENT {
            area[g as usize] += areas[i];
        }
    }
    let keys: Vec<u64> = area.iter().map(|a| key(*a)).collect();
    label_water(&groups.label, groups.firsts.len() as u32, largest_group(&keys).unwrap_or(0))
}

/// One hollow with what a bake measures of it in metres.
struct Measured {
    shape: HollowShape,
    level_m: f64,
    depth_m: f64,
    area_m2: f64,
}

/// A line of nodes, floods it from its ocean and measures each hollow as the bake does: an
/// enclosed basin stands at the datum and counts only its below-datum area.
fn hollows_on_a_line(heights: &[f64], area: f64) -> Vec<Measured> {
    let n = heights.len();
    let graph = LandGraph::from_parts(n, &chain(n));
    let water = water_of(&graph, heights, &vec![area; n]);
    let keys: Vec<u64> = heights.iter().map(|h| key(*h)).collect();
    let f = flood(&graph, &keys, &ocean_seeds(&water.ocean), &vec![true; n]);
    find_hollows(&graph, &water.ocean, &water.enclosed, &keys, &f)
        .into_iter()
        .map(|shape| {
            let floor_m = heights[shape.floor as usize];
            let level = metres(f.spill_key[shape.members[0] as usize]);
            let (level_m, depth_m, area_m2) = if shape.enclosed {
                let below: f64 = shape.members.iter().filter(|&&m| heights[m as usize] <= 0.0).map(|_| area).sum();
                (0.0, 0.0 - floor_m, below)
            } else {
                (level, level - floor_m, shape.members.len() as f64 * area)
            };
            Measured { shape, level_m, depth_m, area_m2 }
        })
        .collect()
}

fn judge_all(hollows: &[Measured], forced: &Vec<u32>, keep_max_area_m2: f64) -> Vec<(bool, Fate)> {
    hollows
        .iter()
        .map(|h| {
            let big = h.depth_m >= KEEP_DEPTH_M && h.area_m2 >= KEEP_AREA_M2;
            let v = judge(&h.shape, forced, big, h.area_m2 > keep_max_area_m2);
            (v.forced, v.fate)
        })
        .collect()
}

#[test]
fn a_hollow_knows_its_floor_depth_area_and_outlet() {
    // ocean, then a 40 m ridge; behind it 5, 12, 25, then a 70 m wall. The only way out is
    // back over the 40 m ridge, so the hollow fills to 40.
    let hollows = hollows_on_a_line(&[-50.0, 40.0, 5.0, 12.0, 25.0, 70.0], 2.0e6);
    assert_eq!(hollows.len(), 1);
    let h = &hollows[0];
    assert_eq!(h.shape.members, vec![2, 3, 4]);
    assert_eq!(h.shape.floor, 2);
    assert_eq!(h.level_m, 40.0);
    assert_eq!(h.depth_m, 35.0);
    assert_eq!(h.area_m2, 6.0e6);
    assert_eq!(h.shape.entry, 2);
    assert_eq!(h.shape.outlet, 1, "it spills back over the 40 m ridge");
}

#[test]
fn deep_wide_hollows_are_kept_and_shallow_ones_notched() {
    let deep = hollows_on_a_line(&[-50.0, 40.0, 5.0, 12.0, 25.0, 70.0], 2.0e6);
    assert_eq!(judge_all(&deep, &forced_nodes(&Vec::new()), KEEP_MAX_AREA_M2)[0].1, Fate::Keep);

    let shallow = hollows_on_a_line(&[-50.0, 30.0, 26.0, 27.0, 28.0, 70.0], 2.0e6);
    assert_eq!(shallow[0].depth_m, 4.0);
    assert_eq!(judge_all(&shallow, &forced_nodes(&Vec::new()), KEEP_MAX_AREA_M2)[0].1, Fate::Notch,
               "4 m deep is under the 8 m rule");
}

#[test]
fn an_enclosed_basin_is_always_kept_at_the_datum() {
    // big ocean on the left, a below-datum pocket at node 4 behind a 39 m ridge
    let hollows = hollows_on_a_line(&[-50.0, -40.0, -30.0, 39.0, -5.0, 10.0, 60.0], 1.0e6);
    let verdicts = judge_all(&hollows, &forced_nodes(&Vec::new()), KEEP_MAX_AREA_M2);
    let enclosed: Vec<usize> = (0..hollows.len()).filter(|&i| hollows[i].shape.enclosed).collect();
    assert_eq!(enclosed.len(), 1);
    let e = enclosed[0];
    assert_eq!(verdicts[e].1, Fate::Keep);
    assert_eq!(hollows[e].level_m, 0.0, "the shoreline does not move");
    assert_eq!(hollows[e].shape.outlet, 3, "its lowest way to the ocean is the 39 m ridge");
}

#[test]
fn a_hollow_larger_than_the_caspian_drains() {
    // Deep and wide enough to keep, but its 6.0e6 m^2 area exceeds a cap of 5.0e6.
    let hollows = hollows_on_a_line(&[-50.0, 40.0, 5.0, 12.0, 25.0, 70.0], 2.0e6);
    assert_eq!(hollows[0].area_m2, 6.0e6, "sanity: this hollow is above the test cap");
    let verdicts = judge_all(&hollows, &forced_nodes(&Vec::new()), 5.0e6);
    assert_eq!(verdicts[0].1, Fate::Notch, "a hollow this large is not an open lake, whatever its depth");

    // The same size, but enclosed -- exempt.
    let hollows = hollows_on_a_line(&[-50.0, -40.0, -30.0, 39.0, -5.0, 10.0, 60.0], 2.0e6);
    let verdicts = judge_all(&hollows, &forced_nodes(&Vec::new()), 1.0);
    let enclosed: Vec<usize> = (0..hollows.len()).filter(|&i| hollows[i].shape.enclosed).collect();
    assert_eq!(enclosed.len(), 1);
    assert_eq!(verdicts[enclosed[0]].1, Fate::Keep, "an enclosed basin is kept however large");
}

#[test]
fn a_forced_outlet_keeps_a_hollow_the_rule_would_notch() {
    let hollows = hollows_on_a_line(&[-50.0, 30.0, 26.0, 27.0, 28.0, 70.0], 2.0e6);
    // The forced point at longitude 1.0 degree lies on node 2 of the half-degree line.
    let verdicts = judge_all(&hollows, &forced_nodes(&vec![Some(2)]), KEEP_MAX_AREA_M2);
    assert!(verdicts[0].0);
    assert_eq!(verdicts[0].1, Fate::Keep);
}

#[test]
fn forced_nodes_are_sorted_once_each_and_skip_misses() {
    assert_eq!(forced_nodes(&vec![Some(9), None, Some(2), Some(9), Some(4)]), vec![2, 4, 9]);
    assert_eq!(forced_nodes(&Vec::new()), Vec::<u32>::new());
}

#[test]
fn two_hollows_come_in_the_order_of_their_lowest_node() {
    // A pit behind a 20 m ridge, and further in a basin whose only way out is back over the
    // 60 m ridge at node 4, so it fills to 60 m.
    let hollows = hollows_on_a_line(&[-50.0, 20.0, 5.0, 30.0, 60.0, 40.0, 10.0, 45.0, 70.0], 1.0e6);
    let members: Vec<Vec<u32>> = hollows.iter().map(|h| h.shape.members.clone()).collect();
    assert_eq!(members, vec![vec![2], vec![5, 6, 7]]);
    assert_eq!(hollows[0].level_m, 20.0);
    assert_eq!(hollows[1].level_m, 60.0);
    assert_eq!(hollows[1].shape.floor, 6);
    assert_eq!(hollows[1].shape.entry, 5);
    assert_eq!(hollows[1].shape.outlet, 4);
}

#[test]
fn a_flat_floor_picks_its_lowest_index() {
    let hollows = hollows_on_a_line(&[-50.0, 40.0, 5.0, 5.0, 25.0, 70.0], 1.0e6);
    assert_eq!(hollows[0].shape.members, vec![2, 3, 4]);
    assert_eq!(hollows[0].shape.floor, 2);
}
