use worldbuilder_engine::components::{NO_BASIN, NO_COMPONENT, Water, components, label_water, largest_group};
use worldbuilder_engine::graph::LandGraph;
use worldbuilder_engine::keys::sortable_bits;

/// A chain of nodes, each joined to the next.
fn chain(n: usize) -> Vec<Vec<u32>> {
    (0..n as u32)
        .map(|i| {
            let mut v = Vec::new();
            if i > 0 {
                v.push(i - 1);
            }
            if (i as usize) + 1 < n {
                v.push(i + 1);
            }
            v
        })
        .collect()
}

/// Below-datum water: the largest group by area is the ocean, the rest enclosed basins.
fn water_of(graph: &LandGraph, heights: &[f64], areas: &[f64]) -> Water {
    let below: Vec<bool> = heights.iter().map(|h| *h <= 0.0).collect();
    let level = vec![0u64; heights.len()];
    let groups = components(graph, &below, &level);
    let mut area = vec![0.0f64; groups.firsts.len()];
    for (i, &g) in groups.label.iter().enumerate() {
        if g != NO_COMPONENT {
            area[g as usize] += areas[i];
        }
    }
    let keys: Vec<u64> = area.iter().map(|a| sortable_bits(a.to_bits())).collect();
    let ocean = largest_group(&keys).unwrap_or(0);
    label_water(&groups.label, groups.firsts.len() as u32, ocean)
}

/// A ring of 8 nodes around an equatorial strip: nodes 0-2 deep water (ocean-sized),
/// node 5 a small enclosed below-datum pocket, the rest land.
fn strip() -> (LandGraph, Water) {
    let heights = vec![-100.0, -80.0, -60.0, 20.0, 30.0, -5.0, 25.0, 40.0];
    let areas = vec![10.0, 10.0, 10.0, 1.0, 1.0, 1.0, 1.0, 1.0];
    let graph = LandGraph::from_parts(8, &chain(8));
    let water = water_of(&graph, &heights, &areas);
    (graph, water)
}

#[test]
fn adjacency_is_symmetric_sorted_and_self_free() {
    let (g, _) = strip();
    for node in 0..g.len() as u32 {
        let n = g.neighbours(node);
        let mut sorted = n.to_vec();
        sorted.sort_unstable();
        sorted.dedup();
        assert_eq!(n, &sorted[..]);
        assert!(!n.contains(&node));
        for &other in n {
            assert!(g.neighbours(other).contains(&node));
        }
    }
}

#[test]
fn the_largest_water_is_the_ocean_and_the_rest_is_enclosed() {
    let (_, w) = strip();
    assert_eq!(&w.ocean[..3], &[true, true, true]);
    assert!(!w.ocean[5]);
    assert_eq!(w.enclosed[5], 0);
    assert_eq!(w.enclosed_count, 1);
    for node in [3usize, 4, 6, 7] {
        assert!(!w.ocean[node]);
        assert_eq!(w.enclosed[node], NO_BASIN);
    }
}

#[test]
fn directed_lists_are_mirrored_deduplicated_and_self_loops_dropped() {
    let directed = vec![vec![1, 1, 0, 2], vec![], vec![], vec![2]];
    let g = LandGraph::from_parts(4, &directed);
    assert_eq!(g.len(), 4);
    assert!(!g.is_empty());
    assert_eq!(g.neighbours(0), &[1, 2]);
    assert_eq!(g.neighbours(1), &[0]);
    assert_eq!(g.neighbours(2), &[0, 3]);
    assert_eq!(g.neighbours(3), &[2]);
}

#[test]
fn an_empty_graph_has_no_nodes() {
    let g = LandGraph::from_parts(0, &Vec::new());
    assert_eq!(g.len(), 0);
    assert!(g.is_empty());
}

#[test]
fn groups_are_numbered_by_their_lowest_node_and_split_by_key() {
    // 0-1-2-3-4-5 in a chain; all chosen but 3; keys split 0,1 from 2.
    let g = LandGraph::from_parts(6, &chain(6));
    let member = vec![true, true, true, false, true, true];
    let key = vec![7, 7, 9, 0, 4, 4];
    let c = components(&g, &member, &key);
    assert_eq!(c.label, vec![0, 0, 1, NO_COMPONENT, 2, 2]);
    assert_eq!(c.firsts, vec![0, 2, 4]);
}

#[test]
fn equal_areas_make_the_lower_group_the_ocean() {
    let keys: Vec<u64> = [3.0f64, 5.0, 5.0, 1.0].iter().map(|a| sortable_bits(a.to_bits())).collect();
    assert_eq!(largest_group(&keys), Some(1));
    assert_eq!(largest_group(&Vec::new()), None);
}

#[test]
fn the_ocean_leaves_a_gap_in_the_basin_numbers() {
    // Groups 0, 1, 2 with group 1 the ocean: basins 0 and 1 are groups 0 and 2.
    let label = vec![0, NO_COMPONENT, 1, 2, 1];
    let w = label_water(&label, 3, 1);
    assert_eq!(w.ocean, vec![false, false, true, false, true]);
    assert_eq!(w.enclosed, vec![0, NO_BASIN, NO_BASIN, 1, NO_BASIN]);
    assert_eq!(w.enclosed_count, 2);
}

#[test]
fn a_dry_world_has_neither_ocean_nor_basin() {
    let w = label_water(&vec![NO_COMPONENT; 3], 0, 0);
    assert_eq!(w.ocean, vec![false; 3]);
    assert_eq!(w.enclosed, vec![NO_BASIN; 3]);
    assert_eq!(w.enclosed_count, 0);
}
