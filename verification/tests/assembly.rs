use worldbuilder_engine::assembly::{body_ids, line_starts, notch_points, outlet_marks, outlet_reach, reach_of_first_node,
                                    reach_tally, remap_links, river_nodes};
use worldbuilder_engine::drainage::NO_NODE;
use worldbuilder_engine::graph::LandGraph;
use worldbuilder_engine::reaches::{Downstream, Reach, ReachClass};

fn reach(nodes: Vec<u32>, class: ReachClass, order: u32, downstream: Downstream) -> Reach {
    Reach { nodes, class, order, downstream }
}

#[test]
fn kept_hollows_are_numbered_in_hollow_order() {
    assert_eq!(body_ids(&vec![false, true, true, false, true]), vec![None, Some(0), Some(1), None, Some(2)]);
    assert!(body_ids(&Vec::new()).is_empty());
}

#[test]
fn a_reach_is_found_by_its_first_node() {
    let reaches = vec![
        reach(vec![0, 2], ReachClass::Stream, 1, Downstream::Reach(1)),
        reach(vec![2, 3], ReachClass::River, 2, Downstream::Ocean),
    ];
    assert_eq!(reach_of_first_node(&reaches, 4), vec![0, u32::MAX, 1, u32::MAX]);
}

#[test]
fn only_an_open_lake_with_a_reach_where_it_leaves_has_an_outlet_reach() {
    let owner = vec![u32::MAX, 7, u32::MAX];
    assert_eq!(outlet_reach(false, 1, &owner), Some(7));
    assert_eq!(outlet_reach(true, 1, &owner), None);
    assert_eq!(outlet_reach(false, 2, &owner), None);
    assert_eq!(outlet_reach(false, NO_NODE, &owner), None);
}

#[test]
fn a_lake_link_is_repointed_at_its_body() {
    let ids = vec![None, Some(0), Some(1)];
    let links = vec![Downstream::Body(2), Downstream::Reach(0), Downstream::Ocean, Downstream::Body(1), Downstream::Sink];
    assert_eq!(
        remap_links(&links, &ids),
        vec![Downstream::Body(1), Downstream::Reach(0), Downstream::Ocean, Downstream::Body(0), Downstream::Sink]
    );
}

#[test]
fn river_nodes_are_the_nodes_of_every_reach() {
    let reaches = vec![
        reach(vec![0, 2], ReachClass::Stream, 1, Downstream::Reach(1)),
        reach(vec![2, 4], ReachClass::Stream, 1, Downstream::Ocean),
    ];
    assert_eq!(river_nodes(&reaches, 5), vec![true, false, true, false, true]);
}

#[test]
fn outlet_cuts_are_marked() {
    assert_eq!(outlet_marks(&vec![None, Some(2), Some(0), None], 4), vec![true, false, true, false]);
}

#[test]
fn a_notch_line_splits_where_it_jumps() {
    // A line 0 - 1 - 2 - 3 - 4.
    let graph = LandGraph::from_parts(5, &vec![vec![1], vec![2], vec![3], vec![4]]);
    assert_eq!(line_starts(&graph, &vec![0, 1, 3, 4, 2]), vec![0, 2, 4]);
    assert_eq!(line_starts(&graph, &vec![4, 3, 2]), vec![0]);
    assert!(line_starts(&graph, &Vec::new()).is_empty());
}

#[test]
fn reaches_are_counted_by_class_and_top_order() {
    let reaches = vec![
        reach(vec![0, 1], ReachClass::Stream, 1, Downstream::Reach(2)),
        reach(vec![3, 1], ReachClass::Stream, 1, Downstream::Reach(2)),
        reach(vec![1, 2], ReachClass::Great, 2, Downstream::Ocean),
        reach(vec![5, 6], ReachClass::River, 1, Downstream::Ocean),
    ];
    assert_eq!(reach_tally(&reaches), (2, 1, 1, 2));
    assert_eq!(reach_tally(&Vec::new()), (0, 0, 0, 0));
}

#[test]
fn a_notch_records_its_deep_cuts_off_the_rivers_and_reaches_its_water() {
    let river = vec![false, true, false, false, false];
    let deep = vec![true, true, false, true, true];
    let receiver = vec![1, 2, 3, 4, NO_NODE];
    // Node 1 is a river node and node 2 too shallow; node 3, the last, drains into node 4.
    assert_eq!(notch_points(&vec![0, 1, 2, 3], false, &river, &deep, &receiver), (vec![0, 3], Some(4)));
    // An outlet cut records every lowered node.
    assert_eq!(notch_points(&vec![0, 1, 2], true, &river, &deep, &receiver), (vec![0, 1, 2], Some(3)));
    // The last node dropped: no stop node is added.
    assert_eq!(notch_points(&vec![0, 2], false, &river, &deep, &receiver), (vec![0], None));
    // The last node drains nowhere.
    assert_eq!(notch_points(&vec![4], false, &river, &deep, &receiver), (vec![4], None));
}
