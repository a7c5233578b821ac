use worldbuilder_engine::channels::extract;
use worldbuilder_engine::drainage::{NO_LAKE, NO_NODE};
use worldbuilder_engine::reaches::{Downstream, ReachClass};

/// Two sources join at node 2, which runs through 3 to node 5, where a third source joins;
/// node 5 falls into the ocean at node 6.
fn forked() -> (Vec<bool>, Vec<u32>, Vec<u32>) {
    let ocean = vec![false, false, false, false, false, false, true];
    let receiver = vec![2, 2, 3, 5, 5, 6, NO_NODE];
    let lake_of = vec![NO_LAKE; 7];
    (ocean, receiver, lake_of)
}

#[test]
fn reaches_start_at_sources_and_confluences() {
    let (ocean, receiver, lake_of) = forked();
    let flow = vec![6, 6, 20, 20, 6, 50, 0];
    let reaches = extract(&ocean, &receiver, &lake_of, &flow, 5, 15, 40);
    let nodes: Vec<Vec<u32>> = reaches.iter().map(|r| r.nodes.clone()).collect();
    assert_eq!(nodes, vec![vec![0, 2], vec![1, 2], vec![2, 3, 5], vec![4, 5], vec![5, 6]]);
    let downstream: Vec<Downstream> = reaches.iter().map(|r| r.downstream).collect();
    assert_eq!(
        downstream,
        vec![
            Downstream::Reach(2),
            Downstream::Reach(2),
            Downstream::Reach(4),
            Downstream::Reach(4),
            Downstream::Ocean,
        ]
    );
}

#[test]
fn a_reach_is_classed_by_the_flow_at_its_gauge() {
    let (ocean, receiver, lake_of) = forked();
    let flow = vec![6, 6, 20, 20, 6, 50, 0];
    let reaches = extract(&ocean, &receiver, &lake_of, &flow, 5, 15, 40);
    let classes: Vec<ReachClass> = reaches.iter().map(|r| r.class).collect();
    // The last reach ends in the ocean, so its gauge is node 5, not the ocean node 6.
    assert_eq!(
        classes,
        vec![ReachClass::River, ReachClass::River, ReachClass::Great, ReachClass::Great, ReachClass::Great]
    );
}

#[test]
fn extracted_reaches_get_strahler_orders() {
    let (ocean, receiver, lake_of) = forked();
    let flow = vec![6, 6, 20, 20, 6, 50, 0];
    let reaches = extract(&ocean, &receiver, &lake_of, &flow, 5, 15, 40);
    let orders: Vec<u32> = reaches.iter().map(|r| r.order).collect();
    assert_eq!(orders, vec![1, 1, 2, 1, 2]);
}

#[test]
fn a_tributary_ends_on_the_first_node_of_its_receiver() {
    let (ocean, receiver, lake_of) = forked();
    let flow = vec![6, 6, 20, 20, 6, 50, 0];
    let reaches = extract(&ocean, &receiver, &lake_of, &flow, 5, 15, 40);
    for (id, reach) in reaches.iter().enumerate() {
        if let Downstream::Reach(next) = reach.downstream {
            assert_ne!(next as usize, id);
            assert_eq!(reach.nodes.last(), reaches[next as usize].nodes.first());
        }
    }
}

#[test]
fn dry_nodes_carry_no_channel() {
    let (ocean, receiver, lake_of) = forked();
    // Only the trunk below node 2 carries enough water: node 2 has no channel feeders and
    // starts the one reach.
    let flow = vec![1, 1, 20, 20, 1, 50, 0];
    let reaches = extract(&ocean, &receiver, &lake_of, &flow, 5, 15, 40);
    assert_eq!(reaches.len(), 1);
    assert_eq!(reaches[0].nodes, vec![2, 3, 5, 6]);
    assert_eq!(reaches[0].downstream, Downstream::Ocean);
    assert_eq!(reaches[0].order, 1);
}

#[test]
fn a_lake_outlet_starts_a_reach_and_a_lake_ends_one() {
    // Node 0 drains into lake 7 (nodes 1 and 2); the lake pours into node 3, which has one
    // channel feeder (node 4) and still starts a reach because the lake is its source.
    let ocean = vec![false, false, false, false, false, true];
    let receiver = vec![1, 2, 3, 5, 3, NO_NODE];
    let lake_of = vec![NO_LAKE, 7, 7, NO_LAKE, NO_LAKE, NO_LAKE];
    let flow = vec![10, 10, 10, 10, 10, 0];
    let reaches = extract(&ocean, &receiver, &lake_of, &flow, 5, 100, 200);
    let nodes: Vec<Vec<u32>> = reaches.iter().map(|r| r.nodes.clone()).collect();
    assert_eq!(nodes, vec![vec![0, 1], vec![3, 5], vec![4, 3]]);
    assert_eq!(reaches[0].downstream, Downstream::Body(7));
    assert_eq!(reaches[1].downstream, Downstream::Ocean);
    assert_eq!(reaches[2].downstream, Downstream::Reach(1));
}

#[test]
fn a_chain_that_stops_on_dry_land_ends_in_a_sink() {
    let ocean = vec![false, false];
    let receiver = vec![1, NO_NODE];
    let lake_of = vec![NO_LAKE; 2];
    let flow = vec![10, 10];
    let reaches = extract(&ocean, &receiver, &lake_of, &flow, 5, 100, 200);
    assert_eq!(reaches.len(), 1);
    assert_eq!(reaches[0].nodes, vec![0, 1]);
    assert_eq!(reaches[0].downstream, Downstream::Sink);
}
