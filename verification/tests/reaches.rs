use worldbuilder_engine::drainage::{NO_LAKE, NO_NODE, drainage_check};
use worldbuilder_engine::links::{body_downstream, downstream_is_fresh, reaches_are_acyclic};
use worldbuilder_engine::reaches::{Downstream, Reach, ReachClass, bifurcation_ratios, strahler};

fn stream(nodes: Vec<u32>, downstream: Downstream) -> Reach {
    Reach { nodes, class: ReachClass::Stream, order: 0, downstream }
}

#[test]
fn a_hand_network_has_the_expected_strahler_orders() {
    // Two order-1 sources join (order 2), a third order-1 joins that (still 2).
    let reaches = vec![
        Reach { nodes: vec![0, 4], class: ReachClass::Stream, order: 0, downstream: Downstream::Reach(3) },
        Reach { nodes: vec![1, 4], class: ReachClass::Stream, order: 0, downstream: Downstream::Reach(3) },
        Reach { nodes: vec![2, 5], class: ReachClass::Stream, order: 0, downstream: Downstream::Reach(4) },
        Reach { nodes: vec![4, 5], class: ReachClass::Stream, order: 0, downstream: Downstream::Reach(4) },
        Reach { nodes: vec![5, 6], class: ReachClass::Stream, order: 0, downstream: Downstream::Ocean },
    ];
    let ordered = strahler(reaches);
    assert_eq!(ordered.iter().map(|r| r.order).collect::<Vec<_>>(), vec![1, 1, 1, 2, 2]);
}

fn as_float(ratios: &[(u64, u64)]) -> Vec<f64> {
    ratios.iter().map(|&(a, b)| a as f64 / b as f64).collect()
}

#[test]
fn bifurcation_ratios_count_horton_streams_on_a_hand_network() {
    let mut reaches = Vec::new();
    // 12 order-1 sources (ids 0..=11), pairing into junctions 12..=17.
    for pair in 0..6u32 {
        let junction = 12 + pair;
        reaches.push(stream(vec![2 * pair, 100 + pair], Downstream::Reach(junction)));
        reaches.push(stream(vec![2 * pair + 1, 100 + pair], Downstream::Reach(junction)));
    }
    // Junctions 12..=16 drain straight to the ocean.
    for junction in 12..17u32 {
        reaches.push(stream(vec![200 + junction, 201 + junction], Downstream::Ocean));
    }
    // Junction 17 continues into reach 18: a single input, same order once ordered.
    reaches.push(stream(vec![217, 218], Downstream::Reach(18)));
    reaches.push(stream(vec![218, 219], Downstream::Ocean));

    assert_eq!(reaches.len(), 19);
    let ordered = strahler(reaches);
    let order_of = |id: usize| ordered[id].order;
    for id in 0..12 {
        assert_eq!(order_of(id), 1, "reach {id} is an order-1 source");
    }
    for id in 12..19 {
        assert_eq!(order_of(id), 2, "reach {id} is order 2 (never promoted past a single input)");
    }
    assert_eq!(as_float(&bifurcation_ratios(&ordered)), vec![12.0 / 6.0]);
    assert_eq!(bifurcation_ratios(&ordered), vec![(12, 6)]);

    // Fewer than 10 order-1 streams: no ratio is reported at all.
    let small = vec![stream(vec![0, 1], Downstream::Ocean), stream(vec![2, 3], Downstream::Ocean)];
    let small = strahler(small);
    assert!(bifurcation_ratios(&small).is_empty(), "fewer than 10 order-1 streams reports nothing");
}

#[test]
fn strahler_keeps_everything_but_the_order() {
    let reaches = vec![
        Reach { nodes: vec![7, 8], class: ReachClass::River, order: 9, downstream: Downstream::Body(2) },
        Reach { nodes: vec![1], class: ReachClass::Great, order: 0, downstream: Downstream::Sink },
    ];
    let ordered = strahler(reaches.clone());
    for (a, b) in ordered.iter().zip(&reaches) {
        assert_eq!(a.nodes, b.nodes);
        assert_eq!(a.class, b.class);
        assert_eq!(a.downstream, b.downstream);
    }
    assert_eq!(ordered[0].order, 1);
    assert_eq!(ordered[1].order, 1);
}

#[test]
fn reach_links_without_a_loop_are_acyclic() {
    let links = vec![Downstream::Reach(2), Downstream::Reach(2), Downstream::Ocean, Downstream::Body(0)];
    assert!(reaches_are_acyclic(&links));
    assert!(reaches_are_acyclic(&Vec::new()));
}

#[test]
fn a_loop_or_a_missing_reach_is_refused() {
    let looped = vec![Downstream::Reach(1), Downstream::Reach(2), Downstream::Reach(0), Downstream::Ocean];
    assert!(!reaches_are_acyclic(&looped));
    let onto_itself = vec![Downstream::Ocean, Downstream::Reach(1)];
    assert!(!reaches_are_acyclic(&onto_itself));
    let missing = vec![Downstream::Reach(5)];
    assert!(!reaches_are_acyclic(&missing));
}

#[test]
fn a_chain_ending_at_the_ocean_is_fresh_and_one_ending_at_a_sink_is_not() {
    // Bodies: 0 drains to reach 1, 1 is closed.
    let bodies = vec![Downstream::Reach(1), Downstream::Sink];
    let reaches = vec![Downstream::Body(0), Downstream::Ocean, Downstream::Body(1)];
    assert!(downstream_is_fresh(&bodies, &reaches, Downstream::Reach(0)));
    assert!(downstream_is_fresh(&bodies, &reaches, Downstream::Ocean));
    assert!(!downstream_is_fresh(&bodies, &reaches, Downstream::Reach(2)));
    assert!(!downstream_is_fresh(&bodies, &reaches, Downstream::Sink));
}

#[test]
fn a_loop_is_never_fresh() {
    let bodies = vec![Downstream::Reach(0)];
    let reaches = vec![Downstream::Body(0)];
    assert!(!downstream_is_fresh(&bodies, &reaches, Downstream::Reach(0)));
}

#[test]
fn a_lake_flows_to_the_first_thing_its_chain_meets() {
    // Nodes 0-1 are lake 0 (hollow 0), node 2 starts reach 7, node 3 is lake 1 (hollow 1,
    // body 4), node 4 is ocean.
    let ocean = vec![false, false, false, false, true];
    let lake_of = vec![0, 0, NO_LAKE, 1, NO_LAKE];
    let reach_of_first_node = vec![u32::MAX, u32::MAX, 7, u32::MAX, u32::MAX];
    let body_id_of_hollow = vec![Some(0), Some(4)];
    // The entry 0 drains through node 1 (its own lake) to node 2: the reach.
    let receiver = vec![1, 2, 3, 4, NO_NODE];
    assert_eq!(body_downstream(&ocean, &receiver, &lake_of, 0, 0, &reach_of_first_node, &body_id_of_hollow),
               Downstream::Reach(7));
    // Without the reach, the chain meets lake 1 first.
    let no_reach = vec![u32::MAX; 5];
    assert_eq!(body_downstream(&ocean, &receiver, &lake_of, 0, 0, &no_reach, &body_id_of_hollow),
               Downstream::Body(4));
    // Lake 1's own chain reaches the ocean.
    assert_eq!(body_downstream(&ocean, &receiver, &lake_of, 1, 3, &no_reach, &body_id_of_hollow),
               Downstream::Ocean);
    // A closed lake whose entry has no receiver is a sink.
    let closed = vec![1, NO_NODE, 3, 4, NO_NODE];
    assert_eq!(body_downstream(&ocean, &closed, &lake_of, 0, 1, &no_reach, &body_id_of_hollow),
               Downstream::Sink);
}

#[test]
fn every_node_draining_passes_the_check() {
    // 0 ocean; 1 -> 0; 2 -> 1; 3 is a closed lake's sink; 4 -> 3.
    let ocean = vec![true, false, false, false, false];
    let receiver = vec![NO_NODE, 0, 1, NO_NODE, 3];
    let lake_of = vec![NO_LAKE, NO_LAKE, NO_LAKE, 0, NO_LAKE];
    assert_eq!(drainage_check(&ocean, &receiver, &lake_of), Ok(()));
}

#[test]
fn the_drainage_check_catches_a_hand_made_cycle() {
    let ocean = vec![true, false, false, false];
    let mut receiver = vec![NO_NODE, 0, 1, 2];
    let lake_of = vec![NO_LAKE; 4];
    assert_eq!(drainage_check(&ocean, &receiver, &lake_of), Ok(()), "sanity: the unmutated routing drains");
    receiver[2] = 3;
    receiver[3] = 2;
    assert_eq!(drainage_check(&ocean, &receiver, &lake_of), Err(2), "a 2-cycle between 2 and 3 must fail");
}

#[test]
fn dry_land_without_a_receiver_fails_at_the_lowest_node() {
    let ocean = vec![false, false, true];
    let receiver = vec![1, NO_NODE, NO_NODE];
    let lake_of = vec![NO_LAKE; 3];
    assert_eq!(drainage_check(&ocean, &receiver, &lake_of), Err(0));
    let outside = vec![9, 2, NO_NODE];
    assert_eq!(drainage_check(&ocean, &outside, &lake_of), Err(0));
}
