use worldbuilder_engine::accumulation::accumulation_order;
use worldbuilder_engine::drainage::NO_NODE;

#[test]
fn a_chain_is_handed_on_from_its_head() {
    assert_eq!(accumulation_order(&vec![1, 2, NO_NODE]), vec![0, 1, 2]);
    assert_eq!(accumulation_order(&vec![NO_NODE, 0, 1]), vec![2, 1, 0]);
}

#[test]
fn a_confluence_waits_for_its_last_donor() {
    assert_eq!(accumulation_order(&vec![2, 2, 3, NO_NODE]), vec![0, 1, 2, 3]);
}

#[test]
fn nodes_after_the_sources_come_in_the_order_they_become_ready() {
    // Node 0 readies 3 before node 1 readies 2.
    assert_eq!(accumulation_order(&vec![3, 2, NO_NODE, NO_NODE]), vec![0, 1, 3, 2]);
}

#[test]
fn a_receiver_cycle_is_never_handed_on() {
    // 0 and 1 send their water to each other; 2 feeds the cycle.
    assert_eq!(accumulation_order(&vec![1, 0, 0]), vec![2]);
}

#[test]
fn every_node_follows_its_donors() {
    let receiver = vec![4, 4, 5, 5, 6, 6, NO_NODE, 6];
    let order = accumulation_order(&receiver);
    assert_eq!(order.len(), receiver.len());
    for (p, &x) in order.iter().enumerate() {
        for (d, &r) in receiver.iter().enumerate() {
            if r == x {
                let q = order.iter().position(|&y| y as usize == d).unwrap();
                assert!(q < p);
            }
        }
    }
}

#[test]
fn no_nodes_no_order() {
    assert!(accumulation_order(&Vec::new()).is_empty());
}
