use worldbuilder_engine::cuts::{follow_parents, point_along, walk_parents};
use worldbuilder_engine::drainage::{NO_LAKE, NO_NODE};

#[test]
fn a_cut_runs_down_its_parents_to_the_sea() {
    let ocean = vec![false, false, false, true];
    let lake_of = vec![NO_LAKE; 4];
    let parent = vec![1, 2, 3, NO_NODE];
    let mut receiver = vec![NO_NODE; 4];
    let mut committed = vec![false; 4];
    let walked = follow_parents(&ocean, &lake_of, &parent, &mut receiver, &mut committed, 0);
    assert_eq!(walked, vec![1, 2]);
    assert_eq!(receiver, vec![1, 2, 3, NO_NODE]);
    assert_eq!(committed, vec![true, true, true, false]);
}

#[test]
fn a_cut_stops_at_a_committed_node_or_a_lake() {
    let ocean = vec![false; 4];
    let parent = vec![1, 2, 3, NO_NODE];
    let mut receiver = vec![NO_NODE; 4];
    let mut committed = vec![false, false, true, false];
    let walked = follow_parents(&ocean, &vec![NO_LAKE; 4], &parent, &mut receiver, &mut committed, 0);
    assert_eq!(walked, vec![1]);
    assert_eq!(receiver, vec![1, 2, NO_NODE, NO_NODE]);
    let lake_of = vec![NO_LAKE, 5, NO_LAKE, NO_LAKE];
    let mut receiver = vec![NO_NODE; 4];
    let mut committed = vec![false; 4];
    let walked = follow_parents(&ocean, &lake_of, &parent, &mut receiver, &mut committed, 0);
    assert!(walked.is_empty());
    assert_eq!(receiver[0], 1);
    assert_eq!(committed, vec![true, false, false, false]);
}

#[test]
fn a_cut_from_a_node_with_no_parent_does_nothing() {
    let mut receiver = vec![7, NO_NODE];
    let mut committed = vec![false, false];
    let walked = follow_parents(&vec![false; 2], &vec![NO_LAKE; 2], &vec![NO_NODE, 0], &mut receiver, &mut committed, 0);
    assert!(walked.is_empty());
    assert_eq!(receiver, vec![7, NO_NODE]);
    assert_eq!(committed, vec![false, false]);
}

#[test]
fn a_cut_never_walks_round_a_parent_loop() {
    // 0 and 1 are each other's parents.
    let mut receiver = vec![NO_NODE; 2];
    let mut committed = vec![false; 2];
    let walked = follow_parents(&vec![false; 2], &vec![NO_LAKE; 2], &vec![1, 0], &mut receiver, &mut committed, 0);
    assert_eq!(walked, vec![1]);
    assert_eq!(receiver, vec![1, 0]);
    assert_eq!(committed, vec![true, true]);
}

#[test]
fn a_cut_along_a_path_stops_only_at_the_sea_or_a_lake() {
    let ocean = vec![false, false, true, false];
    let lake_of = vec![NO_LAKE; 4];
    let mut receiver = vec![NO_NODE; 4];
    let mut parent = vec![NO_NODE; 4];
    let mut committed = vec![false, true, false, false];
    let taken = point_along(&ocean, &lake_of, &vec![0, 1, 2, 3], &mut receiver, &mut parent, &mut committed);
    assert_eq!(taken, (2, true));
    assert_eq!(receiver, vec![1, 2, NO_NODE, NO_NODE]);
    assert_eq!(parent, vec![1, 2, NO_NODE, NO_NODE]);
    assert_eq!(committed, vec![true, true, false, false]);
    let mut receiver = vec![NO_NODE; 4];
    let mut parent = vec![NO_NODE; 4];
    let mut committed = vec![false; 4];
    let taken = point_along(&vec![false; 4], &lake_of, &vec![3, 1, 0], &mut receiver, &mut parent, &mut committed);
    assert_eq!(taken, (2, false));
    assert_eq!(receiver, vec![NO_NODE, 0, NO_NODE, 1]);
    let taken = point_along(&vec![false; 4], &lake_of, &vec![3], &mut receiver, &mut parent, &mut committed);
    assert_eq!(taken, (0, false));
}

#[test]
fn a_basins_way_out_follows_its_parents_to_the_sea() {
    let parent = vec![1, 2, 3, NO_NODE, 0];
    let ocean = vec![false, false, false, true, false];
    assert_eq!(walk_parents(&parent, &ocean, 4, 5), vec![4, 0, 1, 2]);
    assert_eq!(walk_parents(&parent, &ocean, 4, 2), vec![4, 0]);
    // A chain that ends on land stops at its last node.
    assert_eq!(walk_parents(&vec![1, NO_NODE], &vec![false, false], 0, 9), vec![0, 1]);
}
