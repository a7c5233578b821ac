use worldbuilder_engine::rings::corner_walk;

#[test]
fn a_single_cell_is_walked_round_clockwise() {
    let walk = corner_walk(&vec![(2, 3)], 5, 5);
    assert_eq!((walk.first_row, walk.first_column, walk.width, walk.height), (2, 3, 1, 1));
    assert_eq!(walk.ring, vec![0, 1, 3, 2]);
}

#[test]
fn two_cells_side_by_side_share_no_edge() {
    let walk = corner_walk(&vec![(0, 0), (0, 1)], 4, 4);
    assert_eq!((walk.width, walk.height), (2, 1));
    assert_eq!(walk.ring, vec![0, 1, 2, 5, 4, 3]);
}

#[test]
fn a_pinched_set_is_walked_round_its_first_cell_only() {
    // Two cells meeting at one corner: the walk takes the corner's first edge and closes on
    // the first cell.
    let walk = corner_walk(&vec![(0, 0), (1, 1)], 3, 3);
    assert_eq!((walk.width, walk.height), (2, 2));
    assert_eq!(walk.ring, vec![0, 1, 4, 3]);
}

#[test]
fn the_box_is_the_smallest_that_holds_the_cells() {
    let walk = corner_walk(&vec![(3, 2), (1, 4), (2, 2)], 6, 6);
    assert_eq!((walk.first_row, walk.first_column, walk.width, walk.height), (1, 2, 3, 3));
    assert_eq!(walk.ring.len() >= 4, true);
    assert_eq!(walk.ring[0], 2);
}
