use worldbuilder_engine::crossings::{Crossing, confluence, order_crossings};
use worldbuilder_engine::hydro::HydroError;
use worldbuilder_engine::kinematics::MarginKind;
use worldbuilder_engine::ponds::{MAX_STRIP_CELLS, StripSkips, clipped_at};
use worldbuilder_engine::reaches::Downstream;

#[test]
fn margin_kinds_name_themselves() {
    assert_eq!(MarginKind::Convergent.as_str(), "convergent");
    assert_eq!(MarginKind::Divergent.as_str(), "divergent");
    assert_eq!(MarginKind::Transform.as_str(), "transform");
}

#[test]
fn a_bowl_against_the_side_is_side_clipped() {
    // A 10 x 9 strip: column 1 is the first interior column.
    assert_eq!(clipped_at(&vec![(4, 1), (4, 2)], 10, 9), (true, false));
    // Column 6 is the last interior column of nine (6 + 2 >= 9? no, 8 >= 9 is false): not clipped.
    assert_eq!(clipped_at(&vec![(4, 6)], 10, 9), (false, false));
    assert_eq!(clipped_at(&vec![(4, 7)], 10, 9), (true, false));
}

#[test]
fn a_bowl_against_the_end_is_end_clipped() {
    assert_eq!(clipped_at(&vec![(1, 4)], 10, 9), (false, true));
    assert_eq!(clipped_at(&vec![(8, 4)], 10, 9), (false, true));
    assert_eq!(clipped_at(&vec![(7, 4)], 10, 9), (false, false));
}

#[test]
fn a_bowl_in_open_ground_is_flagged_neither_way() {
    assert_eq!(clipped_at(&vec![(4, 4), (5, 4), (4, 5)], 10, 9), (false, false));
    assert_eq!(clipped_at(&Vec::new(), 10, 9), (false, false));
}

#[test]
fn a_tiny_strip_is_all_edge() {
    assert_eq!(clipped_at(&vec![(0, 0)], 2, 2), (true, true));
}

#[test]
fn skips_start_at_zero_and_the_budget_is_four_million_cells() {
    let skips = StripSkips::default();
    assert_eq!(skips, StripSkips { over_budget: 0, degenerate: 0, gated: 0 });
    assert_eq!(MAX_STRIP_CELLS, 4_000_000);
}

#[test]
fn confluences_are_a_reach_and_its_receiver_or_two_siblings() {
    let links = vec![Downstream::Reach(2), Downstream::Reach(2), Downstream::Ocean, Downstream::Body(0)];
    assert!(confluence(&links, 0, 2));
    assert!(confluence(&links, 2, 0));
    assert!(confluence(&links, 0, 1));
    assert!(!confluence(&links, 2, 3));
    assert!(!confluence(&links, 0, 3));
}

#[test]
fn crossings_come_out_in_one_order_each_once() {
    let c = |reach_a, index_a, reach_b, index_b| Crossing { reach_a, index_a, reach_b, index_b };
    let found = vec![c(1, 4, 3, 0), c(0, 9, 2, 2), c(1, 4, 2, 7), c(0, 9, 2, 2), c(0, 1, 5, 5)];
    assert_eq!(order_crossings(&found), vec![c(0, 1, 5, 5), c(0, 9, 2, 2), c(1, 4, 2, 7), c(1, 4, 3, 0)]);
}

#[test]
fn a_drainage_failure_names_its_node() {
    let e = HydroError::Drainage(17);
    assert_eq!(e, HydroError::Drainage(17));
    assert_ne!(e, HydroError::Sampling);
    assert_eq!(HydroError::Params("total_nodes"), HydroError::Params("total_nodes"));
}
