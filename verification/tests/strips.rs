use worldbuilder_engine::strips::{hollows_in, spill_levels, strip_grid};

/// A strip five cells across and five long: two single-cell pits near the start, and a
/// two-cell pit near the end whose rim is broken down to 5 at the strip's last row.
fn pitted() -> Vec<u64> {
    vec![
        9, 9, 9, 9, 9, //
        9, 1, 9, 2, 9, //
        9, 9, 9, 9, 9, //
        9, 3, 3, 9, 9, //
        9, 9, 5, 9, 9, //
    ]
}

#[test]
fn a_strip_grid_links_side_by_side_cells() {
    let grid = strip_grid(3, 2);
    assert_eq!(grid.len(), 6);
    assert_eq!(grid.neighbours(0).to_vec(), vec![1, 3]);
    assert_eq!(grid.neighbours(2).to_vec(), vec![1, 5]);
    assert_eq!(grid.neighbours(4).to_vec(), vec![1, 3, 5]);
}

#[test]
fn edge_cells_spill_at_their_own_ground() {
    let ground = pitted();
    let spill = spill_levels(5, 5, &ground);
    for i in [0usize, 4, 5, 9, 20, 22, 24] {
        assert_eq!(spill[i], ground[i]);
    }
}

#[test]
fn a_pit_fills_to_its_lowest_rim() {
    let ground = pitted();
    let spill = spill_levels(5, 5, &ground);
    assert_eq!(spill[6], 9);
    assert_eq!(spill[8], 9);
    // The pit at the end drains over the broken rim at 5.
    assert_eq!(spill[16], 5);
    assert_eq!(spill[17], 5);
    assert_eq!(spill[12], 9);
}

#[test]
fn the_hollows_of_a_strip_come_in_order_of_their_first_cell() {
    let ground = pitted();
    let hollows = hollows_in(5, 5, &ground);
    let cells: Vec<Vec<u32>> = hollows.iter().map(|h| h.cells.clone()).collect();
    assert_eq!(cells, vec![vec![6], vec![8], vec![16, 17]]);
    let levels: Vec<u64> = hollows.iter().map(|h| h.level_key).collect();
    assert_eq!(levels, vec![9, 9, 5]);
}

#[test]
fn a_hollow_is_anchored_at_its_first_lowest_cell() {
    let ground = pitted();
    let hollows = hollows_in(5, 5, &ground);
    assert_eq!(hollows[2].anchor, 16);
    let mut ground = pitted();
    ground[16] = 4;
    let hollows = hollows_in(5, 5, &ground);
    assert_eq!(hollows[2].anchor, 17);
}

#[test]
fn a_hollow_in_the_middle_touches_nothing() {
    let mut ground = vec![9u64; 49];
    ground[24] = 1;
    let hollows = hollows_in(7, 7, &ground);
    assert_eq!(hollows.len(), 1);
    assert_eq!(hollows[0].cells, vec![24]);
    assert!(!hollows[0].touches_side);
    assert!(!hollows[0].touches_end);
    let ground = pitted();
    let hollows = hollows_in(5, 5, &ground);
    assert!(hollows[0].touches_side && hollows[0].touches_end);
}

#[test]
fn a_flat_strip_has_no_hollow() {
    let ground = vec![3u64; 12];
    assert!(hollows_in(4, 3, &ground).is_empty());
    assert!(hollows_in(0, 3, &Vec::new()).is_empty());
}
