use worldbuilder_engine::heap::FloodQueue;
use worldbuilder_engine::keys::{sortable_bits, unsortable_bits};

fn sortable(value: f64) -> u64 {
    sortable_bits(value.to_bits())
}

fn unsortable(key: u64) -> f64 {
    f64::from_bits(unsortable_bits(key))
}

#[test]
fn sortable_keys_order_like_the_numbers() {
    let values = [-1.0e9, -1.0, -1.0e-300, 0.0, 1.0e-300, 1.0, 1.0e9];
    for pair in values.windows(2) {
        assert!(sortable(pair[0]) < sortable(pair[1]), "{} < {}", pair[0], pair[1]);
    }
}

#[test]
fn sortable_round_trips_bit_for_bit() {
    for value in [-1234.5678, -0.0, 0.0, 3.25, f64::MAX, f64::MIN, 1.0e-310] {
        assert_eq!(unsortable(sortable(value)).to_bits(), value.to_bits());
    }
}

#[test]
fn the_queue_pops_lowest_first_and_breaks_ties_by_node() {
    let mut queue = FloodQueue::new();
    queue.push(sortable(5.0), 7);
    queue.push(sortable(-2.0), 9);
    queue.push(sortable(5.0), 3);
    queue.push(sortable(1.0), 1);
    let order: Vec<(f64, u32)> =
        std::iter::from_fn(|| queue.pop()).map(|(key, node)| (unsortable(key), node)).collect();
    assert_eq!(order, vec![(-2.0, 9), (1.0, 1), (5.0, 3), (5.0, 7)]);
    assert!(queue.is_empty());
}

#[test]
fn ties_break_by_ground_then_node() {
    let mut queue = FloodQueue::new();
    queue.push_tied(sortable(5.0), sortable(3.0), 7);
    queue.push_tied(sortable(5.0), sortable(1.0), 9);
    queue.push_tied(sortable(5.0), sortable(1.0), 2);
    let order: Vec<u32> = std::iter::from_fn(|| queue.pop()).map(|(_, node)| node).collect();
    assert_eq!(order, vec![2, 9, 7]);
}

#[test]
fn negative_zero_sorts_just_below_positive_zero() {
    assert!(sortable(-0.0) < sortable(0.0));
    assert_eq!(sortable(0.0), 0x8000_0000_0000_0000);
    assert_eq!(sortable(-0.0), 0x7fff_ffff_ffff_ffff);
}

#[test]
fn a_key_and_its_bits_undo_each_other() {
    for key in [0u64, 1, 0x7fff_ffff_ffff_ffff, 0x8000_0000_0000_0000, u64::MAX, 0x1234_5678_9abc_def0] {
        assert_eq!(sortable_bits(unsortable_bits(key)), key);
    }
}

#[test]
fn the_queue_counts_what_it_holds() {
    let mut queue = FloodQueue::new();
    assert_eq!(queue.len(), 0);
    assert!(queue.is_empty());
    queue.push(sortable(2.0), 4);
    queue.push(sortable(2.0), 4);
    assert_eq!(queue.len(), 2);
    assert_eq!(queue.pop(), Some((sortable(2.0), 4)));
    assert_eq!(queue.pop(), Some((sortable(2.0), 4)));
    assert_eq!(queue.pop(), None);
}

#[test]
fn pop_entry_hands_back_the_tie_key() {
    let mut queue = FloodQueue::new();
    queue.push_tied(sortable(1.0), sortable(0.5), 3);
    queue.push_tied(sortable(1.0), sortable(0.25), 8);
    assert_eq!(queue.pop_entry(), Some((sortable(1.0), sortable(0.25), 8)));
    assert_eq!(queue.pop_entry(), Some((sortable(1.0), sortable(0.5), 3)));
    assert_eq!(queue.pop_entry(), None);
}
