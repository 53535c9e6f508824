use gem::aig::{DriverType, AIG};
use gem::layout::Layout;
use gem::plan::Plan;
use gem::sorts::{sort_indices, sort_pairs, sort_triples};
use indexmap::IndexSet;

#[test]
fn values_are_sorted() {
    let mut indices = vec![3, 1, 2, 1];
    sort_indices(&mut indices);
    assert_eq!(indices, vec![1, 1, 2, 3]);
    let mut pairs = vec![(2, 0), (1, 9), (1, 3)];
    sort_pairs(&mut pairs);
    assert_eq!(pairs, vec![(1, 3), (1, 9), (2, 0)]);
    let mut triples = vec![(1, 2, 4), (0, 9, 9), (1, 2, 3), (1, 1, 7)];
    sort_triples(&mut triples);
    assert_eq!(triples, vec![(0, 9, 9), (1, 1, 7), (1, 2, 3), (1, 2, 4)]);
}

#[test]
fn cells_are_filled_and_purged() {
    let drivers = vec![
        DriverType::Other,
        DriverType::InputPort(0),
        DriverType::InputPort(1),
        DriverType::AndGate(2, 5),
    ];
    let aig = AIG { num_aigpins: 3, drivers, fanouts_start: vec![0, 0, 1, 2, 2], fanouts: vec![3, 3] };
    let outs = IndexSet::from([3]);
    let stops = IndexSet::new();
    let plan = Plan::new(&aig, &outs, &stops);
    assert_eq!((plan.level_of(1), plan.level_of(3), plan.max_level()), (0, 1, 1));
    let mut lay = Layout::new();
    assert_eq!((lay.width(0), lay.width(13)), (8192, 1));
    plan.place_bit(&mut lay, 2, 5, 3);
    // passed through row 2, computed in row 1.
    assert_eq!((lay.get(2, 5), lay.get(1, 5)), (3, 3));
    assert_eq!((lay.get(0, 5), lay.get(0, 5 + 4096)), (1, 2));
    assert!(lay.is_placed(3) && !lay.is_placed(1));
    assert_eq!(lay.first_free(1, 5), 6);
    assert_eq!(lay.occupied(1, 0, 4096), 1);
    lay.purge_bit(2, 5);
    assert!(!lay.is_placed(3));
    assert_eq!((lay.get(0, 5), lay.get(0, 5 + 4096)), (usize::MAX, usize::MAX));
    assert_eq!(lay.first_free(1, 5), 5);
    assert_eq!(lay.occupied(1, 0, 4096), 0);
    lay.set_cell(3, 1, 9);
    assert_eq!(lay.get(3, 1), 9);
}
