use cortex::lattice::HLLSet;

fn set(bits: &[u32]) -> HLLSet {
    HLLSet::from_bits(bits)
}

#[test]
fn sketches_are_sets_of_addresses() {
    let h = set(&[9, 1, 9, 4]);
    assert_eq!(h.positions(), &[1, 4, 9]);
    assert_eq!(h.popcount(), 3);
    assert!(h.contains(4) && !h.contains(5));
    assert!(!h.is_empty() && HLLSet::new().is_empty());
    assert_eq!(HLLSet::default(), HLLSet::new());
}

#[test]
fn positions_become_addresses() {
    let h = HLLSet::from_positions(&[(1, 0), (0, 31), (1, 0)]);
    assert_eq!(h.positions(), &[31, 32]);
}

#[test]
fn union_intersection_difference() {
    let a = set(&[1, 2, 3]);
    let b = set(&[2, 3, 4]);
    assert_eq!(a.union(&b).positions(), &[1, 2, 3, 4]);
    assert_eq!(a.intersection(&b).positions(), &[2, 3]);
    assert_eq!(a.difference(&b).positions(), &[1]);
    assert_eq!(a.union(&a), a);
    assert_eq!(a.union(&b), b.union(&a));
}

#[test]
fn noether_invariants_hold_on_sketches() {
    let prev = set(&[0, 2, 5, 8, 1, 4]);
    let now = set(&[0, 2, 5, 8, 3, 12]);
    let departed = prev.difference(&now);
    let retained = prev.intersection(&now);
    let novel = now.difference(&prev);
    assert_eq!(departed.union(&retained).popcount(), prev.popcount());
    assert_eq!(retained.union(&novel).popcount(), now.popcount());
    assert_eq!(departed.intersection(&novel).popcount(), 0);
    assert_eq!(departed.union(&retained), prev);
    assert_eq!(retained.union(&novel), now);
}
