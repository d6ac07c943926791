use pqueues::heap::{parent, HeapCore};
use pqueues::slot::{
    sift_down_choose, sift_down_swap_needed, sift_up_step, ChildChoice, Item, SiftUpOutcome,
};

#[test]
fn concurrent_heap_test_heap() {
    let mut pq: HeapCore = HeapCore::new(10);
    pq.push(5);
    pq.push(5);
    pq.push(6);
    pq.push(3);

    assert_eq!(pq.pop(), 6);
    assert_eq!(pq.pop(), 5);
    assert_eq!(pq.pop(), 5);

    pq.push(2);
    assert_eq!(pq.pop(), 3);

    pq.push(7);
    assert_eq!(pq.pop(), 7);
    assert_eq!(pq.pop(), 2);
}

#[test]
fn concurrent_heap_test_seq() {
    let n: u64 = 1000;
    let mut pq = HeapCore::new(n as usize);
    for i in (1..=n).rev() {
        pq.push(i);
    }
    for i in 0..n as usize {
        assert_eq!(pq.available_at(i), Some(n - i as u64));
    }
    for v in (1..=n).rev() {
        assert_eq!(v, pq.pop());
        for j in 0..(v - 1) as usize {
            assert!(pq.available_at(j).is_some());
        }
    }
    assert_eq!(0, pq.len());
}

#[test]
fn zero_capacity_rejected() {
    assert!(HeapCore::try_new(0).is_none());
    let h = HeapCore::try_new(1).unwrap();
    assert_eq!(h.len(), 0);
    assert_eq!(h.capacity(), 1);
}

#[test]
fn interleaved_equal_cap() {
    // One producer and one consumer taking strict turns on a heap whose
    // capacity equals the element count.
    let n: u64 = 15;
    let mut pq = HeapCore::new(n as usize);
    let mut seen: Vec<u64> = Vec::new();
    for i in (1..=n).rev() {
        pq.push(i);
        seen.push(pq.pop());
    }
    assert_eq!(0, pq.len());
    seen.sort();
    seen.reverse();
    let expected: Vec<u64> = (1..=n).rev().collect();
    assert_eq!(seen, expected);
}

#[test]
fn interleaved_under_cap() {
    // The producer runs ahead until the half-sized heap is full, then the
    // consumer takes one: conservation must hold across the whole run.
    let n: u64 = 1000;
    let cap: usize = (n / 2) as usize;
    let mut pq = HeapCore::new(cap);
    let mut seen: Vec<u64> = Vec::new();
    for i in (1..=n).rev() {
        if pq.len() == cap {
            seen.push(pq.pop());
        }
        pq.push(i);
    }
    while pq.len() > 0 {
        seen.push(pq.pop());
    }
    seen.sort();
    let expected: Vec<u64> = (1..=n).collect();
    assert_eq!(seen, expected);
}

#[test]
fn parent_formula() {
    assert_eq!(parent(0), 0);
    assert_eq!(parent(1), 0);
    assert_eq!(parent(2), 0);
    assert_eq!(parent(3), 1);
    assert_eq!(parent(4), 1);
    assert_eq!(parent(5), 2);
    assert_eq!(parent(6), 2);
}

#[test]
fn slot_transitions() {
    let mut s: Item<u64> = Item::Available(7);
    assert_eq!(s.get_val(), Some(&7));
    assert_eq!(s.take_val(), 7);
    assert!(matches!(s, Item::Empty));
    assert_eq!(s.get_val(), None);

    let mut s = Item::InProgress(9, 3);
    assert_eq!(s.get_val(), Some(&9));
    s.make_available();
    assert!(matches!(s, Item::Available(9)));
}

#[test]
fn sift_up_step_table() {
    // Element must rise: the pair is exchanged.
    let mut mine: Item<u64> = Item::InProgress(7, 1);
    let mut par: Item<u64> = Item::Available(3);
    assert!(matches!(sift_up_step(&mut mine, &mut par, 1), SiftUpOutcome::Swapped));
    assert!(matches!(mine, Item::Available(3)));
    assert!(matches!(par, Item::InProgress(7, 1)));

    // Parent dominates: the element settles in place.
    let mut mine: Item<u64> = Item::InProgress(2, 1);
    let mut par: Item<u64> = Item::Available(3);
    assert!(matches!(sift_up_step(&mut mine, &mut par, 1), SiftUpOutcome::Finished));
    assert!(matches!(mine, Item::Available(2)));
    assert!(matches!(par, Item::Available(3)));

    // Empty parent: a concurrent extraction consumed the element.
    let mut mine: Item<u64> = Item::Available(5);
    let mut par: Item<u64> = Item::Empty;
    assert!(matches!(sift_up_step(&mut mine, &mut par, 1), SiftUpOutcome::Finished));
    assert!(matches!(mine, Item::Available(5)));

    // Parent mid-sift by someone: release and retry.
    let mut mine: Item<u64> = Item::InProgress(4, 1);
    let mut par: Item<u64> = Item::InProgress(6, 2);
    assert!(matches!(sift_up_step(&mut mine, &mut par, 1), SiftUpOutcome::Contended));

    // Our element moved on: keep walking upward.
    let mut mine: Item<u64> = Item::Available(4);
    let mut par: Item<u64> = Item::Available(6);
    assert!(matches!(sift_up_step(&mut mine, &mut par, 1), SiftUpOutcome::Climb));
}

#[test]
fn sift_down_choices() {
    let left: Item<u64> = Item::Available(4);
    let right: Item<u64> = Item::Available(9);
    assert!(matches!(sift_down_choose(&left, Some(&right)), ChildChoice::Right));
    // Ties go left.
    let right: Item<u64> = Item::Available(4);
    assert!(matches!(sift_down_choose(&left, Some(&right)), ChildChoice::Left));
    let right: Item<u64> = Item::Empty;
    assert!(matches!(sift_down_choose(&left, Some(&right)), ChildChoice::Left));
    let empty: Item<u64> = Item::Empty;
    assert!(matches!(sift_down_choose(&empty, Some(&right)), ChildChoice::NoChild));
    assert!(matches!(sift_down_choose(&left, None), ChildChoice::Left));

    let curr: Item<u64> = Item::Available(5);
    assert!(sift_down_swap_needed(&curr, &Item::Available(6)));
    assert!(!sift_down_swap_needed(&curr, &Item::Available(5)));
    assert!(!sift_down_swap_needed(&curr, &Item::Empty));
}
