use pqueues::dary::DWayHeap;

#[test]
fn test_heap() {
    let mut pq: DWayHeap<3> = DWayHeap::with_capacity(5);
    pq.insert(5);
    pq.insert(5);
    pq.insert(6);
    pq.insert(3);

    assert_eq!(pq.pop().unwrap(), 6);
    assert_eq!(pq.pop().unwrap(), 5);
    assert_eq!(pq.pop().unwrap(), 5);

    pq.insert(2);
    assert_eq!(*pq.peek().unwrap(), 3);
    assert_eq!(pq.pop().unwrap(), 3);

    pq.insert(7);
    assert_eq!(pq.pop().unwrap(), 7);
    assert_eq!(pq.pop().unwrap(), 2);
    assert_eq!(pq.pop(), None)
}

#[test]
fn test_from_vec() {
    let mut data: Vec<u64> = vec![4, 5, 6, 3, 3, 2, 1, 3, 2, 4, 9, 10];
    let mut pq: DWayHeap<3> = DWayHeap::from_vec(data.clone());

    data.sort();

    let mut drained: Vec<u64> = Vec::new();
    while let Some(v) = pq.pop() {
        drained.push(v);
    }
    let descending: Vec<u64> = data.into_iter().rev().collect();
    assert_eq!(descending, drained);
}

#[test]
fn test_seq() {
    let n: u64 = 1000;
    let mut pq: DWayHeap<2> = DWayHeap::with_capacity(n as usize);
    for i in (1..=n).rev() {
        pq.insert(i);
    }
    for i in (1..=n).rev() {
        assert_eq!(i, pq.pop().unwrap());
    }
    assert_eq!(0, pq.len());
}

#[test]
fn dary_parent_formula() {
    assert_eq!(DWayHeap::<3>::parent(0), 0);
    assert_eq!(DWayHeap::<3>::parent(1), 0);
    assert_eq!(DWayHeap::<3>::parent(3), 0);
    assert_eq!(DWayHeap::<3>::parent(4), 1);
    assert_eq!(DWayHeap::<3>::parent(6), 1);
    assert_eq!(DWayHeap::<3>::parent(7), 2);
    assert_eq!(DWayHeap::<2>::parent(2), 0);
    assert_eq!(DWayHeap::<2>::parent(3), 1);
}

#[test]
fn dary_empty() {
    let mut pq: DWayHeap<4> = DWayHeap::new();
    assert_eq!(pq.len(), 0);
    assert!(pq.peek().is_none());
    assert_eq!(pq.pop(), None);
}
