use pqueues::treap::{Treap, TreapNodePtr};

#[test]
fn treap_map_ops() {
    let mut treap: Treap<&str> = Treap::default();
    assert_eq!(None, treap.insert(4, 3, "v4"));
    assert_eq!(None, treap.insert(1, 5, "v1"));
    assert_eq!(None, treap.insert(2, 4, "v2"));
    assert_eq!(None, treap.insert(3, 1, "v3"));

    assert_eq!("v1", *treap.get(&1).unwrap());

    assert_eq!(Some((1, "v1")), treap.erase(&1));
    assert_eq!(None, treap.get(&1));

    assert_eq!(Some((2, "v2")), treap.pop());
    assert_eq!(Some((&4, &"v4")), treap.peek());
    assert_eq!(None, treap.get(&2));
    assert_eq!(Some(&"v3"), treap.get(&3));
}

#[test]
fn treap_insert_replaces() {
    let mut treap: TreapNodePtr<&str> = TreapNodePtr::default();
    assert_eq!(None, treap.insert(1, 5, "a"));
    assert_eq!(Some((1, "a")), treap.insert(1, 6, "b"));
    assert_eq!(Some(&"b"), treap.get(&1));
    assert!(treap.contains(&1));
    assert!(!treap.contains(&2));
}

#[test]
fn treap_into_vec_sorted() {
    let mut treap: TreapNodePtr<u64> = TreapNodePtr::default();
    treap.insert(3, 10, 30);
    treap.insert(1, 20, 10);
    treap.insert(2, 5, 20);
    let entries = treap.into_vec();
    assert_eq!(entries, vec![(1, 10), (2, 20), (3, 30)]);
}

#[test]
fn treap_iter_by_priority() {
    let mut treap: TreapNodePtr<&str> = TreapNodePtr::default();
    treap.insert(10, 1, "low");
    treap.insert(20, 9, "high");
    treap.insert(30, 5, "mid");
    let mut it = treap.into_iter_by_priority();
    assert_eq!(Some((20, "high")), it.next());
    assert_eq!(Some((30, "mid")), it.next());
    assert_eq!(Some((10, "low")), it.next());
    assert_eq!(None, it.next());
}

#[test]
fn treap_empty() {
    let mut treap: TreapNodePtr<u64> = TreapNodePtr::default();
    assert_eq!(None, treap.pop());
    assert!(treap.peek().is_none());
    assert_eq!(None, treap.erase(&7));
    let entries = treap.into_vec();
    assert!(entries.is_empty());
}
