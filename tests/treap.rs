use treap::treap::Treap;

fn keys_in_order(t: &Treap) -> Vec<i32> {
    (0..t.size()).map(|i| *t.select(i)).collect()
}

#[test]
fn treap_insert_then_delete_one_by_one() {
    let mut t = Treap::new();
    for k in [7, 3, 11, 1, 5, 9, 13] {
        t.insert(k);
    }
    for k in [0, 2, 4, 6, 8, 10, 12, 14] {
        t.insert(k);
    }
    assert!((0..15).all(|i| t.has(&i)));
    assert_eq!(t.size(), 15);

    t.delete(&7);
    assert!(!t.has(&7));
    assert!((0..15).filter(|i| *i != 7).all(|i| t.has(&i)));

    let mut gone = vec![7];
    for k in [3, 11, 1, 5, 9, 13, 0, 2, 4, 6, 8, 10, 12, 14] {
        t.delete(&k);
        gone.push(k);
        for i in 0..15 {
            assert_eq!(t.has(&i), !gone.contains(&i));
        }
    }
    assert_eq!(t.size(), 0);
}

#[test]
fn treap_select_and_order() {
    let mut t = Treap::new();
    for k in [5, 1, 9, 3, 7] {
        t.insert(k);
    }
    assert_eq!(*t.select(0), 1);
    assert_eq!(*t.select(4), 9);
    assert_eq!(t.order(&5), Some(2));
}

#[test]
fn treap_order_of_absent_key_is_none() {
    let mut t = Treap::new();
    assert_eq!(t.order(&3), None);
    t.insert(1);
    t.insert(5);
    assert_eq!(t.order(&3), None);
    assert_eq!(t.order(&1), Some(0));
    assert_eq!(t.order(&5), Some(1));
}

#[test]
fn treap_order_inverts_select() {
    let mut t = Treap::new();
    for k in [40, -3, 17, 8, 99, 0, -50, 23] {
        t.insert(k);
    }
    for i in 0..t.size() {
        let k = *t.select(i);
        assert_eq!(t.order(&k), Some(i));
    }
    assert_eq!(keys_in_order(&t), vec![-50, -3, 0, 8, 17, 23, 40, 99]);
}

#[test]
fn treap_size_tracks_inserts_and_deletes() {
    let mut t = Treap::new();
    assert_eq!(t.size(), 0);
    for k in 0..20 {
        t.insert(k * 3);
        assert_eq!(t.size(), k as u32 + 1);
    }
    t.delete(&9);
    assert_eq!(t.size(), 19);
    t.delete(&10);
    assert_eq!(t.size(), 19);
}

#[test]
fn treap_delete_absent_key_changes_nothing() {
    let mut t = Treap::new();
    for k in [10, 20, 30, 40] {
        t.insert(k);
    }
    let before = keys_in_order(&t);
    let root = t.index();
    t.delete(&25);
    assert_eq!(keys_in_order(&t), before);
    assert_eq!(t.index(), root);
}

#[test]
fn treap_duplicates_are_kept() {
    let mut t = Treap::new();
    t.insert(5);
    t.insert(5);
    t.insert(2);
    assert_eq!(t.size(), 3);
    assert_eq!(keys_in_order(&t), vec![2, 5, 5]);
    t.delete(&5);
    assert!(t.has(&5));
    assert_eq!(t.size(), 2);
    t.delete(&5);
    assert!(!t.has(&5));
    assert_eq!(keys_in_order(&t), vec![2]);
}

#[test]
fn treap_priorities_decide_the_root() {
    let mut t = Treap::new();
    t.insert_with_priority(1, 10);
    assert_eq!(t.index(), 0);
    t.insert_with_priority(2, 20);
    // 2 outranks 1 and rises to the root
    assert_eq!(t.index(), 1);
    t.insert_with_priority(3, 5);
    assert_eq!(t.index(), 1);
    // deleting the root rotates it below 1, the child of higher priority
    t.delete(&2);
    assert_eq!(t.index(), 0);
    assert_eq!(keys_in_order(&t), vec![1, 3]);
}

#[test]
fn treap_leaf_holds_one_key() {
    let t = Treap::leaf(42);
    assert_eq!(t.size(), 1);
    assert!(t.has(&42));
    assert_eq!(t.index(), 0);
    assert_eq!(*t.select(0), 42);
}
