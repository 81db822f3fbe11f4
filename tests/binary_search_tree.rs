use treap::binary_search_tree::Tree;

#[test]
fn insert() {
    let mut bst = Tree::new();

    bst.insert(5);
    bst.insert(2);

    assert_eq!(
        (0..10).map(|i| bst.has(i)).collect::<Vec<_>>(),
        [false, false, true, false, false, true, false, false, false, false]
    );

    bst.insert(3);
    bst.insert(1);
    bst.insert(7);

    assert_eq!(
        (0..10).map(|i| bst.has(i)).collect::<Vec<_>>(),
        [false, true, true, true, false, true, false, true, false, false]
    );
}

#[test]
fn insert_and_delete() {
    let mut bst = Tree::new();

    const F: bool = false;
    const T: bool = true;

    bst.insert(7);
    bst.insert(3);
    bst.insert(11);
    bst.insert(1);
    bst.insert(5);
    bst.insert(9);
    bst.insert(13);
    assert_eq!((0..15).map(|i| bst.has(i)).collect::<Vec<_>>(), [F, T, F, T, F, T, F, T, F, T, F, T, F, T, F]);

    bst.insert(0);
    bst.insert(2);
    bst.insert(4);
    bst.insert(6);
    bst.insert(8);
    bst.insert(10);
    bst.insert(12);
    bst.insert(14);
    assert_eq!((0..15).map(|i| bst.has(i)).collect::<Vec<_>>(), [T, T, T, T, T, T, T, T, T, T, T, T, T, T, T]);

    bst.delete(7);
    assert_eq!((0..15).map(|i| bst.has(i)).collect::<Vec<_>>(), [T, T, T, T, T, T, T, F, T, T, T, T, T, T, T]);
    bst.delete(3);
    assert_eq!((0..15).map(|i| bst.has(i)).collect::<Vec<_>>(), [T, T, T, F, T, T, T, F, T, T, T, T, T, T, T]);
    bst.delete(11);
    assert_eq!((0..15).map(|i| bst.has(i)).collect::<Vec<_>>(), [T, T, T, F, T, T, T, F, T, T, T, F, T, T, T]);
    bst.delete(1);
    assert_eq!((0..15).map(|i| bst.has(i)).collect::<Vec<_>>(), [T, F, T, F, T, T, T, F, T, T, T, F, T, T, T]);
    bst.delete(5);
    assert_eq!((0..15).map(|i| bst.has(i)).collect::<Vec<_>>(), [T, F, T, F, T, F, T, F, T, T, T, F, T, T, T]);
    bst.delete(9);
    assert_eq!((0..15).map(|i| bst.has(i)).collect::<Vec<_>>(), [T, F, T, F, T, F, T, F, T, F, T, F, T, T, T]);
    bst.delete(13);
    assert_eq!((0..15).map(|i| bst.has(i)).collect::<Vec<_>>(), [T, F, T, F, T, F, T, F, T, F, T, F, T, F, T]);
    bst.delete(0);
    assert_eq!((0..15).map(|i| bst.has(i)).collect::<Vec<_>>(), [F, F, T, F, T, F, T, F, T, F, T, F, T, F, T]);
    bst.delete(2);
    assert_eq!((0..15).map(|i| bst.has(i)).collect::<Vec<_>>(), [F, F, F, F, T, F, T, F, T, F, T, F, T, F, T]);
    bst.delete(4);
    assert_eq!((0..15).map(|i| bst.has(i)).collect::<Vec<_>>(), [F, F, F, F, F, F, T, F, T, F, T, F, T, F, T]);
    bst.delete(6);
    assert_eq!((0..15).map(|i| bst.has(i)).collect::<Vec<_>>(), [F, F, F, F, F, F, F, F, T, F, T, F, T, F, T]);
    bst.delete(8);
    assert_eq!((0..15).map(|i| bst.has(i)).collect::<Vec<_>>(), [F, F, F, F, F, F, F, F, F, F, T, F, T, F, T]);
    bst.delete(10);
    assert_eq!((0..15).map(|i| bst.has(i)).collect::<Vec<_>>(), [F, F, F, F, F, F, F, F, F, F, F, F, T, F, T]);
    bst.delete(12);
    assert_eq!((0..15).map(|i| bst.has(i)).collect::<Vec<_>>(), [F, F, F, F, F, F, F, F, F, F, F, F, F, F, T]);
    bst.delete(14);
    assert_eq!((0..15).map(|i| bst.has(i)).collect::<Vec<_>>(), [F, F, F, F, F, F, F, F, F, F, F, F, F, F, F]);
}

#[test]
fn insert_and_delete_duplicates() {
    let mut bst = Tree::new();

    bst.insert(0);
    bst.insert(1);
    bst.insert(0);
    bst.insert(1);
    bst.insert(0);
    bst.insert(1);

    println!("{:#?}", bst);

    assert_eq!(
        (0..2).map(|i| bst.has(i)).collect::<Vec<_>>(),
        [true, true]
    );

    bst.delete(0);
    println!("{:#?}", bst);
    bst.delete(0);
    bst.delete(1);

    assert_eq!(
        (0..2).map(|i| bst.has(i)).collect::<Vec<_>>(),
        [true, true]
    );

    bst.delete(0);

    assert_eq!(
        (0..2).map(|i| bst.has(i)).collect::<Vec<_>>(),
        [false, true]
    );
}

#[test]
fn bst_delete_absent_key_keeps_others() {
    let mut bst = Tree::leaf(4);
    bst.insert(2);
    bst.insert(6);
    bst.delete(5);
    assert_eq!((0..8).map(|i| bst.has(i)).collect::<Vec<_>>(), [false, false, true, false, true, false, true, false]);
}

#[test]
fn bst_delete_root_with_two_children_uses_successor() {
    let mut bst = Tree::new();
    for k in [8, 4, 12, 10, 14, 9] {
        bst.insert(k);
    }
    bst.delete(8);
    assert!(!bst.has(8));
    for k in [4, 9, 10, 12, 14] {
        assert!(bst.has(k));
    }
}
