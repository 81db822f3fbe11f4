use treap::union_find::UnionFind;

#[test]
fn it_works() {
    let mut uf = UnionFind::new(10);
    uf.union(3, 5);
    uf.union(7, 8);
    uf.union(7, 9);
    uf.union(5, 9);

    assert!(uf.find(3) == uf.find(8));
    assert!(uf.find(3) != uf.find(6));
    assert!(uf.find(2) != uf.find(6));
}

#[test]
fn singletons_are_their_own_roots() {
    let mut uf = UnionFind::new(4);
    for i in 0..4 {
        assert_eq!(uf.find(i), i);
    }
}

#[test]
fn union_of_equal_ranks_keeps_first_root() {
    let mut uf = UnionFind::new(3);
    uf.union(0, 1);
    assert_eq!(uf.find(1), 0);
    uf.union(2, 1);
    // rank of 0 is now above that of 2, so 2 goes below 0
    assert_eq!(uf.find(2), 0);
}

#[test]
fn union_within_one_set_changes_nothing() {
    let mut uf = UnionFind::new(5);
    uf.union(1, 2);
    let r = uf.find(2);
    uf.union(2, 1);
    assert_eq!(uf.find(1), r);
    assert_eq!(uf.find(2), r);
    assert_eq!(uf.find(0), 0);
}
