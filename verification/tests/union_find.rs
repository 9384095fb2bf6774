use tipe_project::datastructures::union_find::UnionFind;

#[test]
fn union_find_starts_with_singletons() {
    let mut uf = UnionFind::new(4);
    for i in 0..4 {
        assert_eq!(uf.find(i), i);
    }
    assert!(!uf.are_in_same_class(0, 1));
    assert!(uf.are_in_same_class(2, 2));
}

#[test]
fn union_find_merges_classes() {
    let mut uf = UnionFind::new(6);
    uf.union(0, 1);
    uf.union(2, 3);
    assert!(uf.are_in_same_class(0, 1));
    assert!(uf.are_in_same_class(3, 2));
    assert!(!uf.are_in_same_class(1, 2));
    uf.union(1, 3);
    assert!(uf.are_in_same_class(0, 2));
    assert!(uf.are_in_same_class(0, 3));
    assert!(!uf.are_in_same_class(0, 4));
    assert!(!uf.are_in_same_class(4, 5));
    let r = uf.find(0);
    assert_eq!(uf.find(1), r);
    assert_eq!(uf.find(2), r);
    assert_eq!(uf.find(3), r);
    assert_eq!(uf.find(r), r);
}

#[test]
fn union_find_union_with_itself_changes_nothing() {
    let mut uf = UnionFind::new(3);
    uf.union(1, 1);
    assert_eq!(uf.find(1), 1);
    assert!(!uf.are_in_same_class(0, 1));
    assert!(!uf.are_in_same_class(1, 2));
}

#[test]
fn union_find_long_chain_compresses() {
    let mut uf = UnionFind::new(50);
    for i in 0..49 {
        uf.union(i, i + 1);
    }
    let r = uf.find(49);
    for i in 0..50 {
        assert_eq!(uf.find(i), r);
    }
}

#[test]
fn union_find_connexe_and_merge_join_classes() {
    let mut uf = UnionFind::new(4);
    assert!(!uf.connexe(0, 3));
    uf.merge(0, 3);
    assert!(uf.connexe(0, 3));
    assert!(uf.are_in_same_class(3, 0));
    assert!(!uf.connexe(1, 3));
}
