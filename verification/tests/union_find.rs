use cp_rust::data_structures::union_find::UnionFind;

#[test]
fn test_union_find() {
    let mut uf = UnionFind::with_capacity(5);

    assert_eq!(uf.num_sets(), 5);
    assert_eq!(uf.size_of_set(0), 1);
    assert_eq!(uf.size_of_set(1), 1);
    assert_eq!(uf.size_of_set(2), 1);
    assert_eq!(uf.size_of_set(3), 1);
    assert_eq!(uf.size_of_set(4), 1);

    assert_eq!(uf.union_set(0, 1), true);
    assert_eq!(uf.num_sets(), 4);
    assert_eq!(uf.size_of_set(0), 2);
    assert_eq!(uf.size_of_set(1), 2);
    assert_eq!(uf.size_of_set(2), 1);
    assert_eq!(uf.size_of_set(3), 1);
    assert_eq!(uf.size_of_set(4), 1);

    assert_eq!(uf.union_set(2, 3), true);
    assert_eq!(uf.num_sets(), 3);
    assert_eq!(uf.size_of_set(0), 2);
    assert_eq!(uf.size_of_set(1), 2);
    assert_eq!(uf.size_of_set(2), 2);
    assert_eq!(uf.size_of_set(3), 2);
    assert_eq!(uf.size_of_set(4), 1);

    assert_eq!(uf.union_set(0, 2), true);
    assert_eq!(uf.num_sets(), 2);
    assert_eq!(uf.size_of_set(0), 4);
    assert_eq!(uf.size_of_set(1), 4);
    assert_eq!(uf.size_of_set(2), 4);
    assert_eq!(uf.size_of_set(3), 4);
    assert_eq!(uf.size_of_set(4), 1);

    assert_eq!(uf.union_set(0, 4), true);
    assert_eq!(uf.num_sets(), 1);
    assert_eq!(uf.size_of_set(0), 5);
    assert_eq!(uf.size_of_set(1), 5);
    assert_eq!(uf.size_of_set(2), 5);
    assert_eq!(uf.size_of_set(3), 5);
    assert_eq!(uf.size_of_set(4), 5);
}

#[test]
fn union_of_same_set_changes_nothing() {
    let mut uf = UnionFind::with_capacity(4);
    assert_eq!(uf.set_size(), 4);
    assert!(uf.union_set(0, 1));
    assert!(!uf.union_set(1, 0));
    assert!(!uf.union_set(2, 2));
    assert_eq!(uf.num_sets(), 3);
    assert!(uf.is_same_set(0, 1));
    assert!(!uf.is_same_set(0, 2));
    assert_eq!(uf.find_set(0), uf.find_set(1));
    assert_eq!(uf.find_set(3), 3);
}

#[test]
fn empty_union_find() {
    let uf = UnionFind::new();
    assert_eq!(uf.num_sets(), 0);
    assert_eq!(uf.set_size(), 0);
    let uf = UnionFind::default();
    assert_eq!(uf.set_size(), 0);
}

#[test]
fn representative_is_one_of_the_two() {
    let mut uf = UnionFind::with_capacity(6);
    uf.union_set(0, 1);
    uf.union_set(2, 3);
    let a = uf.find_set(0);
    let b = uf.find_set(3);
    assert!(uf.union_set(1, 2));
    let r = uf.find_set(0);
    assert!(r == a || r == b);
    for k in 0..4 {
        assert_eq!(uf.find_set(k), r);
    }
    assert_eq!(uf.find_set(4), 4);
    assert_eq!(uf.find_set(5), 5);
    assert_eq!(uf.size_of_set(2), 4);
    assert_eq!(uf.num_sets(), 3);
}

