use mpdelta::union_find::UnionFind;

#[test]
fn union_find_fresh_keys_are_their_own_roots() {
    let mut uf = UnionFind::new();
    assert_eq!(uf.get_root(0), 0);
    assert_eq!(uf.get_root(42), 42);
    assert_eq!(uf.get_root(u64::MAX), u64::MAX);
}

#[test]
fn union_find_union_keeps_root_of_second() {
    let mut uf = UnionFind::new();
    uf.union(1, 2);
    assert_eq!(uf.get_root(1), 2);
    assert_eq!(uf.get_root(2), 2);
    uf.union(2, 3);
    assert_eq!(uf.get_root(1), 3);
    assert_eq!(uf.get_root(2), 3);
    assert_eq!(uf.get_root(3), 3);
    assert_eq!(uf.get_root(4), 4);
}

#[test]
fn union_find_merges_classes() {
    let mut uf = UnionFind::new();
    uf.union(1, 2);
    uf.union(3, 4);
    assert_ne!(uf.get_root(1), uf.get_root(3));
    uf.union(1, 4);
    let r = uf.get_root(4);
    assert_eq!(r, 4);
    for x in [1, 2, 3, 4] {
        assert_eq!(uf.get_root(x), r);
    }
    assert_eq!(uf.get_root(5), 5);
}

#[test]
fn union_find_union_within_class_changes_nothing() {
    let mut uf = UnionFind::new();
    uf.union(1, 2);
    uf.union(2, 1);
    assert_eq!(uf.get_root(1), 2);
    assert_eq!(uf.get_root(2), 2);
    uf.union(7, 7);
    assert_eq!(uf.get_root(7), 7);
}

#[test]
fn union_find_root_is_its_own_root() {
    let mut uf = UnionFind::new();
    for i in 0..20 {
        uf.union(i, i + 1);
    }
    let r = uf.get_root(0);
    assert_eq!(r, 20);
    assert_eq!(uf.get_root(r), r);
    assert_eq!(uf.get_root(10), 20);
}

#[test]
fn string_keys() {
    let mut uf = UnionFind::new();
    uf.union("a".to_string(), "b".to_string());
    uf.union("c".to_string(), "b".to_string());
    assert_eq!(uf.get_root("a".to_string()), "b".to_string());
    assert_eq!(uf.get_root("c".to_string()), "b".to_string());
    assert_eq!(uf.get_root("d".to_string()), "d".to_string());
}
