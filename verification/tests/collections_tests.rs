use kit_kernel::collections::TreeMap;

#[test]
fn treemap_insert_replaces_and_returns_old_value() {
    let mut m = TreeMap::new();
    assert_eq!(m.insert(17, "a"), None);
    assert_eq!(m.insert(18, "b"), None);
    assert_eq!(m.insert(17, "c"), Some("a"));
    assert_eq!(m.len(), 2);
    assert_eq!(m.lookup(&17), Some(&"c"));
    assert_eq!(m.lookup(&18), Some(&"b"));
    assert_eq!(m.lookup(&19), None);
}

#[test]
fn treemap_lookup_mut_changes_the_value() {
    let mut m = TreeMap::new();
    m.insert(5, 50);
    if let Some(v) = m.lookup_mut(&5) {
        *v += 1;
    }
    assert_eq!(m.lookup(&5), Some(&51));
    assert!(m.lookup_mut(&6).is_none());
}

#[test]
fn treemap_many_keys_stay_reachable() {
    let mut m = TreeMap::new();
    for k in 0..200u64 {
        m.insert((k * 37) % 200, k);
    }
    assert_eq!(m.len(), 200);
    for k in 0..200u64 {
        assert_eq!(m.lookup(&((k * 37) % 200)), Some(&k));
    }
}

#[test]
fn treemap_delete_removes_only_its_key() {
    let mut m = TreeMap::new();
    for k in 0..50u64 {
        m.insert(k, k * 10);
    }
    assert_eq!(m.delete(&20), Some(200));
    assert_eq!(m.delete(&20), None);
    assert_eq!(m.len(), 49);
    assert_eq!(m.lookup(&20), None);
    assert_eq!(m.lookup(&0), Some(&0));
    assert_eq!(m.lookup(&49), Some(&490));
    assert_eq!(m.delete(&100), None);
}

#[test]
fn treemap_delete_leaf_and_root() {
    let mut m = TreeMap::new();
    m.insert(1, 'x');
    assert_eq!(m.delete(&1), Some('x'));
    assert_eq!(m.len(), 0);
    assert_eq!(m.lookup(&1), None);
    m.insert(17, 'a');
    m.insert(18, 'b');
    assert_eq!(m.delete(&17), Some('a'));
    assert_eq!(m.lookup(&18), Some(&'b'));
}

#[test]
fn treemap_len_counts_keys_through_overwrites_and_absent_deletes() {
    let mut m = TreeMap::<char>::new();
    m.insert(1, 'a');
    m.insert(2, 'b');
    m.insert(1, 'c');
    assert_eq!(m.delete(&3), None);
    assert_eq!(m.len(), 2);
    assert_eq!(m.lookup(&1), Some(&'c'));
    assert_eq!(m.delete(&1), Some('c'));
    assert_eq!(m.len(), 1);
    assert_eq!(m.lookup(&1), None);
    assert_eq!(m.lookup(&2), Some(&'b'));
}

#[test]
fn treemap_delete_after_insert_restores_the_map() {
    let mut m = TreeMap::<u32>::new();
    for k in 0..64u64 {
        m.insert(k * 3, k as u32);
    }
    assert_eq!(m.insert(1000, 7), None);
    assert_eq!(m.delete(&1000), Some(7));
    assert_eq!(m.len(), 64);
    for k in 0..64u64 {
        assert_eq!(m.lookup(&(k * 3)), Some(&(k as u32)));
        assert_eq!(m.lookup(&(k * 3 + 1)), None);
    }
}
