use evm_coverage::IterableMapping;

#[test]
fn new_mapping_is_empty() {
    let mapping: IterableMapping<i32, bool> = IterableMapping::new();
    assert_eq!(mapping.total, 0);
    assert!(mapping.map.is_empty());
    assert_eq!(mapping.at(0), None);
}

#[test]
fn put_binds_a_new_key() {
    let mapping = IterableMapping::new().put(3, true).put(5, false);
    assert_eq!(mapping.total, 2);
    assert_eq!(mapping.at(3), Some(&true));
    assert_eq!(mapping.at(5), Some(&false));
    assert_eq!(mapping.at(4), None);
}

#[test]
fn put_keeps_the_value_of_a_bound_key() {
    let mapping = IterableMapping::new().put(7u64, "first").put(7u64, "second");
    assert_eq!(mapping.total, 1);
    assert_eq!(mapping.at(7), Some(&"first"));
    assert_eq!(mapping.map.len(), 1);
}

#[test]
fn total_follows_the_keys() {
    let mut mapping = IterableMapping::new();
    for key in [4, 1, 4, 2, 1, 9, 4] {
        mapping = mapping.put(key, key * 2);
    }
    assert_eq!(mapping.total, 4);
    assert_eq!(mapping.total, mapping.map.len());
    assert_eq!(mapping.at(9), Some(&18));
}
