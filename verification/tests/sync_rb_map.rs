use persi_ds::sync::RBMap;

#[test]
fn store_str_as_key() {
    let rbmap: RBMap<&'_ str, i32> = RBMap::new();

    let key = "a";
    let rbmap = rbmap.inserted(key, 3);

    assert_eq!(rbmap.get(&key), Some(&3));
}

fn shareable<T: Send + Sync>(_value: &T) -> bool {
    true
}

#[test]
fn sync_map_can_be_shared_across_threads() {
    let map = RBMap::new().inserted(1, 10).inserted(2, 20);

    assert!(shareable(&map));
    assert_eq!(map.get(&2), Some(&20));
    assert_eq!(map.get_or_default(&3, &0), &0);
    assert!(map.contains_key(&1));
    assert_eq!(map.inserted_or_replaced(1, 11).get_key_value(&1), Some((&1, &11)));
}
