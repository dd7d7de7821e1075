use persi_ds::common::key_value::KeyValue;
use persi_ds::shared::rb_node::Colour;
use persi_ds::unsync::rb_tree::RBTree;
use persi_ds::unsync::RBMap;

#[test]
fn empty_creates_map() {
    let map = RBMap::<i32, &str>::new();

    assert!(map.is_empty());
    assert!(!map.contains_key(&5));
}

#[test]
fn inserted_returns_larger_tree() {
    let m1 = RBMap::new();

    let m = m1.inserted(5, "b");

    assert!(m1.is_empty());
    assert!(!m.is_empty());
    assert!(m.contains_key(&5));
    assert!(!m.contains_key(&6));

    assert_eq!(m.get_key_value(&5), Some((&5, &"b")));
    assert_eq!(m.get_key_value(&6), None);
    assert_eq!(m.get(&5), Some(&"b"));
    assert_eq!(m.get(&6), None);
}

#[test]
fn get_or_default() {
    let m1 = RBMap::new();

    let m = m1.inserted_or_replaced("g", 5);

    assert_eq!(m1.get_or_default(&"g", &0), &0);
    assert_eq!(m.get_or_default(&"g", &0), &5);
}

#[test]
fn inserted_keeps_the_first_value() {
    let m = RBMap::new().inserted(1, "first").inserted(1, "second");

    assert_eq!(m.get(&1), Some(&"first"));
}

#[test]
fn inserted_or_replaced_keeps_the_last_value() {
    let m = RBMap::new()
        .inserted_or_replaced(1, "first")
        .inserted_or_replaced(1, "second");

    assert_eq!(m.get(&1), Some(&"second"));
    assert_eq!(m.get_key_value(&1), Some((&1, &"second")));
}

#[test]
fn inserted_or_replaced_leaves_other_keys_alone() {
    let mut m = RBMap::new();
    for k in 0..50 {
        m = m.inserted(k, k * 10);
    }

    let changed = m.inserted_or_replaced(20, -1);

    for k in 0..50 {
        let expected = if k == 20 { -1 } else { k * 10 };
        assert_eq!(changed.get(&k), Some(&expected));
        assert_eq!(m.get(&k), Some(&(k * 10)));
    }
    assert_eq!(changed.get(&50), None);
}

#[test]
fn map_of_seven_keys() {
    let mut map = RBMap::new();
    for k in [5, 3, 8, 1, 4, 7, 9] {
        map = map.inserted(k, k * 10);
    }

    assert_eq!(map.get(&4), Some(&40));
    assert!(!map.contains_key(&6));
    for k in [5, 3, 8, 1, 4, 7, 9] {
        assert!(map.contains_key(&k));
        assert_eq!(map.get(&k), Some(&(k * 10)));
    }
}

fn black_height(tree: &RBTree<KeyValue<i32, i32>>) -> Option<usize> {
    if tree.is_empty() {
        return Some(0);
    }
    let left = black_height(&tree.left())?;
    let right = black_height(&tree.right())?;
    if left != right {
        return None;
    }
    match tree.root_colour() {
        Some(Colour::Black) => Some(left + 1),
        _ => Some(left),
    }
}

#[test]
fn tree_of_seven_keys_is_balanced() {
    let mut tree = RBTree::new();
    for k in [5, 3, 8, 1, 4, 7, 9] {
        tree = tree.inserted(KeyValue(k, k * 10));
    }

    assert_eq!(tree.root_colour(), Some(Colour::Black));
    assert!(black_height(&tree).is_some());
    assert_eq!(tree.get(&4).map(|kv| kv.1), Some(40));
    assert!(!tree.contains(&6));
}

#[test]
fn map_is_unchanged_by_insertion() {
    let m1 = RBMap::new().inserted(2, "two");

    let m2 = m1.inserted(1, "one");
    let m3 = m1.inserted_or_replaced(2, "zwei");

    assert_eq!(m1.get(&1), None);
    assert_eq!(m1.get(&2), Some(&"two"));
    assert_eq!(m2.get(&1), Some(&"one"));
    assert_eq!(m3.get(&2), Some(&"zwei"));
}

#[test]
fn lookups_in_an_empty_map_find_nothing() {
    let map = RBMap::<String, i32>::new();
    let key = String::from("a");

    assert!(!map.contains_key(&key));
    assert_eq!(map.get(&key), None);
    assert_eq!(map.get_key_value(&key), None);
    assert_eq!(map.get_or_default(&key, &7), &7);
}

#[test]
fn cloned_map_holds_the_same() {
    let m = RBMap::new().inserted(1, 10).inserted(2, 20);

    let c = m.clone();

    assert_eq!(c.get(&1), Some(&10));
    assert_eq!(c.get(&2), Some(&20));
    assert_eq!(c.get(&3), None);
}

#[test]
fn key_value_compares_by_key_alone() {
    assert!(KeyValue(1, "a") == KeyValue(1, "b"));
    assert!(KeyValue(1, "b") < KeyValue(2, "a"));
    assert!(KeyValue(3, "a") > KeyValue(2, "b"));
    assert!(KeyValue(1, "a") == 1);
    assert!(KeyValue(1, "a") < 2);
    assert_eq!(KeyValue(4, 5).clone().1, 5);
}
