use persi_ds::shared::rb_node::Colour;
use persi_ds::unsync::rb_tree::RBTree;

/// The black height of the tree, or `None` where two ways down pass
/// different numbers of black nodes or a red node has a red child.
fn checked_black_height(tree: &RBTree<i32>) -> Option<usize> {
    if tree.is_empty() {
        return Some(0);
    }
    let left = tree.left();
    let right = tree.right();
    if tree.root_colour() == Some(Colour::Red)
        && (left.root_colour() == Some(Colour::Red) || right.root_colour() == Some(Colour::Red))
    {
        return None;
    }
    let l = checked_black_height(&left)?;
    let r = checked_black_height(&right)?;
    if l != r {
        return None;
    }
    match tree.root_colour() {
        Some(Colour::Black) => Some(l + 1),
        _ => Some(l),
    }
}

fn in_order(tree: &RBTree<i32>, into: &mut Vec<i32>) {
    if tree.is_empty() {
        return;
    }
    in_order(&tree.left(), into);
    into.push(*tree.root().unwrap());
    in_order(&tree.right(), into);
}

fn depth(tree: &RBTree<i32>) -> usize {
    if tree.is_empty() {
        0
    } else {
        1 + depth(&tree.left()).max(depth(&tree.right()))
    }
}

#[test]
fn new_tree_is_empty() {
    let tree = RBTree::<i32>::new();

    assert!(tree.is_empty());
    assert_eq!(tree.root(), None);
    assert_eq!(tree.root_colour(), None);
    assert!(!tree.contains(&1));
    assert_eq!(tree.get(&1), None);
    assert_eq!(tree.get_or_default(&1, &7), &7);
}

#[test]
fn leaf_is_one_red_node() {
    let tree = RBTree::leaf(5);

    assert!(!tree.is_empty());
    assert_eq!(tree.root(), Some(&5));
    assert_eq!(tree.root_colour(), Some(Colour::Red));
    assert!(tree.left().is_empty());
    assert!(tree.right().is_empty());
}

#[test]
fn first_insertion_has_a_black_root() {
    let tree = RBTree::new().inserted(1);

    assert_eq!(tree.root_colour(), Some(Colour::Black));
    assert_eq!(tree.root(), Some(&1));
    assert_eq!(checked_black_height(&tree), Some(1));
}

#[test]
fn insertion_into_a_leaf_blackens_the_root() {
    let tree = RBTree::leaf(2).inserted(1);

    assert_eq!(tree.root_colour(), Some(Colour::Black));
    assert_eq!(tree.left().root_colour(), Some(Colour::Red));
    assert!(checked_black_height(&tree).is_some());
}

#[test]
fn left_left_case_is_rotated_right() {
    let tree = RBTree::new().inserted(3).inserted(2).inserted(1);

    assert_eq!(tree.root(), Some(&2));
    assert_eq!(tree.root_colour(), Some(Colour::Black));
    assert_eq!(tree.left().root(), Some(&1));
    assert_eq!(tree.left().root_colour(), Some(Colour::Black));
    assert_eq!(tree.right().root(), Some(&3));
    assert_eq!(tree.right().root_colour(), Some(Colour::Black));
}

#[test]
fn left_right_case_lifts_the_inner_grandchild() {
    let tree = RBTree::new().inserted(3).inserted(1).inserted(2);

    assert_eq!(tree.root(), Some(&2));
    assert_eq!(tree.left().root(), Some(&1));
    assert_eq!(tree.right().root(), Some(&3));
    assert_eq!(checked_black_height(&tree), Some(2));
}

#[test]
fn right_left_case_lifts_the_inner_grandchild() {
    let tree = RBTree::new().inserted(1).inserted(3).inserted(2);

    assert_eq!(tree.root(), Some(&2));
    assert_eq!(tree.left().root(), Some(&1));
    assert_eq!(tree.right().root(), Some(&3));
    assert_eq!(checked_black_height(&tree), Some(2));
}

#[test]
fn right_right_case_is_rotated_left() {
    let tree = RBTree::new().inserted(1).inserted(2).inserted(3);

    assert_eq!(tree.root(), Some(&2));
    assert_eq!(tree.left().root(), Some(&1));
    assert_eq!(tree.right().root(), Some(&3));
    assert_eq!(checked_black_height(&tree), Some(2));
}

#[test]
fn rules_hold_after_every_insertion() {
    let mut tree = RBTree::new();
    let mut x: i32 = 17;
    for _ in 0..500 {
        x = (x * 73 + 41) % 1009;
        tree = tree.inserted(x);
        assert_eq!(tree.root_colour(), Some(Colour::Black));
        assert!(checked_black_height(&tree).is_some());
    }
}

#[test]
fn ascending_insertions_stay_shallow() {
    let mut tree = RBTree::new();
    for x in 0..1024 {
        tree = tree.inserted(x);
    }

    assert!(checked_black_height(&tree).is_some());
    assert!(depth(&tree) <= 20);
    let mut items = Vec::new();
    in_order(&tree, &mut items);
    assert_eq!(items, (0..1024).collect::<Vec<i32>>());
}

#[test]
fn elements_stay_in_order_without_duplicates() {
    let mut tree = RBTree::new();
    for x in [5, 3, 8, 1, 4, 7, 9, 3, 5, 9] {
        tree = tree.inserted(x);
    }

    let mut items = Vec::new();
    in_order(&tree, &mut items);
    assert_eq!(items, vec![1, 3, 4, 5, 7, 8, 9]);
}

#[test]
fn contains_holds_after_insertion_and_later_insertions() {
    let mut tree = RBTree::new();
    for x in [10, 20, 30] {
        tree = tree.inserted(x);
        assert!(tree.contains(&x));
    }
    let before = tree.clone();
    for y in [5, 15, 25, 35, 20] {
        tree = tree.inserted(y);
        assert!(tree.contains(&10));
        assert!(tree.contains(&20));
        assert!(tree.contains(&30));
    }

    assert!(!before.contains(&5));
    assert!(!tree.contains(&11));
    assert_eq!(tree.get(&25), Some(&25));
    assert_eq!(tree.get_or_default(&26, &0), &0);
    assert_eq!(tree.get_or_default(&35, &0), &35);
}

fn colours(tree: &RBTree<i32>, into: &mut Vec<Option<Colour>>) {
    into.push(tree.root_colour());
    if !tree.is_empty() {
        colours(&tree.left(), into);
        colours(&tree.right(), into);
    }
}

#[test]
fn replacing_keeps_nodes_and_colours() {
    let mut tree = RBTree::new();
    for x in [5, 3, 8, 1, 4, 7, 9, 2, 6] {
        tree = tree.inserted(x);
    }
    let mut before = Vec::new();
    colours(&tree, &mut before);

    for x in [5, 1, 9, 6] {
        let replaced = tree.inserted_or_replaced(x);
        let mut after = Vec::new();
        colours(&replaced, &mut after);
        assert_eq!(before, after);
        assert_eq!(replaced.root(), tree.root());
    }
}

#[test]
fn lookups_in_an_empty_tree_find_nothing() {
    let tree = RBTree::<String>::new();
    let key = String::from("a");
    let other = String::from("b");

    assert!(!tree.contains(&key));
    assert_eq!(tree.get(&key), None);
    assert_eq!(tree.get_or_default(&key, &other), &other);
}

#[test]
fn tree_is_unchanged_by_insertion() {
    let t1 = RBTree::new().inserted(2).inserted(1).inserted(3);
    let mut before = Vec::new();
    in_order(&t1, &mut before);

    let t2 = t1.inserted(4);
    let t3 = t1.inserted_or_replaced(2);

    let mut after = Vec::new();
    in_order(&t1, &mut after);
    assert_eq!(before, after);
    assert!(!t1.contains(&4));
    assert!(t2.contains(&4));
    assert!(t3.contains(&2));
}
