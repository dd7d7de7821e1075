use persi_ds::unsync::list::List;
use persi_ds::unsync::tree::Tree;

fn pushed<T>(items: Vec<T>) -> List<T> {
    let mut list = List::default();
    for x in items {
        list = list.pushed_front(x);
    }
    list
}

#[test]
fn new_creates_empty_tree() {
    let tree = Tree::<&str>::new();

    assert!(tree.is_empty());
    assert_eq!(tree.root(), None);
    assert_eq!(tree.children(), None);
}

#[test]
fn leaf_creates_tree_w_no_children() {
    let tree = Tree::leaf(5);

    assert!(!tree.is_empty());
    assert_eq!(tree.root(), Some(&5));
    assert!(tree.children().unwrap().is_empty());
}

#[test]
fn tree_creates_tree_w_no_children() {
    let tree = Tree::tree("a", List::new());

    assert!(!tree.is_empty());
    assert_eq!(tree.root(), Some(&"a"));
    assert!(tree.children().unwrap().is_empty());
}

#[test]
fn tree_creates_tree_w_children() {
    let children = pushed(vec![Tree::leaf("b"), Tree::leaf("c")]);
    let tree = Tree::tree("a", children.clone());

    assert!(!tree.is_empty());
    assert_eq!(tree.root(), Some(&"a"));
    assert!(!tree.children().unwrap().is_empty());
    assert_eq!(tree.children(), Some(&children));
}

#[test]
fn tree_test_partial_eq() {
    let t1 = Tree::<i32>::new();
    let t2 = Tree::<i32>::new();
    let t3 = Tree::leaf(4);
    let t4 = Tree::tree(4, pushed(vec![Tree::leaf(5)]));
    let t5 = Tree::tree(4, pushed(vec![Tree::leaf(5)]));
    let t6 = Tree::tree(4, pushed(vec![Tree::leaf(6)]));
    assert!(t1 == t2);
    assert!(t1 != t3);
    assert!(t1 != t4);
    assert!(t3 != t4);
    assert!(t3 == Tree::leaf(4));
    assert!(t3 != Tree::leaf(5));
    assert!(t4 == t5);
    assert!(t4 != t6);
    assert!(t6 == t6);
}

#[test]
fn tree_is_clone() {
    let t1 = Tree::<&str>::new();
    let t2 = Tree::leaf("a");
    let t3 = Tree::tree("b", List::from_value(t2.clone()));

    assert_eq!(t1, t1.clone());
    assert_eq!(t2, t2.clone());
    assert_eq!(t3, t3.clone());
}

#[derive(Debug, PartialEq)]
struct NoClone {
    pub v: Box<String>,
}

#[test]
fn leaf_tree_can_be_cloned() {
    let v1 = NoClone {
        v: Box::new(String::from("r")),
    };
    let t1 = Tree::leaf(v1);
    let t1_clone = t1.clone();
    assert_eq!(t1, t1_clone);
}

#[test]
fn tree_can_be_cloned() {
    let v1 = NoClone {
        v: Box::new(String::from("r")),
    };
    let v2 = NoClone {
        v: Box::new(String::from("r")),
    };
    let t1 = Tree::leaf(v1);
    let t2 = Tree::tree(v2, List::from_value(t1.clone()));
    let t1_clone = t1.clone();
    assert_eq!(t1, t1_clone);
    let t2_clone = t2.clone();
    assert_eq!(t2, t2_clone);
}

#[test]
fn trees_differ_by_depth_and_width() {
    let deep = Tree::tree(1, pushed(vec![Tree::tree(2, pushed(vec![Tree::leaf(3)]))]));
    let deep_other = Tree::tree(1, pushed(vec![Tree::tree(2, pushed(vec![Tree::leaf(4)]))]));
    let wide = Tree::tree(1, pushed(vec![Tree::leaf(2), Tree::leaf(3)]));
    let narrow = Tree::tree(1, pushed(vec![Tree::leaf(2)]));

    assert!(deep != deep_other);
    assert!(wide != narrow);
    assert!(narrow != wide);
    assert!(deep == deep.clone());
    assert!(Tree::tree(1, pushed(vec![Tree::new()])) != Tree::leaf(1));
}
