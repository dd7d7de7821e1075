use persi_ds::list::Node::{Empty, Link};
use persi_ds::list::{filter, fmap, foldl, foldr, List, Node};
use std::rc::Rc;

fn four_to_one() -> List<i32> {
    List::cons(
        4,
        &List::cons(3, &List::cons(2, &List::cons(1, &List::empty()))),
    )
}

#[test]
fn create_empty() {
    let list = List::<i32>::empty();

    match *list.head {
        Empty => assert!(true),
        _ => assert!(false),
    };
    assert!(list.is_empty());
}

#[test]
fn create_cons() {
    let list = List {
        head: Rc::new(Node::Link(3, Rc::new(Node::Empty))),
    };

    assert_eq!(list.front(), Some(&3));
    match &*list.head {
        Link(head, _tail) => {
            assert_eq!(head, &3);
        }
        _ => panic!("Should not be here."),
    };
    assert!(!list.is_empty());
}

#[test]
fn push_front_creates_new_longer_list() {
    let l1 = List::empty();
    let l2 = l1.push_front(6.7);

    assert!(l1.is_empty());
    assert_eq!(l1.front(), None);

    assert!(!l2.is_empty());
    assert_eq!(l2.front(), Some(&6.7));
}

#[test]
fn pop_front_returns_tail() {
    let l1 = List::empty();
    let l2 = List::cons(3, &l1);
    let l3 = List::cons(4, &l2);

    assert_eq!(l3.front(), Some(&4));
    let l4 = l3.pop_front();
    assert_eq!(l4.front(), Some(&3));
}

#[test]
fn filter_creates_new_list_with_fn_predicate() {
    fn even(v: &i32) -> bool {
        v % 2 == 0
    }

    let list = four_to_one();

    let evens = filter(even, &list);

    assert_eq!(evens.front(), Some(&4));
    assert_eq!(evens.pop_front().front(), Some(&2));
    assert_eq!(evens.pop_front().pop_front().front(), None);
}

#[test]
fn fmap_creates_new_list_with_fn_function() {
    fn double(v: &i32) -> i32 {
        v * 2
    }

    let list = four_to_one();

    let doubles = fmap(double, &list);

    assert_eq!(doubles.front(), Some(&8));
    assert_eq!(doubles.pop_front().front(), Some(&6));
    assert_eq!(doubles.pop_front().pop_front().front(), Some(&4));
}

#[test]
fn sum_w_foldl_and_foldr_are_equal() {
    fn sum(a: i32, b: &i32) -> i32 {
        a + b
    }

    let list = four_to_one();

    assert_eq!(foldl(sum, 0, &list), foldr(|a, b| a + b, 0, &list));
}

#[test]
fn plain_from_value_holds_one_element() {
    let list = List::from_value(7);

    assert_eq!(list.front(), Some(&7));
    assert!(list.pop_front().is_empty());
}

#[test]
fn plain_fmap_keeps_the_order_to_the_end() {
    let doubles = fmap(|v: &i32| v * 2, &four_to_one());

    let last = doubles.pop_front().pop_front().pop_front();
    assert_eq!(last.front(), Some(&2));
    assert!(last.pop_front().is_empty());
}

#[test]
fn plain_filter_of_empty_list_is_empty() {
    let list = List::<i32>::empty();

    assert!(filter(|_v: &i32| true, &list).is_empty());
    assert!(filter(|_v: &i32| false, &four_to_one()).is_empty());
}

#[test]
fn plain_folds_give_exact_values() {
    let list = four_to_one();

    assert_eq!(foldl(|a: i32, b: &i32| a + b, 0, &list), 10);
    assert_eq!(foldl(|a: i32, b: &i32| a - b, 0, &list), -10);
    assert_eq!(foldr(|a: &i32, b: i32| a - b, 0, &list), 2);
    assert_eq!(foldl(|a: i32, b: &i32| a + b, 5, &List::empty()), 5);
}

#[test]
fn plain_cons_leaves_the_tail_as_it_was() {
    let tail = List::cons(2, &List::cons(1, &List::empty()));
    let longer = List::cons(3, &tail);

    assert_eq!(tail.front(), Some(&2));
    assert_eq!(tail.pop_front().front(), Some(&1));
    assert!(Rc::ptr_eq(&longer.pop_front().head, &tail.head));
}
