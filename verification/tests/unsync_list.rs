use persi_ds::shared::list::{concat_all, mbind};
use persi_ds::unsync::list::{filter, fmap, foldl, foldr, mreturn, List, Node};
use std::rc::Rc;

fn pushed(items: Vec<i32>) -> List<i32> {
    let mut list = List::default();
    for x in items {
        list = list.pushed_front(x);
    }
    list
}

/// The list that holds `items` from front to back.
fn listed(items: Vec<i32>) -> List<i32> {
    let mut list = List::default();
    for x in items.into_iter().rev() {
        list = list.pushed_front(x);
    }
    list
}

fn to_vec(list: &List<i32>) -> Vec<i32> {
    let mut items = Vec::new();
    let mut it = list.iter();
    while let Some(x) = it.next() {
        items.push(*x);
    }
    items
}

#[test]
#[should_panic]
fn popped_front_on_empty_list_panics() {
    let list = List::<i32>::new();
    list.popped_front();
}

#[test]
fn pushed_front_creates_new_longer_list() {
    let l1 = List::new();
    let l2 = l1.pushed_front(6.7);

    assert!(l1.is_empty());
    assert_eq!(l1.front(), None);

    assert!(!l2.is_empty());
    assert_eq!(l2.front(), Some(&6.7));
}

#[test]
fn popped_front_returns_tail() {
    let l1 = List::new();
    let l2 = List::cons(3, &l1);
    let l3 = List::cons(4, &l2);

    assert_eq!(l3.front(), Some(&4));
    let l4 = l3.popped_front();
    assert_eq!(l4.front(), Some(&3));
}

#[test]
fn list_macro_creates_list_in_reversed_order() {
    let l1 = pushed(vec![1]);
    assert_eq!(l1.front(), Some(&1));
    assert!(l1.popped_front().is_empty());

    let l2 = pushed(vec![1, 2]);
    assert_eq!(l2.front(), Some(&2));
    assert_eq!(l2.popped_front().front(), Some(&1));
    assert!(l2.popped_front().popped_front().is_empty());
}

#[test]
fn empty_list() {
    let l0 = List::<i32>::empty();
    let mut l0_iter = l0.iter();
    assert_eq!(l0_iter.next(), None);
}

#[test]
fn singelton_list() {
    let l0 = List::empty();
    let l1 = List::cons(1, &l0);
    let mut l_iter = l1.iter();
    assert_eq!(l_iter.next(), Some(&1));
}

#[test]
fn test_partial_eq() {
    let l1 = pushed(vec![1, 2, 3]);

    assert_eq!(l1, l1);
    assert_eq!(List::<i32>::new(), List::<i32>::new());
    assert_eq!(pushed(vec![5, 7, 0]), pushed(vec![5, 7, 0]));
}

#[test]
fn mreturn_creates_list() {
    let list = mreturn(3);

    assert_eq!(list, pushed(vec![3]));
}

#[test]
fn filter_and_fmap_of_four_to_one() {
    let list = List::cons(
        4,
        &List::cons(3, &List::cons(2, &List::cons(1, &List::empty()))),
    );

    let evens = filter(|v: &i32| v % 2 == 0, &list);
    let doubles: List<i32> = fmap(|v: &i32| v * 2, &list);

    assert_eq!(to_vec(&evens), vec![4, 2]);
    assert_eq!(to_vec(&doubles), vec![8, 6, 4, 2]);
}

#[test]
fn cons_leaves_the_tail_as_it_was() {
    let tail = listed(vec![2, 1]);
    let before = to_vec(&tail);

    let longer = List::cons(3, &tail);
    let other = tail.pushed_front(9);

    assert_eq!(to_vec(&tail), before);
    assert_eq!(to_vec(&longer), vec![3, 2, 1]);
    assert_eq!(to_vec(&other), vec![9, 2, 1]);
}

#[test]
fn popped_front_of_cons_is_the_tail() {
    let tail = listed(vec![2, 1]);

    let back = List::cons(3, &tail).popped_front();

    assert_eq!(back, tail);
    assert_eq!(to_vec(&back), vec![2, 1]);
}

#[test]
fn iter_walks_from_front_to_back_and_starts_anew() {
    let list = listed(vec![1, 2, 3]);

    let mut it = list.iter();
    assert_eq!(it.next(), Some(&1));
    assert_eq!(it.next(), Some(&2));
    assert_eq!(it.next(), Some(&3));
    assert_eq!(it.next(), None);
    assert_eq!(it.next(), None);

    assert_eq!(to_vec(&list), vec![1, 2, 3]);
}

#[test]
fn lists_of_unequal_length_differ() {
    assert_ne!(listed(vec![1, 2, 3]), listed(vec![1, 2]));
    assert_ne!(listed(vec![1, 2]), listed(vec![1, 2, 3]));
    assert_ne!(listed(vec![1]), List::empty());
    assert_ne!(List::empty(), listed(vec![1]));
    assert_ne!(listed(vec![1, 2, 3]), listed(vec![1, 9, 3]));
    assert_ne!(listed(vec![1, 2]), listed(vec![2, 1]));
}

#[test]
fn folds_give_exact_values() {
    let list = listed(vec![4, 3, 2, 1]);

    assert_eq!(foldl(|a: i32, b: &i32| a + b, 0, &list), 10);
    assert_eq!(foldl(|a: i32, b: &i32| a - b, 0, &list), -10);
    assert_eq!(foldr(|a: &i32, b: i32| a - b, 0, &list), 2);
    assert_eq!(foldl(|a: i32, b: &i32| a * 10 + b, 0, &list), 4321);
    assert_eq!(foldr(|a: &i32, b: i32| b * 10 + a, 0, &list), 1234);
    assert_eq!(foldl(|a: i32, b: &i32| a + b, 5, &List::empty()), 5);
    assert_eq!(foldr(|a: &i32, b: i32| a + b, 5, &List::empty()), 5);
}

#[test]
fn concat_joins_in_order() {
    let a = listed(vec![1, 2]);
    let b = listed(vec![3, 4]);

    let joined = persi_ds::shared::list::concat(&a, &b);

    assert_eq!(to_vec(&joined), vec![1, 2, 3, 4]);
    assert_eq!(to_vec(&a), vec![1, 2]);
    assert_eq!(to_vec(&b), vec![3, 4]);
    assert_eq!(joined.popped_front().popped_front(), b);
    assert_eq!(persi_ds::shared::list::concat(&List::empty(), &b), b);
    assert_eq!(persi_ds::shared::list::concat(&a, &List::empty()), a);
}

#[test]
fn concat_all_flattens_in_order() {
    let mut lists: List<List<i32>> = List::default();
    lists = lists.pushed_front(listed(vec![5, 6]));
    lists = lists.pushed_front(List::empty());
    lists = lists.pushed_front(listed(vec![1, 2, 3]));

    let flat: List<i32> = concat_all(&lists);

    assert_eq!(to_vec(&flat), vec![1, 2, 3, 5, 6]);
    let none: List<List<i32>> = List::empty();
    let empty: List<i32> = concat_all(&none);
    assert!(empty.is_empty());
}

fn twice(x: &i32) -> List<i32> {
    listed(vec![*x, *x + 10])
}

fn up_to(x: &i32) -> List<i32> {
    listed((0..*x).collect())
}

#[test]
fn mbind_joins_what_the_function_returns() {
    let list = listed(vec![1, 2, 3]);

    let bound = mbind::<_, _, Rc<Node<List<i32>>>>(&list, twice);

    assert_eq!(to_vec(&bound), vec![1, 11, 2, 12, 3, 13]);
}

#[test]
fn monad_left_identity() {
    let unit: List<i32> = mreturn(3);

    let bound = mbind::<_, _, Rc<Node<List<i32>>>>(&unit, up_to);

    assert_eq!(bound, up_to(&3));
    assert_eq!(to_vec(&bound), vec![0, 1, 2]);
}

#[test]
fn monad_right_identity() {
    let list = listed(vec![4, 3, 2, 1]);

    let bound = mbind::<_, _, Rc<Node<List<i32>>>>(&list, |x: &i32| mreturn(*x));

    assert_eq!(bound, list);
}

#[test]
fn monad_associativity() {
    let list = listed(vec![1, 2, 3]);

    let first = mbind::<_, _, Rc<Node<List<i32>>>>(&list, twice);
    let left = mbind::<_, _, Rc<Node<List<i32>>>>(&first, up_to);
    let right = mbind::<_, _, Rc<Node<List<i32>>>>(&list, |x: &i32| {
        mbind::<_, _, Rc<Node<List<i32>>>>(&twice(x), up_to)
    });

    assert_eq!(left, right);
    assert_eq!(to_vec(&left).len(), 1 + 11 + 2 + 12 + 3 + 13);
}

#[test]
fn long_list_is_released_without_deep_recursion() {
    let mut list = List::default();
    for x in 0..200_000 {
        list = list.pushed_front(x);
    }
    let shared = list.popped_front();

    assert_eq!(list.front(), Some(&199_999));
    drop(list);
    assert_eq!(shared.front(), Some(&199_998));
}
