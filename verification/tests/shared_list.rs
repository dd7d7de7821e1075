use persi_ds::shared::list::concat_all;
use persi_ds::sync::list::{filter, fmap, foldl, foldr, mreturn, List};
use persi_ds::unsync;

fn unsync_pushed(items: Vec<i32>) -> unsync::List<i32> {
    let mut list = unsync::List::default();
    for x in items {
        list = list.pushed_front(x);
    }
    list
}

fn pushed(items: Vec<i32>) -> List<i32> {
    let mut list = List::default();
    for x in items {
        list = list.pushed_front(x);
    }
    list
}

#[derive(Debug, PartialEq, Clone)]
struct NoCopy(i32);

fn pushed_no_copy(items: Vec<i32>) -> List<NoCopy> {
    let mut list = List::default();
    for x in items {
        list = list.pushed_front(NoCopy(x));
    }
    list
}

#[test]
fn list_create_empty() {
    let list = List::<i32>::new();

    assert!(list.is_empty());
    assert_eq!(list.front(), None);

    let list = unsync::List::<i32>::new();

    assert!(list.is_empty());
    assert_eq!(list.front(), None);
}

#[test]
fn list_create_cons() {
    let list = List::cons(3, &List::empty());

    assert_eq!(list.front(), Some(&3));

    assert!(!list.is_empty());

    let list: unsync::List<i32> = unsync::List::cons(3, &unsync::List::new());

    assert_eq!(list.front(), Some(&3));

    assert!(!list.is_empty());
}

#[test]
fn list_pushed_front_creates_new_longer_list() {
    let l1 = List::empty();
    let l2 = l1.pushed_front(6.7);

    assert!(l1.is_empty());
    assert_eq!(l1.front(), None);

    assert!(!l2.is_empty());
    assert_eq!(l2.front(), Some(&6.7));
}

#[test]
fn list_popped_front_returns_tail() {
    let l1 = List::empty();
    let l2 = List::cons(3, &l1);
    let l3 = List::cons(4, &l2);

    assert_eq!(l3.front(), Some(&4));
    let l4 = l3.popped_front();
    assert_eq!(l4.front(), Some(&3));
}

#[test]
fn list_list_macro_creates_list_in_reversed_order() {
    let l1 = pushed(vec![1]);
    assert_eq!(l1.front(), Some(&1));
    assert!(l1.popped_front().is_empty());

    let l2 = pushed(vec![1, 2]);
    assert_eq!(l2.front(), Some(&2));
    assert_eq!(l2.popped_front().front(), Some(&1));
    assert!(l2.popped_front().popped_front().is_empty());
}

#[test]
fn list_filter_creates_new_list_with_fn_predicate() {
    fn even(v: &i32) -> bool {
        v % 2 == 0
    }

    let list = pushed(vec![4, 3, 2, 1]);

    let evens = filter(even, &list);

    assert_eq!(evens, pushed(vec![4, 2]));

    let list = unsync_pushed(vec![4, 3, 2, 1]);

    let evens = filter(even, &list);

    assert_eq!(evens, unsync_pushed(vec![4, 2]));
}

#[test]
fn list_test_partial_eq() {
    let l1 = pushed(vec![1, 2, 3]);

    assert_eq!(l1, l1);
    assert_eq!(List::<i32>::empty(), List::<i32>::empty());
    assert_eq!(pushed(vec![5, 7, 0]), pushed(vec![5, 7, 0]));
}

#[test]
fn list_fmap_creates_new_list_with_fn_function() {
    fn double(v: &i32) -> i32 {
        v * 2
    }

    let list = pushed(vec![4, 3, 2, 1]);

    let doubles: List<i32> = fmap(double, &list);

    assert_eq!(doubles, pushed(vec![8, 6, 4, 2]));

    let list = unsync_pushed(vec![4, 3, 2, 1]);

    let doubles: unsync::List<i32> = fmap(double, &list);

    assert_eq!(doubles, unsync_pushed(vec![8, 6, 4, 2]));
}

#[test]
fn list_sum_w_foldl_and_foldr_are_equal() {
    fn sum(a: i32, b: &i32) -> i32 {
        a + b
    }

    let list = pushed(vec![4, 3, 2, 1]);

    assert_eq!(foldl(sum, 0, &list), foldr(|a, b| a + b, 0, &list));

    let list = unsync_pushed(vec![4, 3, 2, 1]);

    assert_eq!(foldl(sum, 0, &list), foldr(|a, b| a + b, 0, &list));

    fn sum_no_copy(a: NoCopy, b: &NoCopy) -> NoCopy {
        NoCopy(a.0 + b.0)
    }

    let list = pushed_no_copy(vec![4, 3, 2, 1]);

    assert_eq!(
        foldl(sum_no_copy, NoCopy(0), &list),
        foldr(|a, b| NoCopy(a.0 + b.0), NoCopy(0), &list)
    );
}

#[test]
fn list_mreturn_creates_list() {
    let list = mreturn(3);

    assert_eq!(list, pushed(vec![3]));
}

#[test]
fn new_creates_empty_list() {
    let lst = List::<NoCopy>::new();

    assert!(lst.is_empty());
}

#[test]
fn concat_all_concats() {
    let lst1 = List::from_value(NoCopy(1));
    let lst2 = List::from_value(NoCopy(2));
    let mut lst_all = List::default();
    lst_all = lst_all.pushed_front(lst1);
    lst_all = lst_all.pushed_front(lst2);

    assert_eq!(
        concat_all(&lst_all),
        List::cons(NoCopy(2), &List::from_value(NoCopy(1)))
    )
}

#[test]
fn sub_w_foldl_and_foldr_are_unequal() {
    fn sub(a: NoCopy, b: &NoCopy) -> NoCopy {
        NoCopy(a.0 - b.0)
    }

    let list = pushed_no_copy(vec![1, 1, 1]);

    assert_eq!(foldl(sub, NoCopy(0), &list), NoCopy(-3));
    assert_eq!(
        foldr(|a, b| NoCopy(a.0 - b.0), NoCopy(0), &list),
        NoCopy(1)
    );
}

#[test]
fn sync_concat_keeps_both_orders() {
    let a = pushed(vec![2, 1]);
    let b = pushed(vec![4, 3]);

    assert_eq!(persi_ds::shared::list::concat(&a, &b), pushed(vec![4, 3, 2, 1]));
    assert_eq!(persi_ds::shared::list::concat(&List::empty(), &b), b);
    assert_eq!(persi_ds::shared::list::concat(&a, &List::empty()), a);
}

#[test]
fn sync_lists_of_unequal_length_differ() {
    assert_ne!(pushed(vec![1, 2, 3]), pushed(vec![2, 3]));
    assert_ne!(pushed(vec![2, 3]), pushed(vec![1, 2, 3]));
    assert_ne!(pushed(vec![1]), List::empty());
    assert_ne!(pushed(vec![1, 2, 3]), pushed(vec![1, 5, 3]));
}

fn shareable<T: Send + Sync>(_value: &T) -> bool {
    true
}

#[test]
fn sync_list_can_be_shared_across_threads() {
    let list = pushed(vec![3, 2, 1]);
    let other = list.clone();

    assert!(shareable(&list));
    assert_eq!(other, list);
    assert_eq!(list.front(), Some(&1));
}

#[test]
fn sync_long_list_is_released_without_deep_recursion() {
    let mut list = List::default();
    for x in 0..200_000 {
        list = list.pushed_front(x);
    }

    assert_eq!(list.front(), Some(&199_999));
}
