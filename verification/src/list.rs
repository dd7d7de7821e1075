//! A plain persistent list for use within one thread. The end of a chain is a
//! node of its own.

use crate::shared::handle::rc_clone;
use crate::shared::list::{
    can_fold_left, can_fold_right, folds_left, folds_right, is_verdict, kept,
};
use std::rc::Rc;
use vstd::prelude::*;

verus! {

/// A persistent list: a handle on its first node.
pub struct List<T> {
    pub head: Rc<Node<T>>,
}

/// A node of a list: the end of the chain, or an element and the node that
/// follows it.
pub enum Node<T> {
    Empty,
    Link(T, Rc<Node<T>>),
}

impl<T> Node<T> {
    /// The elements from this node to the end of the chain.
    pub open spec fn elements(&self) -> Seq<T>
        decreases self,
    {
        match self {
            Node::Empty => Seq::empty(),
            Node::Link(head, tail) => seq![*head] + tail.elements(),
        }
    }
}

impl<T> View for Node<T> {
    type V = Seq<T>;

    open spec fn view(&self) -> Seq<T> {
        self.elements()
    }
}

impl<T> View for List<T> {
    type V = Seq<T>;

    /// The elements from front to back.
    open spec fn view(&self) -> Seq<T> {
        self.head@
    }
}

impl<T> List<T> {
    /// The empty list.
    pub fn empty() -> (r: List<T>)
        ensures
            r@ == Seq::<T>::empty(),
            *r.head == Node::<T>::Empty,
    {
        List { head: Rc::new(Node::<T>::Empty) }
    }

    /// The list with `head` in front of the chain of `tail`, which is shared,
    /// not copied.
    pub fn cons(head: T, tail: &List<T>) -> (r: List<T>)
        ensures
            r@ == seq![head] + tail@,
            *r.head == Node::Link(head, tail.head),
    {
        List { head: Rc::new(Node::Link(head, rc_clone(&tail.head))) }
    }

    fn from_node(tail: &Rc<Node<T>>) -> (r: List<T>)
        ensures
            r.head == *tail,
    {
        List { head: rc_clone(tail) }
    }

    /// The list that holds `value` alone.
    pub fn from_value(value: T) -> (r: List<T>)
        ensures
            r@ == seq![value],
    {
        let r = List { head: Rc::new(Node::Link(value, Rc::new(Node::Empty))) };
        proof {
            assert(r.head@ == seq![value] + Node::<T>::Empty.elements());
            assert(r@ =~= seq![value]);
        }
        r
    }

    /// The first element, or `None` if the list is empty.
    pub fn front(&self) -> (r: Option<&T>)
        ensures
            match r {
                Some(e) => self@.len() > 0 && *e == self@[0],
                None => self@.len() == 0,
            },
    {
        match &*self.head {
            Node::Empty => None,
            Node::Link(head, _tail) => Some(head),
        }
    }

    pub fn is_empty(&self) -> (r: bool)
        ensures
            r == (self@.len() == 0),
    {
        match &*self.head {
            Node::Empty => true,
            _ => false,
        }
    }

    /// A handle on the chain behind the first node, which is shared, not
    /// copied. The list must not be empty.
    pub fn pop_front(&self) -> (r: List<T>)
        requires
            self@.len() > 0,
        ensures
            r@ == self@.drop_first(),
            *self.head matches Node::Link(_, tail) && r.head == tail,
    {
        match &*self.head {
            Node::Empty => vstd::pervasive::unreached(),
            Node::Link(_head, tail) => {
                assert((seq![*_head] + tail@).drop_first() =~= tail@);
                List::from_node(tail)
            },
        }
    }

    /// The list with `value` in front of this one.
    pub fn push_front(&self, value: T) -> (r: List<T>)
        ensures
            r@ == seq![value] + self@,
            *r.head == Node::Link(value, self.head),
    {
        List::cons(value, self)
    }

    /// References to the elements from front to back.
    fn to_refs(&self) -> (r: Vec<&T>)
        ensures
            r@.len() == self@.len(),
            forall|i: int| 0 <= i < r@.len() ==> *#[trigger] r@[i] == self@[i],
    {
        let mut refs: Vec<&T> = Vec::new();
        let mut node: &Node<T> = &*self.head;
        loop
            invariant
                refs@.len() <= self@.len(),
                node@ == self@.skip(refs@.len() as int),
                forall|i: int| 0 <= i < refs@.len() ==> *#[trigger] refs@[i] == self@[i],
            ensures
                refs@.len() == self@.len(),
            decreases node@.len(),
        {
            match node {
                Node::Empty => {
                    break ;
                },
                Node::Link(head, tail) => {
                    let ghost n = refs@.len() as int;
                    assert(node@[0] == *head);
                    assert(node@.drop_first() =~= tail@);
                    assert(self@.skip(n).drop_first() =~= self@.skip(n + 1));
                    refs.push(head);
                    node = &**tail;
                },
            }
        }
        refs
    }

    /// The list of the elements of `items`, in their order.
    fn from_vec(items: Vec<T>) -> (r: List<T>)
        ensures
            r@ == items@,
    {
        let ghost all = items@;
        let mut items = items;
        let mut result = List::empty();
        while items.len() > 0
            invariant
                items@ == all.take(items@.len() as int),
                items@.len() <= all.len(),
                result@ == all.skip(items@.len() as int),
            decreases items@.len(),
        {
            let ghost n = items@.len();
            let x = items.pop().unwrap();
            result = List { head: Rc::new(Node::Link(x, result.head)) };
            proof {
                assert(items@ =~= all.take(items@.len() as int));
                assert(x == all[n - 1]);
                assert(seq![x] + all.skip(n as int) =~= all.skip(n - 1));
            }
        }
        proof {
            assert(all.skip(0) =~= all);
        }
        result
    }
}

/// The list of the elements of `list` that `p` accepts, in their order.
pub fn filter<T: Copy>(p: impl FnOnce(&T) -> bool + Copy, list: &List<T>) -> (r: List<T>)
    requires
        forall|i: int| 0 <= i < list@.len() ==> call_requires(p, (&#[trigger] list@[i],)),
    ensures
        exists|keep: Seq<bool>| #[trigger] is_verdict(p, list@, keep) && r@ == kept(list@, keep),
{
    let refs = list.to_refs();
    let mut chosen: Vec<T> = Vec::new();
    let ghost mut keep: Seq<bool> = Seq::empty();
    let mut i: usize = 0;
    while i < refs.len()
        invariant
            forall|j: int| 0 <= j < list@.len() ==> call_requires(p, (&#[trigger] list@[j],)),
            i <= refs@.len(),
            refs@.len() == list@.len(),
            forall|j: int| 0 <= j < refs@.len() ==> *#[trigger] refs@[j] == list@[j],
            keep.len() == i,
            is_verdict(p, list@.take(i as int), keep),
            chosen@ == kept(list@.take(i as int), keep),
        decreases refs@.len() - i,
    {
        let x = refs[i];
        assert(*x == list@[i as int]);
        let answer = p(x);
        if answer {
            chosen.push(*x);
        }
        proof {
            assert(list@.take(i + 1).drop_last() =~= list@.take(i as int));
            assert(keep.push(answer).drop_last() =~= keep);
            keep = keep.push(answer);
        }
        i = i + 1;
    }
    proof {
        assert(list@.take(i as int) =~= list@);
    }
    List::from_vec(chosen)
}

/// The list of what `f` returns for the elements of `list`, in their order.
pub fn fmap<U, T>(f: impl FnOnce(&T) -> U + Copy, list: &List<T>) -> (r: List<U>)
    requires
        forall|i: int| 0 <= i < list@.len() ==> call_requires(f, (&#[trigger] list@[i],)),
    ensures
        r@.len() == list@.len(),
        forall|i: int| 0 <= i < list@.len() ==> call_ensures(f, (&list@[i],), #[trigger] r@[i]),
{
    let refs = list.to_refs();
    let mut mapped: Vec<U> = Vec::new();
    let mut i: usize = 0;
    while i < refs.len()
        invariant
            forall|j: int| 0 <= j < list@.len() ==> call_requires(f, (&#[trigger] list@[j],)),
            i <= refs@.len(),
            refs@.len() == list@.len(),
            forall|j: int| 0 <= j < refs@.len() ==> *#[trigger] refs@[j] == list@[j],
            mapped@.len() == i,
            forall|j: int| 0 <= j < i ==> call_ensures(f, (&list@[j],), #[trigger] mapped@[j]),
        decreases refs@.len() - i,
    {
        let x = refs[i];
        assert(*x == list@[i as int]);
        let y = f(x);
        mapped.push(y);
        i = i + 1;
    }
    List::from_vec(mapped)
}

/// The fold of `f` over the list from the left: `f` takes what it has
/// gathered so far, starting with `acc`, and the next element.
pub fn foldl<U, T>(f: impl FnOnce(U, &T) -> U + Copy, acc: U, list: &List<T>) -> (r: U)
    requires
        can_fold_left(f, acc, list@),
    ensures
        folds_left(f, acc, list@, r),
{
    let refs = list.to_refs();
    let mut gathered = acc;
    let mut i: usize = 0;
    proof {
        assert(list@.skip(0) =~= list@);
    }
    while i < refs.len()
        invariant
            i <= refs@.len(),
            refs@.len() == list@.len(),
            forall|j: int| 0 <= j < refs@.len() ==> *#[trigger] refs@[j] == list@[j],
            can_fold_left(f, gathered, list@.skip(i as int)),
            forall|r: U| #[trigger]
                folds_left(f, gathered, list@.skip(i as int), r) ==> folds_left(f, acc, list@, r),
        decreases refs@.len() - i,
    {
        let ghost before = list@.skip(i as int);
        let ghost had = gathered;
        let x = refs[i];
        assert(*x == before[0]);
        gathered = f(gathered, x);
        i = i + 1;
        proof {
            assert(before.drop_first() =~= list@.skip(i as int));
            assert forall|r: U| #[trigger]
                folds_left(f, gathered, list@.skip(i as int), r) implies folds_left(
                f,
                acc,
                list@,
                r,
            ) by {
                assert(call_ensures(f, (had, &before[0]), gathered));
                assert(folds_left(f, had, before, r));
            }
        }
    }
    assert(folds_left(f, gathered, list@.skip(i as int), gathered));
    gathered
}

/// The fold of `f` over the list from the right: `f` takes an element and
/// what it has gathered from the elements behind it, starting with `acc`.
pub fn foldr<U, T>(f: impl FnOnce(&T, U) -> U + Copy, acc: U, list: &List<T>) -> (r: U)
    requires
        can_fold_right(f, acc, list@),
    ensures
        folds_right(f, acc, list@, r),
{
    let refs = list.to_refs();
    let mut gathered = acc;
    let mut i = refs.len();
    proof {
        assert(list@.skip(i as int) =~= Seq::empty());
    }
    while i > 0
        invariant
            i <= refs@.len(),
            refs@.len() == list@.len(),
            forall|j: int| 0 <= j < refs@.len() ==> *#[trigger] refs@[j] == list@[j],
            can_fold_right(f, acc, list@),
            folds_right(f, acc, list@.skip(i as int), gathered),
        decreases i,
    {
        i = i - 1;
        let ghost had = gathered;
        proof {
            crate::shared::list::lemma_can_fold_right_rest(f, acc, list@, i as int);
            assert(list@.skip(i as int).drop_first() =~= list@.skip(i + 1));
            assert(list@.skip(i as int)[0] == list@[i as int]);
        }
        gathered = f(refs[i], gathered);
        proof {
            let rest = list@.skip(i as int);
            assert(folds_right(f, acc, rest.drop_first(), had));
            assert(call_ensures(f, (&rest[0], had), gathered));
            assert(folds_right(f, acc, rest, gathered));
        }
    }
    proof {
        assert(list@.skip(0) =~= list@);
    }
    gathered
}

} // verus!
