//! The persistent list, generic over its nodes.

use super::cloning::is_clone_of;
use super::link::Link;
use vstd::prelude::*;

verus! {

/// A persistent list: a handle on an optional first node.
#[derive(Debug)]
pub struct List<L> {
    head: Option<L>,
}

impl<L: Link> View for List<L> {
    type V = Seq<L::ValueType>;

    /// The elements from front to back.
    closed spec fn view(&self) -> Seq<L::ValueType> {
        match self.head {
            Some(n) => n.elements(),
            None => Seq::empty(),
        }
    }
}

impl<L> List<L> {
    /// The empty list.
    pub closed spec fn spec_empty() -> List<L> {
        List { head: None }
    }
}

impl<L> Default for List<L> {
    fn default() -> (r: Self)
        ensures
            r == Self::spec_empty(),
    {
        List { head: None }
    }
}

impl<L> AsRef<List<L>> for List<L> {
    fn as_ref(&self) -> (r: &List<L>)
        ensures
            *r == *self,
    {
        self
    }
}

impl<L: Link> Clone for List<L> {
    /// Another handle on the same chain.
    fn clone(&self) -> (r: Self)
        ensures
            r == *self,
    {
        match &self.head {
            Some(link) => List { head: Some(link.clone()) },
            None => List { head: None },
        }
    }
}

impl<L: Link> List<L> {
    /// The list that holds `element` in front of the chain of `tail`.
    pub closed spec fn spec_cons(element: L::ValueType, tail: List<L>) -> List<L> {
        List { head: Some(L::spec_cons(element, tail.head)) }
    }

    /// The list without its first node; of the empty list, the empty list.
    pub closed spec fn spec_popped_front(self) -> List<L> {
        match self.head {
            Some(n) => List { head: n.next() },
            None => self,
        }
    }

    /// Creates an empty `List`.
    pub fn new() -> (r: List<L>)
        ensures
            r == Self::spec_empty(),
            r@ == Seq::<L::ValueType>::empty(),
    {
        List { head: None }
    }

    /// Creates an empty `List`.
    pub fn empty() -> (r: List<L>)
        ensures
            r == Self::spec_empty(),
            r@ == Seq::<L::ValueType>::empty(),
    {
        List { head: None }
    }

    /// Creates a list with the element given as head and the provided list
    /// as tail. The tail is shared, not copied.
    ///
    /// Complexity: O(1)
    pub fn cons(element: L::ValueType, tail: &List<L>) -> (r: List<L>)
        ensures
            r == Self::spec_cons(element, *tail),
            r@ == seq![element] + tail@,
            r.spec_popped_front() == *tail,
    {
        proof {
            L::lemma_chain(element, tail.head);
        }
        let next = match &tail.head {
            Some(link) => Some(link.clone()),
            None => None,
        };
        List { head: Some(L::cons(element, next)) }
    }

    pub fn from_value(element: L::ValueType) -> (r: Self)
        ensures
            r == Self::spec_cons(element, Self::spec_empty()),
            r@ == seq![element],
    {
        proof {
            L::lemma_chain(element, None);
        }
        List { head: Some(L::from_value(element)) }
    }

    /// Provides a reference to the front element, or `None` if the list is
    /// empty.
    pub fn front(&self) -> (r: Option<&L::ValueType>)
        ensures
            match r {
                Some(e) => self@.len() > 0 && *e == self@[0],
                None => self@.len() == 0,
            },
    {
        match &self.head {
            Some(link) => Some(link.get_element()),
            None => None,
        }
    }

    /// Returns `true` if this `List` is empty.
    pub fn is_empty(&self) -> (r: bool)
        ensures
            r == (self@.len() == 0),
    {
        proof {
            if self.head is Some {
                self.head->0.lemma_elements();
            }
        }
        self.head.is_none()
    }

    /// Returns the tail of the list: a handle on the chain behind the first
    /// node, which is shared, not copied. The list must not be empty.
    pub fn popped_front(&self) -> (r: List<L>)
        requires
            self@.len() > 0,
        ensures
            r == self.spec_popped_front(),
            r@ == self@.drop_first(),
    {
        match &self.head {
            Some(link) => {
                proof {
                    link.lemma_elements();
                }
                List { head: link.next_cloned() }
            },
            None => vstd::pervasive::unreached(),
        }
    }

    /// The list with `value` in front of this one.
    pub fn pushed_front(&self, value: L::ValueType) -> (r: Self)
        ensures
            r == Self::spec_cons(value, *self),
            r@ == seq![value] + self@,
            r.spec_popped_front() == *self,
    {
        List::cons(value, self)
    }
}

impl<L: Link> List<L> {
    /// The list without its first `n` nodes.
    pub open spec fn spec_skipped(self, n: nat) -> List<L>
        decreases n,
    {
        if n == 0 {
            self
        } else {
            self.spec_popped_front().spec_skipped((n - 1) as nat)
        }
    }

    /// A list is built from each of its elements.
    pub proof fn lemma_elements_are_parts(&self, i: int)
        requires
            0 <= i < self@.len(),
        ensures
            decreases_to!(*self => self@[i]),
    {
        let n = self.head->0;
        n.lemma_elements_are_parts(i);
        assert(decreases_to!(*self => self.head));
        assert(decreases_to!(self.head => n));
    }

    /// An iterator over the elements from front to back.
    pub fn iter(&self) -> (r: Iter<'_, L>)
        ensures
            r.remaining() == self@,
    {
        match &self.head {
            Some(link) => Iter { next: Some(link.link_ref()) },
            None => Iter { next: None },
        }
    }

    /// References to the elements from front to back.
    pub(crate) fn to_refs(&self) -> (r: Vec<&L::ValueType>)
        ensures
            r@.len() == self@.len(),
            forall|i: int| 0 <= i < r@.len() ==> *#[trigger] r@[i] == self@[i],
    {
        let mut refs: Vec<&L::ValueType> = Vec::new();
        let mut it = self.iter();
        loop
            invariant
                refs@.len() + it.remaining().len() == self@.len(),
                it.remaining() == self@.skip(refs@.len() as int),
                forall|i: int| 0 <= i < refs@.len() ==> *#[trigger] refs@[i] == self@[i],
            ensures
                it.remaining().len() == 0,
            decreases it.remaining().len(),
        {
            match it.next() {
                None => {
                    break ;
                },
                Some(x) => {
                    refs.push(x);
                    assert(self@.skip(refs@.len() - 1).drop_first() =~= self@.skip(
                        refs@.len() as int,
                    ));
                },
            }
        }
        refs
    }

    /// The list with `element` in front of `tail`, which is taken over.
    fn cons_onto(element: L::ValueType, tail: List<L>) -> (r: List<L>)
        ensures
            r == Self::spec_cons(element, tail),
            r@ == seq![element] + tail@,
    {
        proof {
            L::lemma_chain(element, tail.head);
        }
        List { head: Some(L::cons(element, tail.head)) }
    }

    /// The list of the elements of `front`, in their order, in front of
    /// `tail`.
    fn prepended(front: Vec<L::ValueType>, tail: List<L>) -> (r: List<L>)
        ensures
            r@ == front@ + tail@,
            r.spec_skipped(front@.len()) == tail,
    {
        let ghost all = front@;
        let mut front = front;
        let mut result = tail;
        assert(all.skip(all.len() as int) + tail@ =~= tail@);
        while front.len() > 0
            invariant
                front@ == all.take(front@.len() as int),
                front@.len() <= all.len(),
                result@ == all.skip(front@.len() as int) + tail@,
                result.spec_skipped((all.len() - front@.len()) as nat) == tail,
            decreases front@.len(),
        {
            let ghost before = result;
            let ghost n = front@.len();
            let x = front.pop().unwrap();
            result = Self::cons_onto(x, result);
            proof {
                lemma_cons_popped_front(x, before);
                assert(front@ =~= all.take(front@.len() as int));
                assert(x == all[n - 1]);
                assert(seq![x] + (all.skip(n as int) + tail@) =~= all.skip(n - 1) + tail@);
            }
        }
        proof {
            assert(all.skip(0) =~= all);
        }
        result
    }
}

/// An iterator over the elements of a list. It holds a reference to the node
/// whose element comes next.
pub struct Iter<'a, L> {
    next: Option<&'a L>,
}

impl<'a, L: Link> Iter<'a, L> {
    /// The elements that are still to come.
    pub closed spec fn remaining(&self) -> Seq<L::ValueType> {
        match self.next {
            Some(n) => n.elements(),
            None => Seq::empty(),
        }
    }

    /// The next element, or `None` at the end of the list.
    pub fn next(&mut self) -> (r: Option<&'a L::ValueType>)
        ensures
            match r {
                Some(e) => {
                    &&& old(self).remaining().len() > 0
                    &&& *e == old(self).remaining()[0]
                    &&& final(self).remaining() == old(self).remaining().drop_first()
                },
                None => old(self).remaining().len() == 0 && final(self).remaining() == old(
                    self,
                ).remaining(),
            },
    {
        match self.next {
            Some(node) => {
                proof {
                    node.lemma_elements();
                }
                self.next = node.next_ref();
                Some(node.get_element())
            },
            None => None,
        }
    }
}

/// Sharing: the list behind the first node of `cons(x, l)` is the chain of
/// `l` itself.
pub proof fn lemma_cons_popped_front<L: Link>(x: L::ValueType, l: List<L>)
    ensures
        List::spec_cons(x, l).spec_popped_front() == l,
        List::spec_cons(x, l)@ == seq![x] + l@,
{
    L::lemma_chain(x, l.head);
}

/// The elements of `s` at which `keep` says `true`, in their order.
pub open spec fn kept<T>(s: Seq<T>, keep: Seq<bool>) -> Seq<T>
    decreases s.len(),
{
    if s.len() == 0 || keep.len() != s.len() {
        Seq::empty()
    } else if keep.last() {
        kept(s.drop_last(), keep.drop_last()).push(s.last())
    } else {
        kept(s.drop_last(), keep.drop_last())
    }
}

/// `keep` holds for each element of `s` an answer that `p` can give on it.
pub open spec fn is_verdict<P: FnOnce(&T) -> bool, T>(p: P, s: Seq<T>, keep: Seq<bool>) -> bool {
    &&& keep.len() == s.len()
    &&& forall|i: int| 0 <= i < s.len() ==> call_ensures(p, (&s[i],), #[trigger] keep[i])
}

/// The elements of all the lists, one list after the other.
pub open spec fn flattened<L: Link>(lists: Seq<List<L>>) -> Seq<L::ValueType>
    decreases lists.len(),
{
    if lists.len() == 0 {
        Seq::empty()
    } else {
        flattened(lists.drop_last()) + lists.last()@
    }
}

/// `f` can be folded over `s` from the left, starting with `acc`: it accepts
/// the first element with `acc`, and the rest with whatever it then returns.
pub open spec fn can_fold_left<F: FnOnce(U, &T) -> U, T, U>(f: F, acc: U, s: Seq<T>) -> bool
    decreases s.len(),
{
    s.len() == 0 || {
        &&& call_requires(f, (acc, &s[0]))
        &&& forall|mid: U|
            #![trigger call_ensures(f, (acc, &s[0]), mid)]
            call_ensures(f, (acc, &s[0]), mid) ==> can_fold_left(f, mid, s.drop_first())
    }
}

/// `r` is a result of folding `f` over `s` from the left, starting with
/// `acc`.
pub open spec fn folds_left<F: FnOnce(U, &T) -> U, T, U>(f: F, acc: U, s: Seq<T>, r: U) -> bool
    decreases s.len(),
{
    if s.len() == 0 {
        r == acc
    } else {
        exists|mid: U|
            #![trigger call_ensures(f, (acc, &s[0]), mid)]
            call_ensures(f, (acc, &s[0]), mid) && folds_left(f, mid, s.drop_first(), r)
    }
}

/// `r` is a result of folding `f` over `s` from the right, starting with
/// `acc`.
pub open spec fn folds_right<F: FnOnce(&T, U) -> U, T, U>(f: F, acc: U, s: Seq<T>, r: U) -> bool
    decreases s.len(),
{
    if s.len() == 0 {
        r == acc
    } else {
        exists|mid: U|
            #![trigger call_ensures(f, (&s[0], mid), r)]
            folds_right(f, acc, s.drop_first(), mid) && call_ensures(f, (&s[0], mid), r)
    }
}

/// `f` can be folded over `s` from the right, starting with `acc`: it accepts
/// each element with whatever the fold of the elements behind it returns.
pub open spec fn can_fold_right<F: FnOnce(&T, U) -> U, T, U>(f: F, acc: U, s: Seq<T>) -> bool
    decreases s.len(),
{
    s.len() == 0 || {
        &&& can_fold_right(f, acc, s.drop_first())
        &&& forall|mid: U|
            #![trigger call_requires(f, (&s[0], mid))]
            folds_right(f, acc, s.drop_first(), mid) ==> call_requires(f, (&s[0], mid))
    }
}

/// The list of the elements of `list` that `p` accepts, in their order.
pub fn filter<T, L>(p: impl FnOnce(&T) -> bool + Copy, list: &List<L>) -> (r: List<L>) where
    L: Link<ValueType = T>,
    T: Copy,

    requires
        forall|i: int| 0 <= i < list@.len() ==> call_requires(p, (&#[trigger] list@[i],)),
    ensures
        exists|keep: Seq<bool>| #[trigger] is_verdict(p, list@, keep) && r@ == kept(list@, keep),
{
    let mut chosen: Vec<T> = Vec::new();
    let mut it = list.iter();
    let ghost mut keep: Seq<bool> = Seq::empty();
    loop
        invariant
            forall|i: int| 0 <= i < list@.len() ==> call_requires(p, (&#[trigger] list@[i],)),
            keep.len() <= list@.len(),
            it.remaining() == list@.skip(keep.len() as int),
            is_verdict(p, list@.take(keep.len() as int), keep),
            chosen@ == kept(list@.take(keep.len() as int), keep),
        ensures
            keep.len() == list@.len(),
        decreases it.remaining().len(),
    {
        match it.next() {
            None => {
                break ;
            },
            Some(x) => {
                let ghost n = keep.len() as int;
                assert(*x == list@[n]);
                let answer = p(x);
                if answer {
                    chosen.push(*x);
                }
                proof {
                    let done = list@.take(n + 1);
                    assert(done.drop_last() =~= list@.take(n));
                    assert(keep.push(answer).drop_last() =~= keep);
                    assert(list@.skip(n).drop_first() =~= list@.skip(n + 1));
                    keep = keep.push(answer);
                }
            },
        }
    }
    proof {
        assert(list@.take(keep.len() as int) =~= list@);
        assert(chosen@ + List::<L>::spec_empty()@ =~= chosen@) by {
            lemma_empty_view::<L>();
        }
    }
    List::prepended(chosen, List::new())
}

/// The list of what `f` returns for the elements of `list`, in their order.
pub fn fmap<L1, L2>(f: impl Fn(&L1::ValueType) -> L2::ValueType, list: &List<L1>) -> (r: List<
    L2,
>) where L1: Link, L2: Link
    requires
        forall|i: int| 0 <= i < list@.len() ==> call_requires(f, (&#[trigger] list@[i],)),
    ensures
        r@.len() == list@.len(),
        forall|i: int| 0 <= i < list@.len() ==> call_ensures(f, (&list@[i],), #[trigger] r@[i]),
{
    let mut mapped: Vec<L2::ValueType> = Vec::new();
    let mut it = list.iter();
    loop
        invariant
            forall|i: int| 0 <= i < list@.len() ==> call_requires(f, (&#[trigger] list@[i],)),
            mapped@.len() <= list@.len(),
            it.remaining() == list@.skip(mapped@.len() as int),
            forall|i: int|
                0 <= i < mapped@.len() ==> call_ensures(f, (&list@[i],), #[trigger] mapped@[i]),
        ensures
            mapped@.len() == list@.len(),
        decreases it.remaining().len(),
    {
        match it.next() {
            None => {
                break ;
            },
            Some(x) => {
                let ghost n = mapped@.len() as int;
                assert(*x == list@[n]);
                let y = f(x);
                mapped.push(y);
                assert(list@.skip(n).drop_first() =~= list@.skip(n + 1));
            },
        }
    }
    proof {
        assert(mapped@ + List::<L2>::spec_empty()@ =~= mapped@) by {
            lemma_empty_view::<L2>();
        }
    }
    List::prepended(mapped, List::new())
}

/// The fold of `f` over the list from the left: `f` takes what it has
/// gathered so far, starting with `acc`, and the next element.
pub fn foldl<L, U>(f: impl FnOnce(U, &L::ValueType) -> U + Copy, acc: U, list: &List<L>) -> (r:
    U) where L: Link
    requires
        can_fold_left(f, acc, list@),
    ensures
        folds_left(f, acc, list@, r),
{
    let mut gathered = acc;
    let mut it = list.iter();
    loop
        invariant
            can_fold_left(f, gathered, it.remaining()),
            forall|r: U| #[trigger]
                folds_left(f, gathered, it.remaining(), r) ==> folds_left(f, acc, list@, r),
        ensures
            it.remaining().len() == 0,
        decreases it.remaining().len(),
    {
        let ghost before = it.remaining();
        let ghost had = gathered;
        match it.next() {
            None => {
                break ;
            },
            Some(x) => {
                assert(*x == before[0]);
                gathered = f(gathered, x);
                assert forall|r: U| #[trigger]
                    folds_left(f, gathered, it.remaining(), r) implies folds_left(
                    f,
                    acc,
                    list@,
                    r,
                ) by {
                    assert(call_ensures(f, (had, &before[0]), gathered));
                    assert(folds_left(f, had, before, r));
                }
            },
        }
    }
    assert(folds_left(f, gathered, it.remaining(), gathered));
    gathered
}

/// The fold of `f` over the list from the right: `f` takes an element and
/// what it has gathered from the elements behind it, starting with `acc`.
pub fn foldr<L, U>(f: impl FnOnce(&L::ValueType, U) -> U + Copy, acc: U, list: &List<L>) -> (r:
    U) where L: Link
    requires
        can_fold_right(f, acc, list@),
    ensures
        folds_right(f, acc, list@, r),
{
    let refs = list.to_refs();
    let mut gathered = acc;
    let mut i = refs.len();
    proof {
        assert(list@.skip(i as int) =~= Seq::empty());
    }
    while i > 0
        invariant
            i <= refs@.len(),
            refs@.len() == list@.len(),
            forall|j: int| 0 <= j < refs@.len() ==> *#[trigger] refs@[j] == list@[j],
            can_fold_right(f, acc, list@),
            folds_right(f, acc, list@.skip(i as int), gathered),
        decreases i,
    {
        i = i - 1;
        let ghost had = gathered;
        proof {
            lemma_can_fold_right_rest(f, acc, list@, i as int);
            assert(list@.skip(i as int).drop_first() =~= list@.skip(i + 1));
            assert(list@.skip(i as int)[0] == list@[i as int]);
        }
        gathered = f(refs[i], gathered);
        proof {
            let rest = list@.skip(i as int);
            assert(folds_right(f, acc, rest.drop_first(), had));
            assert(call_ensures(f, (&rest[0], had), gathered));
            assert(folds_right(f, acc, rest, gathered));
        }
    }
    proof {
        assert(list@.skip(0) =~= list@);
    }
    gathered
}

/// What can be folded from the right can be folded from any place in it.
pub proof fn lemma_can_fold_right_rest<F: FnOnce(&T, U) -> U, T, U>(f: F, acc: U, s: Seq<T>, i: int)
    requires
        can_fold_right(f, acc, s),
        0 <= i <= s.len(),
    ensures
        can_fold_right(f, acc, s.skip(i)),
    decreases i,
{
    if i == 0 {
        assert(s.skip(0) =~= s);
    } else {
        lemma_can_fold_right_rest(f, acc, s, i - 1);
        if i - 1 < s.len() {
            assert(s.skip(i - 1).drop_first() =~= s.skip(i));
        }
    }
}

/// The empty list has no elements.
pub proof fn lemma_empty_view<L: Link>()
    ensures
        List::<L>::spec_empty()@ == Seq::<L::ValueType>::empty(),
{
}

/// The elements of `a`, cloned, in front of the chain of `b`, which is
/// shared, not copied.
pub fn concat<L>(a: &List<L>, b: &List<L>) -> (r: List<L>) where L: Link, L::ValueType: Clone
    ensures
        r@.len() == a@.len() + b@.len(),
        is_clone_of(a@, r@.take(a@.len() as int)),
        r@.skip(a@.len() as int) == b@,
        r.spec_skipped(a@.len()) == *b,
{
    let mut front: Vec<L::ValueType> = Vec::new();
    let mut it = a.iter();
    loop
        invariant
            front@.len() <= a@.len(),
            it.remaining() == a@.skip(front@.len() as int),
            is_clone_of(a@.take(front@.len() as int), front@),
        ensures
            front@.len() == a@.len(),
        decreases it.remaining().len(),
    {
        match it.next() {
            None => {
                break ;
            },
            Some(x) => {
                let ghost n = front@.len() as int;
                assert(*x == a@[n]);
                front.push(x.clone());
                assert(a@.skip(n).drop_first() =~= a@.skip(n + 1));
            },
        }
    }
    let r = List::prepended(front, b.clone());
    proof {
        assert(a@.take(a@.len() as int) =~= a@);
        assert(r@.take(a@.len() as int) =~= front@);
        assert(r@.skip(a@.len() as int) =~= b@);
    }
    r
}

/// The elements of all the lists in `xss`, cloned, one list after the other.
pub fn concat_all<L1, L2, T>(xss: &List<L1>) -> (r: List<L2>) where
    L1: Link<ValueType = List<L2>>,
    L2: Link<ValueType = T>,
    T: Clone,

    ensures
        is_clone_of(flattened(xss@), r@),
{
    let mut all: Vec<T> = Vec::new();
    let mut outer = xss.iter();
    let ghost mut done: int = 0;
    loop
        invariant
            0 <= done <= xss@.len(),
            outer.remaining() == xss@.skip(done),
            is_clone_of(flattened(xss@.take(done)), all@),
        ensures
            done == xss@.len(),
        decreases outer.remaining().len(),
    {
        match outer.next() {
            None => {
                break ;
            },
            Some(xs) => {
                assert(*xs == xss@[done]);
                let ghost start = flattened(xss@.take(done));
                let mut inner = xs.iter();
                assert(start + xs@.take(0) =~= start);
                loop
                    invariant
                        start.len() <= all@.len() <= start.len() + xs@.len(),
                        inner.remaining() == xs@.skip(all@.len() - start.len()),
                        is_clone_of(start + xs@.take(all@.len() - start.len()), all@),
                    ensures
                        all@.len() == start.len() + xs@.len(),
                    decreases inner.remaining().len(),
                {
                    match inner.next() {
                        None => {
                            break ;
                        },
                        Some(x) => {
                            let ghost n = all@.len() - start.len();
                            let ghost before = all@;
                            assert(*x == xs@[n]);
                            let y = x.clone();
                            all.push(y);
                            proof {
                                assert(xs@.skip(n).drop_first() =~= xs@.skip(n + 1));
                                assert(start + xs@.take(n + 1) =~= (start + xs@.take(n)).push(
                                    xs@[n],
                                ));
                                assert(cloned(xs@[n], y));
                                assert forall|i: int|
                                    0 <= i < all@.len() implies cloned(
                                    #[trigger] (start + xs@.take(n + 1))[i],
                                    all@[i],
                                ) by {
                                    if i < before.len() {
                                        assert(all@[i] == before[i]);
                                        assert((start + xs@.take(n + 1))[i] == (start + xs@.take(
                                            n,
                                        ))[i]);
                                    }
                                }
                            }
                        },
                    }
                }
                proof {
                    assert(xs@.take(xs@.len() as int) =~= xs@);
                    assert(xss@.take(done + 1).drop_last() =~= xss@.take(done));
                    assert(xss@.take(done + 1).last() == *xs);
                    assert(xss@.skip(done).drop_first() =~= xss@.skip(done + 1));
                    done = done + 1;
                }
            },
        }
    }
    proof {
        assert(xss@.take(done) =~= xss@);
        assert(all@ + List::<L2>::spec_empty()@ =~= all@) by {
            lemma_empty_view::<L2>();
        }
    }
    List::prepended(all, List::new())
}

/// The list that holds `t` alone.
pub fn mreturn<L: Link>(t: L::ValueType) -> (r: List<L>)
    ensures
        r@ == seq![t],
{
    List::cons(t, &List::new())
}

/// `lists` holds for each element of `s` a list that `k` can return on it.
pub open spec fn is_image<K: Fn(&T) -> List<L>, T, L: Link>(
    k: K,
    s: Seq<T>,
    lists: Seq<List<L>>,
) -> bool {
    &&& lists.len() == s.len()
    &&& forall|i: int| 0 <= i < s.len() ==> call_ensures(k, (&s[i],), #[trigger] lists[i])
}

/// The lists that `k` returns for the elements of `list`, one after the
/// other in one list; their elements are cloned.
pub fn mbind<L1, L2, L3>(list: &List<L1>, k: impl Fn(&L1::ValueType) -> List<L2> + Copy) -> (r:
    List<L2>) where
    L1: Link,
    L2: Link,
    L3: Link<ValueType = List<L2>>,
    L2::ValueType: Clone,

    requires
        forall|i: int| 0 <= i < list@.len() ==> call_requires(k, (&#[trigger] list@[i],)),
    ensures
        exists|lists: Seq<List<L2>>| #[trigger]
            is_image(k, list@, lists) && is_clone_of(flattened(lists), r@),
{
    let list_list: List<L3> = fmap(k, list);
    let r = concat_all(&list_list);
    proof {
        assert(is_image(k, list@, list_list@));
    }
    r
}

} // verus!
