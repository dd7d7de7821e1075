//! The red-black rules on shapes, the insertion as a function on shapes, and
//! the proofs that the one keeps the other.

use super::order::{follows, is_cut, is_strict_weak_order, precedes, ties};
use super::rb_node::{Colour, Shape};
use super::sorted::{
    has_tie, is_sorted, lemma_inserted_before, lemma_inserted_behind, lemma_inserted_is_sorted,
    lemma_sorted_parts, seq_inserted,
};
use vstd::prelude::*;

verus! {

impl<T> Shape<T> {
    /// The number of black nodes on the way from the root down the left spine.
    pub open spec fn black_height(self) -> nat
        decreases self,
    {
        match self {
            Shape::Empty => 0,
            Shape::Fork { colour, left, .. } => if colour == Colour::Black {
                left.black_height() + 1
            } else {
                left.black_height()
            },
        }
    }

    /// Every way from the root to an empty place passes the same number of
    /// black nodes.
    pub open spec fn is_evenly_black(self) -> bool
        decreases self,
    {
        match self {
            Shape::Empty => true,
            Shape::Fork { left, right, .. } => {
                &&& left.is_evenly_black()
                &&& right.is_evenly_black()
                &&& left.black_height() == right.black_height()
            },
        }
    }

    /// No red node has a red child.
    pub open spec fn has_no_red_red(self) -> bool
        decreases self,
    {
        match self {
            Shape::Empty => true,
            Shape::Fork { colour, left, right, .. } => {
                &&& left.has_no_red_red()
                &&& right.has_no_red_red()
                &&& colour == Colour::Red ==> !left.is_red() && !right.is_red()
            },
        }
    }

    /// No red node below the root has a red child; the root itself may.
    pub open spec fn has_no_red_red_below_root(self) -> bool {
        self.left().has_no_red_red() && self.right().has_no_red_red()
    }

    /// The rules that hold of every subtree of a red-black tree.
    pub open spec fn is_balanced(self) -> bool {
        self.has_no_red_red() && self.is_evenly_black()
    }

    /// The rules of a whole red-black tree: those of a subtree, and the root,
    /// where there is one, is black.
    pub open spec fn is_red_black(self) -> bool {
        self.is_balanced() && !self.is_red()
    }

    /// The two shapes have their nodes and colours in the same places; the
    /// elements may differ.
    pub open spec fn is_coloured_like(self, other: Shape<T>) -> bool
        decreases self,
    {
        match (self, other) {
            (Shape::Empty, Shape::Empty) => true,
            (
                Shape::Fork { colour: c1, left: l1, right: r1, .. },
                Shape::Fork { colour: c2, left: l2, right: r2, .. },
            ) => c1 == c2 && l1.is_coloured_like(*l2) && r1.is_coloured_like(*r2),
            _ => false,
        }
    }

    /// The shape with its root painted.
    pub open spec fn painted(self, colour: Colour) -> Shape<T> {
        match self {
            Shape::Empty => Shape::Empty,
            Shape::Fork { left, element, right, .. } => Shape::Fork { colour, left, element, right },
        }
    }

    /// The local repair after an insertion below a node with colour `c` and element
    /// `x`: a black node with a red child that has a red child of its own is
    /// rearranged into a red node with two black children. Anything else
    /// stays as it is.
    pub open spec fn balance(c: Colour, l: Shape<T>, x: T, r: Shape<T>) -> Shape<T> {
        if c == Colour::Black && l.is_red() && l.left().is_red() {
            Shape::fork(
                Colour::Red,
                l.left().painted(Colour::Black),
                l->element,
                Shape::fork(Colour::Black, l.right(), x, r),
            )
        } else if c == Colour::Black && l.is_red() && l.right().is_red() {
            Shape::fork(
                Colour::Red,
                Shape::fork(Colour::Black, l.left(), l->element, l.right().left()),
                l.right()->element,
                Shape::fork(Colour::Black, l.right().right(), x, r),
            )
        } else if c == Colour::Black && r.is_red() && r.left().is_red() {
            Shape::fork(
                Colour::Red,
                Shape::fork(Colour::Black, l, x, r.left().left()),
                r.left()->element,
                Shape::fork(Colour::Black, r.left().right(), r->element, r.right()),
            )
        } else if c == Colour::Black && r.is_red() && r.right().is_red() {
            Shape::fork(
                Colour::Red,
                Shape::fork(Colour::Black, l, x, r.left()),
                r->element,
                r.right().painted(Colour::Black),
            )
        } else {
            Shape::fork(c, l, x, r)
        }
    }
}

impl<T: PartialOrd> Shape<T> {
    /// The insertion before the root is painted: a red leaf at the place
    /// where the search for `x` ends, and the repair at every node on the way
    /// back up. Where an element ties with `x` it stays, or with `replace`
    /// gives way to `x`.
    pub open spec fn grown(self, x: T, replace: bool) -> Shape<T>
        decreases self,
    {
        match self {
            Shape::Empty => Shape::single(x),
            Shape::Fork { colour, left, element, right } => if precedes(x, element) {
                Shape::balance(colour, left.grown(x, replace), element, *right)
            } else if follows(x, element) {
                Shape::balance(colour, *left, element, right.grown(x, replace))
            } else if replace {
                Shape::Fork { colour, left, element: x, right }
            } else {
                self
            },
        }
    }

    /// The tree after the insertion of `x`.
    pub open spec fn inserted(self, x: T, replace: bool) -> Shape<T> {
        self.grown(x, replace).painted(Colour::Black)
    }

    /// The tree after the insertions of all of `xs`, one after the other.
    pub open spec fn inserted_all(self, xs: Seq<T>, replace: bool) -> Shape<T>
        decreases xs.len(),
    {
        if xs.len() == 0 {
            self
        } else {
            self.inserted_all(xs.drop_last(), replace).inserted(xs.last(), replace)
        }
    }
}

/// Only the empty shape has no elements.
pub proof fn lemma_no_elements<T>(s: Shape<T>)
    ensures
        s.in_order().len() == 0 <==> s is Empty,
{
}

/// Shapes that are coloured alike obey the same colour rules.
pub proof fn lemma_coloured_like<T>(a: Shape<T>, b: Shape<T>)
    requires
        a.is_coloured_like(b),
    ensures
        a.black_height() == b.black_height(),
        a.is_evenly_black() == b.is_evenly_black(),
        a.has_no_red_red() == b.has_no_red_red(),
        a.has_no_red_red_below_root() == b.has_no_red_red_below_root(),
        a.is_red() == b.is_red(),
        a.is_black() == b.is_black(),
        a.left().is_coloured_like(b.left()),
        a.right().is_coloured_like(b.right()),
    decreases a,
{
    match (a, b) {
        (Shape::Fork { left: l1, right: r1, .. }, Shape::Fork { left: l2, right: r2, .. }) => {
            lemma_coloured_like(*l1, *l2);
            lemma_coloured_like(*r1, *r2);
        },
        _ => {},
    }
}

/// Every shape is coloured like itself.
pub proof fn lemma_coloured_like_itself<T>(a: Shape<T>)
    ensures
        a.is_coloured_like(a),
    decreases a,
{
    match a {
        Shape::Fork { left, right, .. } => {
            lemma_coloured_like_itself(*left);
            lemma_coloured_like_itself(*right);
        },
        Shape::Empty => {},
    }
}

/// Two ways to write down five parts in a row.
proof fn lemma_join<T>(a: Seq<T>, y: T, c: Seq<T>, x: T, r: Seq<T>)
    ensures
        a.push(y) + (c.push(x) + r) == (a.push(y) + c).push(x) + r,
{
    assert(a.push(y) + (c.push(x) + r) =~= (a.push(y) + c).push(x) + r);
}

/// The repair keeps the elements in their order from left to right.
pub proof fn lemma_balance_keeps_order<T>(c: Colour, l: Shape<T>, x: T, r: Shape<T>)
    ensures
        Shape::balance(c, l, x, r).in_order() == l.in_order().push(x) + r.in_order(),
{
    reveal_with_fuel(Shape::in_order, 2);
    let b = Shape::balance(c, l, x, r);
    let rs = r.in_order();
    if c == Colour::Black && l.is_red() && l.left().is_red() {
        let ll = l.left();
        assert(ll.painted(Colour::Black).in_order() == ll.in_order());
        assert(b.in_order() == ll.in_order().push(l->element) + (l.right().in_order().push(x)
            + rs));
        lemma_join(ll.in_order(), l->element, l.right().in_order(), x, rs);
    } else if c == Colour::Black && l.is_red() && l.right().is_red() {
        let a = l.left().in_order();
        let lr = l.right();
        let m = lr.left().in_order();
        let n = lr.right().in_order();
        assert(b.in_order() == (a.push(l->element) + m).push(lr->element) + (n.push(x) + rs));
        lemma_join(a.push(l->element) + m, lr->element, n, x, rs);
        lemma_join(a, l->element, m, lr->element, n);
    } else if c == Colour::Black && r.is_red() && r.left().is_red() {
        let a = l.in_order();
        let rl = r.left();
        let m = rl.left().in_order();
        let n = rl.right().in_order();
        let d = r.right().in_order();
        assert(b.in_order() == (a.push(x) + m).push(rl->element) + (n.push(r->element) + d));
        lemma_join(a.push(x) + m, rl->element, n, r->element, d);
        lemma_join(a, x, m, rl->element, n);
        assert(rs == (m.push(rl->element) + n).push(r->element) + d);
        lemma_join(a, x, m.push(rl->element) + n, r->element, d);
    } else if c == Colour::Black && r.is_red() && r.right().is_red() {
        let a = l.in_order();
        let m = r.left().in_order();
        let rr = r.right();
        assert(rr.painted(Colour::Black).in_order() == rr.in_order());
        assert(b.in_order() == (a.push(x) + m).push(r->element) + rr.in_order());
        lemma_join(a, x, m, r->element, rr.in_order());
    } else {
    }
}

/// The repair of a black node: where one subtree may have a red root with a
/// red child and all else obeys the rules, the result obeys them all and is
/// one black node higher than the subtrees.
pub proof fn lemma_balance_black<T>(l: Shape<T>, x: T, r: Shape<T>)
    requires
        l.is_evenly_black(),
        r.is_evenly_black(),
        l.black_height() == r.black_height(),
        l.has_no_red_red() && r.has_no_red_red_below_root() || l.has_no_red_red_below_root()
            && r.has_no_red_red(),
    ensures
        Shape::balance(Colour::Black, l, x, r).is_balanced(),
        Shape::balance(Colour::Black, l, x, r).black_height() == l.black_height() + 1,
{
    reveal_with_fuel(Shape::black_height, 3);
    reveal_with_fuel(Shape::is_evenly_black, 3);
    reveal_with_fuel(Shape::has_no_red_red, 3);
}

/// What the insertion yields before the root is painted: the same black
/// height, evenly black, no red node with a red child below the root, and
/// none at the root either where the root was not red before.
pub proof fn lemma_grown_colours<T: PartialOrd>(s: Shape<T>, x: T, replace: bool)
    requires
        s.is_balanced(),
    ensures
        s.grown(x, replace) is Fork,
        s.grown(x, replace).is_evenly_black(),
        s.grown(x, replace).black_height() == s.black_height(),
        s.grown(x, replace).has_no_red_red_below_root(),
        !s.is_red() ==> s.grown(x, replace).has_no_red_red(),
    decreases s,
{
    match s {
        Shape::Empty => {},
        Shape::Fork { colour, left, element, right } => {
            if precedes(x, element) {
                lemma_grown_colours(*left, x, replace);
                if colour == Colour::Black {
                    lemma_balance_black(left.grown(x, replace), element, *right);
                }
            } else if follows(x, element) {
                lemma_grown_colours(*right, x, replace);
                if colour == Colour::Black {
                    lemma_balance_black(*left, element, right.grown(x, replace));
                }
            }
        },
    }
}

/// Red-black invariants: the insertion into a tree that obeys the rules of a
/// subtree yields a tree that has no red node with a red child, passes the
/// same number of black nodes on every way down, and has a black root.
pub proof fn lemma_inserted_is_red_black<T: PartialOrd>(s: Shape<T>, x: T, replace: bool)
    requires
        s.is_balanced(),
    ensures
        s.inserted(x, replace).is_red_black(),
        s.inserted(x, replace).is_black(),
{
    lemma_grown_colours(s, x, replace);
}

/// Red-black invariants of every sequence of insertions: whatever is inserted
/// into a red-black tree, in whatever order, the tree stays a red-black tree.
pub proof fn lemma_inserted_all_is_red_black<T: PartialOrd>(s: Shape<T>, xs: Seq<T>, replace: bool)
    requires
        s.is_red_black(),
    ensures
        s.inserted_all(xs, replace).is_red_black(),
    decreases xs.len(),
{
    if xs.len() > 0 {
        lemma_inserted_all_is_red_black(s, xs.drop_last(), replace);
        lemma_inserted_is_red_black(s.inserted_all(xs.drop_last(), replace), xs.last(), replace);
    }
}

/// Read from left to right, the insertion into a tree is the insertion into
/// a sorted sequence.
pub proof fn lemma_grown_in_order<T: PartialOrd>(s: Shape<T>, x: T, replace: bool)
    requires
        is_strict_weak_order::<T>(),
        is_sorted(s.in_order()),
    ensures
        s.grown(x, replace).in_order() == seq_inserted(s.in_order(), x, replace),
    decreases s,
{
    match s {
        Shape::Empty => {
            assert(Shape::single(x).in_order() =~= seq![x]);
        },
        Shape::Fork { colour, left, element, right } => {
            let a = left.in_order();
            let b = right.in_order();
            let mid = seq![element] + b;
            assert(s.in_order() =~= a + mid);
            assert(s.in_order() =~= a.push(element) + b);
            lemma_sorted_parts(a, mid);
            lemma_sorted_parts(a.push(element), b);
            assert(mid[0] == element);
            if precedes(x, element) {
                lemma_grown_in_order(*left, x, replace);
                lemma_balance_keeps_order(colour, left.grown(x, replace), element, *right);
                lemma_inserted_before(a, mid, x, replace);
                assert(seq_inserted(a, x, replace) + mid =~= seq_inserted(a, x, replace).push(
                    element,
                ) + b);
            } else if follows(x, element) {
                lemma_grown_in_order(*right, x, replace);
                lemma_balance_keeps_order(colour, *left, element, right.grown(x, replace));
                assert(precedes(element, x) <==> follows(x, element));
                assert forall|i: int| 0 <= i < a.push(element).len() implies follows(
                    x,
                    #[trigger] a.push(element)[i],
                ) by {
                    let e = a.push(element)[i];
                    if i < a.len() {
                        assert(precedes(a[i], mid[0]));
                        assert(precedes(e, element) && precedes(element, x));
                    }
                    assert(precedes(e, x) <==> follows(x, e));
                }
                lemma_inserted_behind(a.push(element), b, x, replace);
            } else {
                assert(ties(x, element));
                assert(precedes(element, x) <==> follows(x, element));
                assert(ties(element, x));
                assert forall|i: int| 0 <= i < a.len() implies follows(x, #[trigger] a[i]) by {
                    assert(precedes(a[i], mid[0]));
                    assert(precedes(a[i], element) && ties(element, x));
                    assert(precedes(a[i], x) <==> follows(x, a[i]));
                }
                lemma_inserted_behind(a, mid, x, replace);
                if replace {
                    assert(Shape::Fork { colour, left, element: x, right }.in_order() =~= a + mid.update(
                        0,
                        x,
                    ));
                }
            }
        },
    }
}

/// The tree after an insertion, read from left to right, is the sorted
/// sequence of before with the new element inserted, and is sorted.
pub proof fn lemma_inserted_in_order<T: PartialOrd>(s: Shape<T>, x: T, replace: bool)
    requires
        is_strict_weak_order::<T>(),
        is_sorted(s.in_order()),
    ensures
        s.inserted(x, replace).in_order() == seq_inserted(s.in_order(), x, replace),
        is_sorted(s.inserted(x, replace).in_order()),
{
    lemma_grown_in_order(s, x, replace);
    lemma_inserted_is_sorted(s.in_order(), x, replace);
}

/// Where an element of a sorted tree ties with `x`, the replacing insertion
/// before the root is painted keeps every node and colour in its place.
pub proof fn lemma_grown_replaces_in_place<T: PartialOrd>(s: Shape<T>, x: T)
    requires
        is_strict_weak_order::<T>(),
        is_sorted(s.in_order()),
        s.has_no_red_red(),
        has_tie(s.in_order(), x),
    ensures
        s.grown(x, true).is_coloured_like(s),
    decreases s,
{
    match s {
        Shape::Empty => {},
        Shape::Fork { colour, left, element, right } => {
            let a = left.in_order();
            let b = right.in_order();
            let all = s.in_order();
            assert(all =~= a.push(element) + b);
            assert(all =~= a + (seq![element] + b));
            lemma_sorted_parts(a.push(element), b);
            lemma_sorted_parts(a, seq![element] + b);
            assert(a.push(element)[a.len() as int] == element);
            assert((seq![element] + b)[0] == element);
            lemma_coloured_like_itself(*left);
            lemma_coloured_like_itself(*right);
            assert(left.is_red() ==> !left.left().is_red() && !left.right().is_red()) by {
                reveal_with_fuel(Shape::has_no_red_red, 2);
            }
            assert(right.is_red() ==> !right.left().is_red() && !right.right().is_red()) by {
                reveal_with_fuel(Shape::has_no_red_red, 2);
            }
            let i = choose|i: int| 0 <= i < all.len() && ties(#[trigger] all[i], x);
            assert(precedes(x, all[i]) <==> follows(all[i], x));
            assert(precedes(all[i], x) <==> follows(x, all[i]));
            assert(precedes(x, element) <==> follows(element, x));
            assert(precedes(element, x) <==> follows(x, element));
            if precedes(x, element) {
                if i > a.len() {
                    let j = i - a.len() - 1;
                    assert(all[i] == b[j]);
                    assert(precedes(a.push(element)[a.len() as int], b[j]));
                    assert(precedes(x, element) && precedes(element, b[j]));
                }
                assert(i < a.len());
                assert(all[i] == a[i]);
                lemma_grown_replaces_in_place(*left, x);
                let grown = left.grown(x, true);
                lemma_coloured_like(grown, *left);
                lemma_coloured_like(grown.left(), left.left());
                lemma_coloured_like(grown.right(), left.right());
                assert(Shape::balance(colour, grown, element, *right) == Shape::fork(
                    colour,
                    grown,
                    element,
                    *right,
                ));
            } else if follows(x, element) {
                if i < a.len() {
                    assert(all[i] == a[i]);
                    assert(precedes(a[i], (seq![element] + b)[0]));
                    assert(precedes(a[i], element) && precedes(element, x));
                }
                assert(i > a.len());
                assert(all[i] == b[i - a.len() - 1]);
                lemma_grown_replaces_in_place(*right, x);
                let grown = right.grown(x, true);
                lemma_coloured_like(grown, *right);
                lemma_coloured_like(grown.left(), right.left());
                lemma_coloured_like(grown.right(), right.right());
                assert(Shape::balance(colour, *left, element, grown) == Shape::fork(
                    colour,
                    *left,
                    element,
                    grown,
                ));
            }
        },
    }
}

/// Where an element of a sorted red-black tree ties with `x`, the replacing
/// insertion keeps every node and colour in its place: the element alone
/// gives way.
pub proof fn lemma_replaced_in_place<T: PartialOrd>(s: Shape<T>, x: T)
    requires
        is_strict_weak_order::<T>(),
        is_sorted(s.in_order()),
        s.is_red_black(),
        has_tie(s.in_order(), x),
    ensures
        s.inserted(x, true).is_coloured_like(s),
{
    lemma_grown_replaces_in_place(s, x);
    lemma_coloured_like(s.grown(x, true), s);
}

/// In a sorted tree the ordered search finds the one element that ties with
/// the query, and nothing where none does.
pub proof fn lemma_find<T: PartialOrd + PartialOrd<Q>, Q>(s: Shape<T>, q: Q)
    requires
        is_sorted(s.in_order()),
        is_cut::<T, Q>(q),
    ensures
        match s.find(q) {
            Some(e) => s.in_order().contains(e) && ties(e, q),
            None => !has_tie(s.in_order(), q),
        },
    decreases s,
{
    match s {
        Shape::Empty => {},
        Shape::Fork { colour, left, element, right } => {
            let a = left.in_order();
            let b = right.in_order();
            let all = s.in_order();
            assert(all =~= a.push(element) + b);
            assert(all =~= a + (seq![element] + b));
            lemma_sorted_parts(a.push(element), b);
            lemma_sorted_parts(a, seq![element] + b);
            assert(a.push(element)[a.len() as int] == element);
            assert((seq![element] + b)[0] == element);
            if follows(element, q) {
                lemma_find(*left, q);
                match left.find(q) {
                    Some(e) => {
                        let i = choose|i: int| 0 <= i < a.len() && a[i] == e;
                        assert(all[i] == e);
                    },
                    None => {
                        assert forall|i: int| 0 <= i < all.len() implies !ties(
                            #[trigger] all[i],
                            q,
                        ) by {
                            if i < a.len() {
                                assert(all[i] == a[i]);
                            } else if i > a.len() {
                                let j = i - a.len() - 1;
                                assert(all[i] == b[j]);
                                assert(precedes(a.push(element)[a.len() as int], b[j]));
                                assert(precedes(element, q) || follows(b[j], q));
                            }
                        }
                    },
                }
            } else if precedes(element, q) {
                lemma_find(*right, q);
                match right.find(q) {
                    Some(e) => {
                        let i = choose|i: int| 0 <= i < b.len() && b[i] == e;
                        assert(all[a.len() + 1 + i] == e);
                    },
                    None => {
                        assert forall|i: int| 0 <= i < all.len() implies !ties(
                            #[trigger] all[i],
                            q,
                        ) by {
                            if i < a.len() {
                                assert(all[i] == a[i]);
                                assert(precedes(a[i], (seq![element] + b)[0]));
                                assert(precedes(a[i], q) || follows(element, q));
                            } else if i > a.len() {
                                assert(all[i] == b[i - a.len() - 1]);
                            }
                        }
                    },
                }
            } else {
                assert(all[a.len() as int] == element);
            }
        },
    }
}

} // verus!
