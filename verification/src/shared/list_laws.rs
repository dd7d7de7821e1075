//! What the list functions compute when the functions handed to them compute
//! mathematical functions, and the laws that follow.

use super::link::Link;
use super::list::{
    can_fold_left, can_fold_right, flattened, folds_left, folds_right, is_image, is_verdict, kept,
    List,
};
use vstd::prelude::*;

verus! {

/// Where `p` computes the predicate `accepts`, the elements that `p` keeps
/// are those that `accepts` holds of.
pub proof fn lemma_kept_is_filter<P: FnOnce(&T) -> bool, T>(
    p: P,
    accepts: spec_fn(T) -> bool,
    s: Seq<T>,
    keep: Seq<bool>,
)
    requires
        is_verdict(p, s, keep),
        forall|x: T, b: bool| #[trigger] call_ensures(p, (&x,), b) ==> b == accepts(x),
    ensures
        kept(s, keep) == s.filter(accepts),
    decreases s.len(),
{
    reveal(Seq::filter);
    if s.len() > 0 {
        assert(call_ensures(p, (&s[s.len() - 1],), keep[s.len() - 1]));
        assert forall|i: int| 0 <= i < s.drop_last().len() implies call_ensures(
            p,
            (&s.drop_last()[i],),
            #[trigger] keep.drop_last()[i],
        ) by {
            assert(call_ensures(p, (&s[i],), keep[i]));
        }
        lemma_kept_is_filter(p, accepts, s.drop_last(), keep.drop_last());
    }
}

/// Where `f` computes the function `image`, the elements that `fmap` yields
/// are the images of the elements.
pub proof fn lemma_mapped_is_map<F: FnOnce(&T) -> U, T, U>(
    f: F,
    image: spec_fn(T) -> U,
    s: Seq<T>,
    r: Seq<U>,
)
    requires
        r.len() == s.len(),
        forall|i: int| 0 <= i < s.len() ==> call_ensures(f, (&s[i],), #[trigger] r[i]),
        forall|x: T, y: U| #[trigger] call_ensures(f, (&x,), y) ==> y == image(x),
    ensures
        r == s.map_values(image),
{
    assert forall|i: int| 0 <= i < s.len() implies r[i] == image(s[i]) by {
        assert(call_ensures(f, (&s[i],), r[i]));
    }
    assert(r =~= s.map_values(image));
}

/// The sequences that `k` gives for the elements of `s`, one after the
/// other.
pub open spec fn seq_bind<A, B>(s: Seq<A>, k: spec_fn(A) -> Seq<B>) -> Seq<B>
    decreases s.len(),
{
    if s.len() == 0 {
        Seq::empty()
    } else {
        seq_bind(s.drop_last(), k) + k(s.last())
    }
}

/// Where `k` returns lists whose elements are given by `image`, what `mbind`
/// joins is the bind of the sequence with `image`.
pub proof fn lemma_image_is_bind<K: Fn(&T) -> List<L>, T, L: Link>(
    k: K,
    image: spec_fn(T) -> Seq<L::ValueType>,
    s: Seq<T>,
    lists: Seq<List<L>>,
)
    requires
        is_image(k, s, lists),
        forall|x: T, l: List<L>| #[trigger] call_ensures(k, (&x,), l) ==> l@ == image(x),
    ensures
        flattened(lists) == seq_bind(s, image),
    decreases s.len(),
{
    if s.len() > 0 {
        assert(call_ensures(k, (&s[s.len() - 1],), lists[s.len() - 1]));
        assert forall|i: int| 0 <= i < s.drop_last().len() implies call_ensures(
            k,
            (&s.drop_last()[i],),
            #[trigger] lists.drop_last()[i],
        ) by {
            assert(call_ensures(k, (&s[i],), lists[i]));
        }
        lemma_image_is_bind(k, image, s.drop_last(), lists.drop_last());
    }
}

/// The bind of two sequences in a row is the two binds in a row.
pub proof fn lemma_bind_distributes<A, B>(a: Seq<A>, b: Seq<A>, k: spec_fn(A) -> Seq<B>)
    ensures
        seq_bind(a + b, k) == seq_bind(a, k) + seq_bind(b, k),
    decreases b.len(),
{
    if b.len() == 0 {
        assert(a + b =~= a);
        assert(seq_bind(a, k) + seq_bind(b, k) =~= seq_bind(a, k));
    } else {
        assert((a + b).drop_last() =~= a + b.drop_last());
        assert((a + b).last() == b.last());
        lemma_bind_distributes(a, b.drop_last(), k);
        assert((seq_bind(a, k) + seq_bind(b.drop_last(), k)) + k(b.last()) =~= seq_bind(a, k) + (
        seq_bind(b.drop_last(), k) + k(b.last())));
    }
}

/// Monad law, left identity: the bind of the list of `x` alone with `k` is
/// `k(x)`.
pub proof fn lemma_bind_left_identity<A, B>(x: A, k: spec_fn(A) -> Seq<B>)
    ensures
        seq_bind(seq![x], k) == k(x),
{
    let s = seq![x];
    assert(s.drop_last() =~= Seq::<A>::empty());
    assert(s.last() == x);
    assert(seq_bind(s.drop_last(), k) + k(x) =~= k(x));
}

/// Monad law, right identity: the bind of a list with the function that
/// returns the list of its argument alone is the list.
pub proof fn lemma_bind_right_identity<A>(s: Seq<A>)
    ensures
        seq_bind(s, |x: A| seq![x]) == s,
    decreases s.len(),
{
    let unit = |x: A| seq![x];
    if s.len() > 0 {
        lemma_bind_right_identity(s.drop_last());
        assert(s.drop_last() + unit(s.last()) =~= s);
    } else {
        assert(seq_bind(s, unit) =~= s);
    }
}

/// Monad law, associativity: to bind with `k1` and then with `k2` is to bind
/// with the function that binds what `k1` returns with `k2`.
pub proof fn lemma_bind_associative<A, B, C>(
    s: Seq<A>,
    k1: spec_fn(A) -> Seq<B>,
    k2: spec_fn(B) -> Seq<C>,
)
    ensures
        seq_bind(seq_bind(s, k1), k2) == seq_bind(s, |x: A| seq_bind(k1(x), k2)),
    decreases s.len(),
{
    let both = |x: A| seq_bind(k1(x), k2);
    if s.len() > 0 {
        lemma_bind_associative(s.drop_last(), k1, k2);
        lemma_bind_distributes(seq_bind(s.drop_last(), k1), k1(s.last()), k2);
        assert(both(s.last()) == seq_bind(k1(s.last()), k2));
    }
}

/// A left fold can be made, and ends in `inv`, where `inv` holds of the start
/// and no element behind it, and `f` accepts whatever `inv` holds of with
/// the next element and returns what `inv` holds of with one element less
/// behind it.
pub proof fn lemma_fold_left_by_invariant<F: FnOnce(U, &T) -> U, T, U>(
    f: F,
    inv: spec_fn(U, int) -> bool,
    acc: U,
    s: Seq<T>,
    done: int,
)
    requires
        0 <= done <= s.len(),
        inv(acc, done),
        forall|a: U, i: int|
            0 <= i < s.len() && #[trigger] inv(a, i) ==> call_requires(f, (a, &s[i])),
        forall|a: U, i: int, r: U|
            0 <= i < s.len() && inv(a, i) && #[trigger] call_ensures(f, (a, &s[i]), r) ==> inv(
                r,
                i + 1,
            ),
    ensures
        can_fold_left(f, acc, s.skip(done)),
        forall|r: U| folds_left(f, acc, s.skip(done), r) ==> inv(r, s.len() as int),
    decreases s.len() - done,
{
    let rest = s.skip(done);
    if done < s.len() {
        assert(rest[0] == s[done]);
        assert(rest.drop_first() =~= s.skip(done + 1));
        assert forall|mid: U|
            #![trigger call_ensures(f, (acc, &rest[0]), mid)]
            call_ensures(f, (acc, &rest[0]), mid) implies can_fold_left(
            f,
            mid,
            rest.drop_first(),
        ) && forall|r: U| folds_left(f, mid, rest.drop_first(), r) ==> inv(r, s.len() as int) by {
            lemma_fold_left_by_invariant(f, inv, mid, s, done + 1);
        }
        assert forall|r: U| folds_left(f, acc, rest, r) implies inv(r, s.len() as int) by {
            let mid = choose|mid: U|
                #![trigger call_ensures(f, (acc, &rest[0]), mid)]
                call_ensures(f, (acc, &rest[0]), mid) && folds_left(f, mid, rest.drop_first(), r);
        }
    }
}

/// A right fold can be made, and ends in `inv`, where `inv` holds of the
/// start and no element in front of it, and `f` accepts the element before
/// with whatever `inv` holds of and returns what `inv` holds of with one
/// element more in front of it.
pub proof fn lemma_fold_right_by_invariant<F: FnOnce(&T, U) -> U, T, U>(
    f: F,
    inv: spec_fn(U, int) -> bool,
    acc: U,
    s: Seq<T>,
    from: int,
)
    requires
        0 <= from <= s.len(),
        inv(acc, 0),
        forall|a: U, i: int|
            0 <= i < s.len() && #[trigger] inv(a, i) ==> call_requires(
                f,
                (&s[s.len() - 1 - i], a),
            ),
        forall|a: U, i: int, r: U|
            0 <= i < s.len() && inv(a, i) && #[trigger] call_ensures(
                f,
                (&s[s.len() - 1 - i], a),
                r,
            ) ==> inv(r, i + 1),
    ensures
        can_fold_right(f, acc, s.skip(from)),
        forall|r: U| folds_right(f, acc, s.skip(from), r) ==> inv(r, s.len() - from),
    decreases s.len() - from,
{
    let rest = s.skip(from);
    if from < s.len() {
        assert(rest[0] == s[from]);
        assert(rest.drop_first() =~= s.skip(from + 1));
        lemma_fold_right_by_invariant(f, inv, acc, s, from + 1);
        assert forall|mid: U|
            #![trigger call_requires(f, (&rest[0], mid))]
            folds_right(f, acc, rest.drop_first(), mid) implies call_requires(
            f,
            (&rest[0], mid),
        ) by {
            assert(inv(mid, s.len() - from - 1));
            assert(s[s.len() - 1 - (s.len() - from - 1)] == s[from]);
        }
        assert forall|r: U| folds_right(f, acc, rest, r) implies inv(r, s.len() - from) by {
            let mid = choose|mid: U|
                #![trigger call_ensures(f, (&rest[0], mid), r)]
                folds_right(f, acc, rest.drop_first(), mid) && call_ensures(f, (&rest[0], mid), r);
            assert(inv(mid, s.len() - from - 1));
            assert(s[s.len() - 1 - (s.len() - from - 1)] == s[from]);
        }
    }
}

/// The sum of the values of the elements.
pub open spec fn total<T>(s: Seq<T>, value: spec_fn(T) -> int) -> int
    decreases s.len(),
{
    if s.len() == 0 {
        0
    } else {
        value(s[0]) + total(s.drop_first(), value)
    }
}

/// A left fold with a function that adds yields the start plus the sum.
pub proof fn lemma_fold_left_sum<F: FnOnce(T, &T) -> T, T>(
    f: F,
    value: spec_fn(T) -> int,
    acc: T,
    s: Seq<T>,
    r: T,
)
    requires
        forall|a: T, x: T, y: T| #[trigger]
            call_ensures(f, (a, &x), y) ==> value(y) == value(a) + value(x),
        folds_left(f, acc, s, r),
    ensures
        value(r) == value(acc) + total(s, value),
    decreases s.len(),
{
    if s.len() > 0 {
        let mid = choose|mid: T|
            #![trigger call_ensures(f, (acc, &s[0]), mid)]
            call_ensures(f, (acc, &s[0]), mid) && folds_left(f, mid, s.drop_first(), r);
        lemma_fold_left_sum(f, value, mid, s.drop_first(), r);
    }
}

/// A right fold with a function that adds yields the sum plus the start.
pub proof fn lemma_fold_right_sum<G: FnOnce(&T, T) -> T, T>(
    g: G,
    value: spec_fn(T) -> int,
    acc: T,
    s: Seq<T>,
    r: T,
)
    requires
        forall|x: T, a: T, y: T| #[trigger]
            call_ensures(g, (&x, a), y) ==> value(y) == value(x) + value(a),
        folds_right(g, acc, s, r),
    ensures
        value(r) == total(s, value) + value(acc),
    decreases s.len(),
{
    if s.len() > 0 {
        let mid = choose|mid: T|
            #![trigger call_ensures(g, (&s[0], mid), r)]
            folds_right(g, acc, s.drop_first(), mid) && call_ensures(g, (&s[0], mid), r);
        lemma_fold_right_sum(g, value, acc, s.drop_first(), mid);
    }
}

/// Fold agreement on sums: over a list of numbers, the fold from the left
/// and the fold from the right with functions that add their two arguments
/// yield the same.
pub proof fn lemma_folds_agree_on_sum<F: FnOnce(T, &T) -> T, G: FnOnce(&T, T) -> T, T>(
    f: F,
    g: G,
    value: spec_fn(T) -> int,
    acc: T,
    s: Seq<T>,
    r1: T,
    r2: T,
)
    requires
        forall|a: T, b: T| #[trigger] value(a) == #[trigger] value(b) ==> a == b,
        forall|a: T, x: T, y: T| #[trigger]
            call_ensures(f, (a, &x), y) ==> value(y) == value(a) + value(x),
        forall|x: T, a: T, y: T| #[trigger]
            call_ensures(g, (&x, a), y) ==> value(y) == value(x) + value(a),
        folds_left(f, acc, s, r1),
        folds_right(g, acc, s, r2),
    ensures
        r1 == r2,
{
    lemma_fold_left_sum(f, value, acc, s, r1);
    lemma_fold_right_sum(g, value, acc, s, r2);
}

/// The left fold of the operation `op`.
pub open spec fn fold_left_of<T>(op: spec_fn(T, T) -> T, acc: T, s: Seq<T>) -> T
    decreases s.len(),
{
    if s.len() == 0 {
        acc
    } else {
        fold_left_of(op, op(acc, s[0]), s.drop_first())
    }
}

/// The right fold of the operation `op`.
pub open spec fn fold_right_of<T>(op: spec_fn(T, T) -> T, acc: T, s: Seq<T>) -> T
    decreases s.len(),
{
    if s.len() == 0 {
        acc
    } else {
        op(s[0], fold_right_of(op, acc, s.drop_first()))
    }
}

/// `op` gives the same whichever way its arguments are ordered and grouped.
pub open spec fn is_commutative_and_associative<T>(op: spec_fn(T, T) -> T) -> bool {
    &&& forall|a: T, b: T| #[trigger] op(a, b) == op(b, a)
    &&& forall|a: T, b: T, c: T| #[trigger] op(op(a, b), c) == op(a, op(b, c))
}

proof fn lemma_fold_left_absorbs<T>(op: spec_fn(T, T) -> T, acc: T, x: T, s: Seq<T>)
    requires
        is_commutative_and_associative(op),
    ensures
        fold_left_of(op, op(acc, x), s) == op(x, fold_left_of(op, acc, s)),
    decreases s.len(),
{
    if s.len() > 0 {
        lemma_fold_left_absorbs(op, op(acc, s[0]), x, s.drop_first());
        assert(op(op(acc, x), s[0]) == op(acc, op(x, s[0])));
        assert(op(x, s[0]) == op(s[0], x));
        assert(op(op(acc, s[0]), x) == op(acc, op(s[0], x)));
    } else {
        assert(op(acc, x) == op(x, acc));
    }
}

/// For an operation that is commutative and associative the two folds are
/// the same function.
pub proof fn lemma_fold_left_is_fold_right<T>(op: spec_fn(T, T) -> T, acc: T, s: Seq<T>)
    requires
        is_commutative_and_associative(op),
    ensures
        fold_left_of(op, acc, s) == fold_right_of(op, acc, s),
    decreases s.len(),
{
    if s.len() > 0 {
        lemma_fold_left_absorbs(op, acc, s[0], s.drop_first());
        lemma_fold_left_is_fold_right(op, acc, s.drop_first());
    }
}

/// Fold agreement: with functions that compute one commutative and
/// associative operation, the fold from the left and the fold from the right
/// yield the same.
pub proof fn lemma_folds_agree<F: FnOnce(T, &T) -> T, G: FnOnce(&T, T) -> T, T>(
    f: F,
    g: G,
    op: spec_fn(T, T) -> T,
    acc: T,
    s: Seq<T>,
    r1: T,
    r2: T,
)
    requires
        is_commutative_and_associative(op),
        forall|a: T, x: T, y: T| #[trigger] call_ensures(f, (a, &x), y) ==> y == op(a, x),
        forall|x: T, a: T, y: T| #[trigger] call_ensures(g, (&x, a), y) ==> y == op(x, a),
        folds_left(f, acc, s, r1),
        folds_right(g, acc, s, r2),
    ensures
        r1 == r2,
{
    lemma_folds_left_computes(f, op, acc, s, r1);
    lemma_folds_right_computes(g, op, acc, s, r2);
    lemma_fold_left_is_fold_right(op, acc, s);
}

/// Where `f` computes `op`, the fold of `f` from the left is the left fold
/// of `op`.
pub proof fn lemma_folds_left_computes<F: FnOnce(T, &T) -> T, T>(
    f: F,
    op: spec_fn(T, T) -> T,
    acc: T,
    s: Seq<T>,
    r: T,
)
    requires
        forall|a: T, x: T, y: T| #[trigger] call_ensures(f, (a, &x), y) ==> y == op(a, x),
        folds_left(f, acc, s, r),
    ensures
        r == fold_left_of(op, acc, s),
    decreases s.len(),
{
    if s.len() > 0 {
        let mid = choose|mid: T|
            #![trigger call_ensures(f, (acc, &s[0]), mid)]
            call_ensures(f, (acc, &s[0]), mid) && folds_left(f, mid, s.drop_first(), r);
        lemma_folds_left_computes(f, op, mid, s.drop_first(), r);
    }
}

/// Where `g` computes `op`, the fold of `g` from the right is the right fold
/// of `op`.
pub proof fn lemma_folds_right_computes<G: FnOnce(&T, T) -> T, T>(
    g: G,
    op: spec_fn(T, T) -> T,
    acc: T,
    s: Seq<T>,
    r: T,
)
    requires
        forall|x: T, a: T, y: T| #[trigger] call_ensures(g, (&x, a), y) ==> y == op(x, a),
        folds_right(g, acc, s, r),
    ensures
        r == fold_right_of(op, acc, s),
    decreases s.len(),
{
    if s.len() > 0 {
        let mid = choose|mid: T|
            #![trigger call_ensures(g, (&s[0], mid), r)]
            folds_right(g, acc, s.drop_first(), mid) && call_ensures(g, (&s[0], mid), r);
        lemma_folds_right_computes(g, op, acc, s.drop_first(), mid);
    }
}

} // verus!
