//! Sorted sequences: what a tree's elements are when read from left to right.

use super::order::{
    follows, is_cut, is_strict_weak_order, lemma_ties_is_symmetric, lemma_ties_is_transitive,
    lemma_ties_with_itself, precedes, ties,
};
use vstd::prelude::*;

verus! {

/// Each element sorts strictly before all that come after it.
pub open spec fn is_sorted<T: PartialOrd>(s: Seq<T>) -> bool {
    forall|i: int, j: int| 0 <= i < j < s.len() ==> precedes(#[trigger] s[i], #[trigger] s[j])
}

/// Some element of `s` ties with `q`.
pub open spec fn has_tie<T: PartialOrd<Q>, Q>(s: Seq<T>, q: Q) -> bool {
    exists|i: int| 0 <= i < s.len() && ties(#[trigger] s[i], q)
}

/// The sorted sequence `s` after the insertion of `x`: `x` stands before the
/// first element that it sorts before. An element that ties with `x` stays in
/// place of `x`, or with `replace` gives way to `x`.
pub open spec fn seq_inserted<T: PartialOrd>(s: Seq<T>, x: T, replace: bool) -> Seq<T>
    decreases s.len(),
{
    if s.len() == 0 {
        seq![x]
    } else if precedes(x, s[0]) {
        seq![x] + s
    } else if follows(x, s[0]) {
        seq![s[0]] + seq_inserted(s.drop_first(), x, replace)
    } else if replace {
        s.update(0, x)
    } else {
        s
    }
}

/// Parts of a sorted sequence are sorted.
pub proof fn lemma_sorted_parts<T: PartialOrd>(a: Seq<T>, b: Seq<T>)
    requires
        is_sorted(a + b),
    ensures
        is_sorted(a),
        is_sorted(b),
        forall|i: int, j: int|
            0 <= i < a.len() && 0 <= j < b.len() ==> precedes(#[trigger] a[i], #[trigger] b[j]),
{
    let s = a + b;
    assert forall|i: int, j: int| 0 <= i < j < a.len() implies precedes(
        #[trigger] a[i],
        #[trigger] a[j],
    ) by {
        assert(s[i] == a[i] && s[j] == a[j]);
    }
    assert forall|i: int, j: int| 0 <= i < j < b.len() implies precedes(
        #[trigger] b[i],
        #[trigger] b[j],
    ) by {
        assert(s[a.len() + i] == b[i] && s[a.len() + j] == b[j]);
    }
    assert forall|i: int, j: int| 0 <= i < a.len() && 0 <= j < b.len() implies precedes(
        #[trigger] a[i],
        #[trigger] b[j],
    ) by {
        assert(s[i] == a[i] && s[a.len() + j] == b[j]);
    }
}

/// An insertion in front of the part `b` leaves `b` alone where `x` sorts
/// before the first of `b`.
pub proof fn lemma_inserted_before<T: PartialOrd>(a: Seq<T>, b: Seq<T>, x: T, replace: bool)
    requires
        b.len() > 0,
        precedes(x, b[0]),
    ensures
        seq_inserted(a + b, x, replace) == seq_inserted(a, x, replace) + b,
    decreases a.len(),
{
    let s = a + b;
    if a.len() == 0 {
        assert(s =~= b);
        assert(seq_inserted(a, x, replace) + b =~= seq![x] + b);
    } else {
        assert(s[0] == a[0]);
        if precedes(x, a[0]) {
            assert(seq![x] + s =~= (seq![x] + a) + b);
        } else if follows(x, a[0]) {
            assert(s.drop_first() =~= a.drop_first() + b);
            lemma_inserted_before(a.drop_first(), b, x, replace);
            assert(seq![s[0]] + (seq_inserted(a.drop_first(), x, replace) + b) =~= (seq![a[0]]
                + seq_inserted(a.drop_first(), x, replace)) + b);
        } else if replace {
            assert(s.update(0, x) =~= a.update(0, x) + b);
        } else {
        }
    }
}

/// An insertion behind the part `a` leaves `a` alone where `x` sorts after
/// all of `a`.
pub proof fn lemma_inserted_behind<T: PartialOrd>(a: Seq<T>, b: Seq<T>, x: T, replace: bool)
    requires
        forall|i: int| 0 <= i < a.len() ==> follows(x, #[trigger] a[i]),
    ensures
        seq_inserted(a + b, x, replace) == a + seq_inserted(b, x, replace),
    decreases a.len(),
{
    let s = a + b;
    if a.len() == 0 {
        assert(s =~= b);
        assert(a + seq_inserted(b, x, replace) =~= seq_inserted(b, x, replace));
    } else {
        assert(s[0] == a[0]);
        assert(follows(x, a[0]));
        assert(s.drop_first() =~= a.drop_first() + b);
        assert forall|i: int| 0 <= i < a.drop_first().len() implies follows(
            x,
            #[trigger] a.drop_first()[i],
        ) by {
            assert(a.drop_first()[i] == a[i + 1]);
        }
        lemma_inserted_behind(a.drop_first(), b, x, replace);
        assert(seq![s[0]] + (a.drop_first() + seq_inserted(b, x, replace)) =~= a + seq_inserted(
            b,
            x,
            replace,
        ));
    }
}

/// Whatever stands in a sequence after an insertion is the new element or
/// stood there before.
pub proof fn lemma_inserted_holds_no_more<T: PartialOrd>(s: Seq<T>, x: T, replace: bool, j: int)
    requires
        0 <= j < seq_inserted(s, x, replace).len(),
    ensures
        seq_inserted(s, x, replace)[j] == x || s.contains(seq_inserted(s, x, replace)[j]),
    decreases s.len(),
{
    if s.len() == 0 {
    } else if precedes(x, s[0]) {
        if j > 0 {
            assert(s[j - 1] == seq_inserted(s, x, replace)[j]);
        }
    } else if follows(x, s[0]) {
        if j > 0 {
            lemma_inserted_holds_no_more(s.drop_first(), x, replace, j - 1);
            let e = seq_inserted(s, x, replace)[j];
            if e != x {
                let k = choose|k: int| 0 <= k < s.drop_first().len() && s.drop_first()[k] == e;
                assert(s[k + 1] == e);
            }
        } else {
            assert(s[0] == seq_inserted(s, x, replace)[0]);
        }
    } else if replace {
        if j > 0 {
            assert(s[j] == seq_inserted(s, x, replace)[j]);
        }
    } else {
        assert(s[j] == seq_inserted(s, x, replace)[j]);
    }
}

/// Whatever stood in a sequence before an insertion stands in it afterwards,
/// but for an element that tied with the new one and gave way to it.
pub proof fn lemma_inserted_holds_no_less<T: PartialOrd>(s: Seq<T>, x: T, replace: bool, i: int)
    requires
        0 <= i < s.len(),
    ensures
        seq_inserted(s, x, replace).contains(s[i]) || (replace && ties(x, s[i])
            && seq_inserted(s, x, replace).contains(x)),
    decreases s.len(),
{
    let r = seq_inserted(s, x, replace);
    if precedes(x, s[0]) {
        assert(r[i + 1] == s[i]);
    } else if follows(x, s[0]) {
        let t = seq_inserted(s.drop_first(), x, replace);
        if i > 0 {
            lemma_inserted_holds_no_less(s.drop_first(), x, replace, i - 1);
            assert(s.drop_first()[i - 1] == s[i]);
            if t.contains(s[i]) {
                let k = choose|k: int| 0 <= k < t.len() && t[k] == s[i];
                assert(r[k + 1] == s[i]);
            } else {
                let k = choose|k: int| 0 <= k < t.len() && t[k] == x;
                assert(r[k + 1] == x);
            }
        } else {
            assert(r[0] == s[0]);
        }
    } else if replace {
        assert(r[0] == x);
        if i > 0 {
            assert(r[i] == s[i]);
        }
    } else {
        assert(r[i] == s[i]);
    }
}

/// After an insertion of `x` some element ties with `x`; with `replace` it
/// is `x` itself.
pub proof fn lemma_inserted_holds_new<T: PartialOrd>(s: Seq<T>, x: T, replace: bool)
    requires
        is_strict_weak_order::<T>(),
    ensures
        has_tie(seq_inserted(s, x, replace), x),
        replace ==> seq_inserted(s, x, replace).contains(x),
    decreases s.len(),
{
    let r = seq_inserted(s, x, replace);
    lemma_ties_with_itself(x);
    if s.len() == 0 {
        assert(r[0] == x);
    } else if precedes(x, s[0]) {
        assert(r[0] == x);
    } else if follows(x, s[0]) {
        let t = seq_inserted(s.drop_first(), x, replace);
        lemma_inserted_holds_new(s.drop_first(), x, replace);
        let k = choose|k: int| 0 <= k < t.len() && ties(#[trigger] t[k], x);
        assert(r[k + 1] == t[k]);
        if replace {
            let m = choose|m: int| 0 <= m < t.len() && t[m] == x;
            assert(r[m + 1] == x);
        }
    } else if replace {
        assert(r[0] == x);
    } else {
        lemma_ties_is_symmetric(x, s[0]);
        assert(r[0] == s[0]);
    }
}

/// An insertion into a sorted sequence yields a sorted sequence.
pub proof fn lemma_inserted_is_sorted<T: PartialOrd>(s: Seq<T>, x: T, replace: bool)
    requires
        is_strict_weak_order::<T>(),
        is_sorted(s),
    ensures
        is_sorted(seq_inserted(s, x, replace)),
    decreases s.len(),
{
    let r = seq_inserted(s, x, replace);
    if s.len() == 0 {
    } else if precedes(x, s[0]) {
        assert forall|i: int, j: int| 0 <= i < j < r.len() implies precedes(
            #[trigger] r[i],
            #[trigger] r[j],
        ) by {
            if i == 0 {
                if j > 1 {
                    assert(precedes(x, s[0]) && precedes(s[0], s[j - 1]));
                }
            } else {
                assert(r[i] == s[i - 1] && r[j] == s[j - 1]);
            }
        }
    } else if follows(x, s[0]) {
        let rest = s.drop_first();
        let t = seq_inserted(rest, x, replace);
        assert(is_sorted(rest)) by {
            assert forall|i: int, j: int| 0 <= i < j < rest.len() implies precedes(
                #[trigger] rest[i],
                #[trigger] rest[j],
            ) by {
                assert(rest[i] == s[i + 1] && rest[j] == s[j + 1]);
            }
        }
        lemma_inserted_is_sorted(rest, x, replace);
        assert(precedes(s[0], x) <==> follows(x, s[0]));
        assert forall|i: int, j: int| 0 <= i < j < r.len() implies precedes(
            #[trigger] r[i],
            #[trigger] r[j],
        ) by {
            if i == 0 {
                lemma_inserted_holds_no_more(rest, x, replace, j - 1);
                assert(r[j] == t[j - 1]);
                if t[j - 1] != x {
                    let k = choose|k: int| 0 <= k < rest.len() && rest[k] == t[j - 1];
                    assert(rest[k] == s[k + 1]);
                }
            } else {
                assert(r[i] == t[i - 1] && r[j] == t[j - 1]);
            }
        }
    } else if replace {
        assert forall|i: int, j: int| 0 <= i < j < r.len() implies precedes(
            #[trigger] r[i],
            #[trigger] r[j],
        ) by {
            if i == 0 {
                assert(ties(x, s[0]) && precedes(s[0], s[j]));
            } else {
                assert(r[i] == s[i] && r[j] == s[j]);
            }
        }
    } else {
    }
}

/// Order preservation: after an insertion of `x`, an element ties with `q`
/// exactly if one did before or `x` does.
pub proof fn lemma_inserted_ties<T: PartialOrd>(s: Seq<T>, x: T, replace: bool, q: T)
    requires
        is_strict_weak_order::<T>(),
    ensures
        has_tie(seq_inserted(s, x, replace), q) <==> has_tie(s, q) || ties(x, q),
{
    let r = seq_inserted(s, x, replace);
    if has_tie(r, q) {
        let j = choose|j: int| 0 <= j < r.len() && ties(#[trigger] r[j], q);
        lemma_inserted_holds_no_more(s, x, replace, j);
        if r[j] != x {
            let k = choose|k: int| 0 <= k < s.len() && s[k] == r[j];
            assert(ties(s[k], q));
        }
    }
    if has_tie(s, q) {
        let i = choose|i: int| 0 <= i < s.len() && ties(#[trigger] s[i], q);
        lemma_inserted_holds_no_less(s, x, replace, i);
        if r.contains(s[i]) {
            let k = choose|k: int| 0 <= k < r.len() && r[k] == s[i];
            assert(ties(r[k], q));
        } else {
            let k = choose|k: int| 0 <= k < r.len() && r[k] == x;
            lemma_ties_is_transitive(x, s[i], q);
            assert(ties(r[k], q));
        }
    }
    if ties(x, q) {
        lemma_inserted_holds_new(s, x, replace);
        let k = choose|k: int| 0 <= k < r.len() && ties(#[trigger] r[k], x);
        lemma_ties_is_transitive(r[k], x, q);
    }
}

/// In a sorted sequence at most one element ties with a query.
pub proof fn lemma_tie_is_unique<T: PartialOrd + PartialOrd<Q>, Q>(s: Seq<T>, q: Q, i: int, j: int)
    requires
        is_sorted(s),
        is_cut::<T, Q>(q),
        0 <= i < s.len(),
        0 <= j < s.len(),
        ties(s[i], q),
        ties(s[j], q),
    ensures
        i == j,
{
    if i < j {
        assert(precedes(s[i], s[j]));
        assert(precedes(s[i], q) || follows(s[j], q));
    }
    if j < i {
        assert(precedes(s[j], s[i]));
        assert(precedes(s[j], q) || follows(s[i], q));
    }
}

} // verus!
