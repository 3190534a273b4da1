//! Sorting that keeps the order of equals.

use vstd::prelude::*;

use crate::coords::int_min;

verus! {

/// `s` with `x` put after the last element that may stand before it.
pub open spec fn insert_by<T>(s: Seq<T>, x: T, le: spec_fn(T, T) -> bool) -> Seq<T>
    decreases s.len(),
{
    if s.len() == 0 {
        seq![x]
    } else if le(s.last(), x) {
        s.push(x)
    } else {
        insert_by(s.drop_last(), x, le).push(s.last())
    }
}

/// `s` in order; equals stay in the order in which they came.
pub open spec fn sort_by<T>(s: Seq<T>, le: spec_fn(T, T) -> bool) -> Seq<T>
    decreases s.len(),
{
    if s.len() == 0 {
        Seq::empty()
    } else {
        insert_by(sort_by(s.drop_last(), le), s.last(), le)
    }
}

/// No element stands before one that must come first.
pub open spec fn in_order<T>(s: Seq<T>, le: spec_fn(T, T) -> bool) -> bool {
    forall|i: int, j: int| 0 <= i < j < s.len() ==> le(#[trigger] s[i], #[trigger] s[j])
}

/// `le` compares any two, and is transitive.
pub open spec fn orders<T>(le: spec_fn(T, T) -> bool) -> bool {
    &&& forall|a: T, b: T| #[trigger] le(a, b) || le(b, a)
    &&& forall|a: T, b: T, c: T| #[trigger] le(a, b) && #[trigger] le(b, c) ==> le(a, c)
}

pub proof fn lemma_insert_by<T>(s: Seq<T>, x: T, le: spec_fn(T, T) -> bool)
    ensures
        insert_by(s, x, le).len() == s.len() + 1,
        insert_by(s, x, le).to_multiset() == s.to_multiset().insert(x),
        orders(le) && in_order(s, le) ==> in_order(insert_by(s, x, le), le),
        forall|y: T| #[trigger] insert_by(s, x, le).contains(y) ==> s.contains(y) || y == x,
    decreases s.len(),
{
    broadcast use vstd::seq_lib::group_to_multiset_ensures;

    let r = insert_by(s, x, le);
    if s.len() == 0 {
        assert(r =~= s.push(x));
    } else if le(s.last(), x) {
        assert forall|y: T| #[trigger] r.contains(y) implies s.contains(y) || y == x by {
            let i = choose|i: int| 0 <= i < r.len() && r[i] == y;
            if i < s.len() {
                assert(s[i] == y);
            }
        }
        if orders(le) && in_order(s, le) {
            assert forall|i: int, j: int| 0 <= i < j < r.len() implies le(
                #[trigger] r[i],
                #[trigger] r[j],
            ) by {
                if j == s.len() && i < s.len() - 1 {
                    assert(le(s[i], s[s.len() - 1]));
                }
            }
        }
    } else {
        let d = s.drop_last();
        lemma_insert_by(d, x, le);
        let inner = insert_by(d, x, le);
        assert(s =~= d.push(s.last()));
        assert(r =~= inner.push(s.last()));
        assert(r.to_multiset() =~= s.to_multiset().insert(x));
        assert forall|y: T| #[trigger] r.contains(y) implies s.contains(y) || y == x by {
            let i = choose|i: int| 0 <= i < r.len() && r[i] == y;
            if i < inner.len() {
                assert(inner[i] == y);
                assert(inner.contains(y));
                if d.contains(y) {
                    let k = choose|k: int| 0 <= k < d.len() && d[k] == y;
                    assert(s[k] == y);
                }
            } else {
                assert(s[s.len() - 1] == y);
            }
        }
        if orders(le) && in_order(s, le) {
            assert(in_order(d, le));
            assert forall|i: int, j: int| 0 <= i < j < r.len() implies le(
                #[trigger] r[i],
                #[trigger] r[j],
            ) by {
                if j < inner.len() {
                    assert(le(inner[i], inner[j]));
                } else {
                    assert(inner[i] == r[i]);
                    assert(inner.contains(inner[i]));
                    if d.contains(inner[i]) {
                        let k = choose|k: int| 0 <= k < d.len() && d[k] == inner[i];
                        assert(le(s[k], s[s.len() - 1]));
                    } else {
                        assert(le(s.last(), x) || le(x, s.last()));
                    }
                }
            }
        }
    }
}

/// Sorting keeps every element, and puts them in order.
pub proof fn law_sort_by<T>(s: Seq<T>, le: spec_fn(T, T) -> bool)
    requires
        orders(le),
    ensures
        sort_by(s, le).len() == s.len(),
        sort_by(s, le).to_multiset() == s.to_multiset(),
        in_order(sort_by(s, le), le),
    decreases s.len(),
{
    broadcast use vstd::seq_lib::group_to_multiset_ensures;

    if s.len() > 0 {
        law_sort_by(s.drop_last(), le);
        lemma_insert_by(sort_by(s.drop_last(), le), s.last(), le);
        assert(s =~= s.drop_last().push(s.last()));
    }
}

/// The first `n` of a list that `x` is put into are those of its first `n`.
pub(crate) proof fn lemma_insert_take<T>(s: Seq<T>, x: T, le: spec_fn(T, T) -> bool, n: nat)
    requires
        orders(le),
        in_order(s, le),
    ensures
        insert_by(s, x, le).take(int_min(n as int, s.len() as int + 1)) == insert_by(
            s.take(int_min(n as int, s.len() as int)),
            x,
            le,
        ).take(int_min(n as int, s.len() as int + 1)),
    decreases s.len(),
{
    lemma_insert_by(s, x, le);
    if s.len() <= n {
        assert(s.take(s.len() as int) =~= s);
    } else {
        let t = s.take(n as int);
        lemma_insert_by(t, x, le);
        if n == 0 {
            assert(insert_by(s, x, le).take(0) =~= insert_by(t, x, le).take(0));
        } else if le(s.last(), x) {
            assert(le(s[n - 1], s[s.len() - 1]) || n - 1 == s.len() - 1);
            assert(t.last() == s[n - 1]);
            assert(le(t.last(), x));
            assert(insert_by(s, x, le).take(n as int) =~= insert_by(t, x, le).take(n as int));
        } else {
            let d = s.drop_last();
            lemma_insert_take(d, x, le, n);
            lemma_insert_by(d, x, le);
            assert(d.take(n as int) =~= t);
            assert(insert_by(s, x, le).take(n as int) =~= insert_by(d, x, le).take(n as int));
        }
    }
}

} // verus!
