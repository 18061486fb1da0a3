//! Stable sorting.

use vstd::prelude::*;

use crate::order::{is_total_order, Order};

verus! {

/// `x` put into a list before the first item that is less than it.
pub open spec fn insert_descending<T>(t: Seq<T>, x: T, f: spec_fn(T, T) -> Order) -> Seq<T>
    decreases t.len(),
{
    if t.len() == 0 {
        seq![x]
    } else if f(t[0], x) != Order::Less {
        seq![t[0]] + insert_descending(t.drop_first(), x, f)
    } else {
        seq![x] + t
    }
}

/// A list in descending order; items that are alike stay in their order.
pub open spec fn descending<T>(s: Seq<T>, f: spec_fn(T, T) -> Order) -> Seq<T>
    decreases s.len(),
{
    if s.len() == 0 {
        Seq::empty()
    } else {
        insert_descending(descending(s.drop_last(), f), s.last(), f)
    }
}

/// No item of a list is less than one behind it.
pub open spec fn is_descending<T>(s: Seq<T>, f: spec_fn(T, T) -> Order) -> bool {
    forall|i: int, j: int| 0 <= i < j < s.len() ==> f(#[trigger] s[i], #[trigger] s[j]) != Order::Less
}

/// Two lists merged; of two items that are alike the one of the first list
/// comes first.
pub open spec fn merged<T>(p: Seq<T>, q: Seq<T>, f: spec_fn(T, T) -> Order) -> Seq<T>
    decreases p.len() + q.len(),
{
    if p.len() == 0 {
        q
    } else if q.len() == 0 {
        p
    } else if f(p[0], q[0]) != Order::Less {
        seq![p[0]] + merged(p.drop_first(), q, f)
    } else {
        seq![q[0]] + merged(p, q.drop_first(), f)
    }
}

proof fn lemma_cons<T>(x: T, s: Seq<T>)
    ensures
        (seq![x] + s)[0] == x,
        (seq![x] + s).drop_first() == s,
        (seq![x] + s).len() == s.len() + 1,
{
    assert((seq![x] + s).drop_first() =~= s);
}

proof fn lemma_merged_insert<T>(p: Seq<T>, q: Seq<T>, x: T, f: spec_fn(T, T) -> Order)
    requires
        is_total_order(f),
    ensures
        merged(p, insert_descending(q, x, f), f) == insert_descending(merged(p, q, f), x, f),
    decreases p.len() + q.len(),
{
    if p.len() == 0 {
    } else if q.len() == 0 {
        lemma_cons(x, Seq::<T>::empty());
        assert(seq![x] + Seq::<T>::empty() =~= seq![x]);
        assert(seq![x].drop_first() =~= Seq::<T>::empty());
        if f(p[0], x) != Order::Less {
            lemma_merged_insert(p.drop_first(), q, x, f);
            assert(merged(p.drop_first(), q, f) == p.drop_first());
            if p.len() == 1 {
                assert(p.drop_first() =~= Seq::<T>::empty());
            }
        } else {
            assert(merged(p, seq![x].drop_first(), f) == p);
        }
    } else {
        let (a, b) = (p[0], q[0]);
        assert(f(a, b) == f(b, a).flip());
        assert(f(b, x) == f(x, b).flip());
        assert(f(a, x) == f(x, a).flip());
        lemma_cons(b, insert_descending(q.drop_first(), x, f));
        lemma_cons(x, q);
        lemma_cons(a, merged(p.drop_first(), q, f));
        lemma_cons(b, merged(p, q.drop_first(), f));
        if f(b, x) != Order::Less {
            if f(a, b) != Order::Less {
                assert(f(x, b) != Order::Greater && f(b, a) != Order::Greater);
                assert(f(x, a) != Order::Greater);
                lemma_merged_insert(p.drop_first(), q, x, f);
            } else {
                lemma_merged_insert(p, q.drop_first(), x, f);
            }
        } else {
            if f(a, x) != Order::Less {
                assert(f(b, x) != Order::Greater && f(x, a) != Order::Greater);
                assert(f(b, a) != Order::Greater);
                lemma_merged_insert(p.drop_first(), q, x, f);
            } else {
            }
        }
    }
}

/// Merging two sorted lists sorts what they hold together.
pub proof fn lemma_merged_descending<T>(s: Seq<T>, t: Seq<T>, f: spec_fn(T, T) -> Order)
    requires
        is_total_order(f),
    ensures
        merged(descending(s, f), descending(t, f), f) == descending(s + t, f),
    decreases t.len(),
{
    if t.len() == 0 {
        assert(s + t =~= s);
        assert(merged(descending(s, f), Seq::<T>::empty(), f) =~= descending(s, f));
    } else {
        lemma_merged_descending(s, t.drop_last(), f);
        lemma_merged_insert(descending(s, f), descending(t.drop_last(), f), t.last(), f);
        assert((s + t).drop_last() =~= s + t.drop_last());
    }
}

proof fn lemma_insert_descending<T>(t: Seq<T>, x: T, f: spec_fn(T, T) -> Order)
    requires
        is_total_order(f),
        is_descending(t, f),
    ensures
        is_descending(insert_descending(t, x, f), f),
        insert_descending(t, x, f).to_multiset() == t.to_multiset().insert(x),
    decreases t.len(),
{
    broadcast use vstd::seq_lib::group_to_multiset_ensures;

    let r = insert_descending(t, x, f);
    if t.len() == 0 {
        assert(seq![x] =~= t.push(x));
    } else if f(t[0], x) != Order::Less {
        let rest = t.drop_first();
        assert forall|i: int, j: int| 0 <= i < j < rest.len() implies f(
            #[trigger] rest[i],
            #[trigger] rest[j],
        ) != Order::Less by {
            assert(rest[i] == t[i + 1] && rest[j] == t[j + 1]);
        }
        lemma_insert_descending(rest, x, f);
        let below = insert_descending(rest, x, f);
        lemma_cons(t[0], below);
        assert forall|k: int| 0 <= k < below.len() implies f(t[0], #[trigger] below[k])
            != Order::Less by {
            assert(below.contains(below[k]));
            assert(below.to_multiset().count(below[k]) > 0);
            if below[k] != x {
                assert(rest.to_multiset().count(below[k]) > 0);
                assert(rest.contains(below[k]));
                let m = choose|m: int| 0 <= m < rest.len() && rest[m] == below[k];
                assert(t[m + 1] == below[k]);
            }
        }
        assert forall|i: int, j: int| 0 <= i < j < r.len() implies f(#[trigger] r[i], #[trigger] r[j])
            != Order::Less by {
            if i > 0 {
                assert(r[i] == below[i - 1] && r[j] == below[j - 1]);
            } else {
                assert(r[j] == below[j - 1]);
            }
        }
        lemma_multiset_cons(t[0], below);
        lemma_multiset_cons(t[0], rest);
        assert(seq![t[0]] + rest =~= t);
        assert(r.to_multiset() =~= t.to_multiset().insert(x));
    } else {
        assert forall|i: int, j: int| 0 <= i < j < r.len() implies f(#[trigger] r[i], #[trigger] r[j])
            != Order::Less by {
            assert(f(t[0], x) == f(x, t[0]).flip());
            if i > 0 {
                assert(r[i] == t[i - 1] && r[j] == t[j - 1]);
            } else if j > 1 {
                assert(r[j] == t[j - 1]);
                assert(f(t[0], t[j - 1]) != Order::Less);
                assert(f(t[j - 1], t[0]) == f(t[0], t[j - 1]).flip());
                assert(f(t[j - 1], t[0]) != Order::Greater && f(t[0], x) != Order::Greater);
                assert(f(t[j - 1], x) != Order::Greater);
                assert(f(x, t[j - 1]) == f(t[j - 1], x).flip());
            }
        }
        lemma_multiset_cons(x, t);
    }
}

proof fn lemma_multiset_cons<T>(x: T, s: Seq<T>)
    ensures
        (seq![x] + s).to_multiset() == s.to_multiset().insert(x),
{
    broadcast use vstd::seq_lib::group_to_multiset_ensures;

    let r = seq![x] + s;
    assert(r.remove(0) =~= s);
    assert(r.to_multiset().remove(x) =~= s.to_multiset());
    assert(r.contains(r[0]));
    assert(r.to_multiset().count(x) > 0);
    assert(r.to_multiset() =~= s.to_multiset().insert(x));
}

/// A sorted list holds what the list held, in descending order.
pub proof fn lemma_descending<T>(s: Seq<T>, f: spec_fn(T, T) -> Order)
    requires
        is_total_order(f),
    ensures
        is_descending(descending(s, f), f),
        descending(s, f).to_multiset() == s.to_multiset(),
    decreases s.len(),
{
    broadcast use vstd::seq_lib::group_to_multiset_ensures;

    if s.len() > 0 {
        lemma_descending(s.drop_last(), f);
        lemma_insert_descending(descending(s.drop_last(), f), s.last(), f);
        assert(s.drop_last().push(s.last()) =~= s);
    }
}

/// Where no two different items are alike, a sorted list does not depend on the
/// order that the items were in.
pub proof fn lemma_descending_of_permutation<T>(s: Seq<T>, t: Seq<T>, f: spec_fn(T, T) -> Order)
    requires
        is_total_order(f),
        s.to_multiset() == t.to_multiset(),
        forall|x: T, y: T|
            s.contains(x) && s.contains(y) && #[trigger] f(x, y) == Order::Same ==> x == y,
    ensures
        descending(s, f) == descending(t, f),
{
    lemma_descending(s, f);
    lemma_descending(t, f);
    let (a, b) = (descending(s, f), descending(t, f));
    s.to_multiset_ensures();
    a.to_multiset_ensures();
    assert forall|x: T, y: T| a.contains(x) && a.contains(y) && #[trigger] f(x, y) == Order::Same
        implies x == y by {
        assert(a.to_multiset().count(x) > 0 && a.to_multiset().count(y) > 0);
        assert(s.contains(x) && s.contains(y));
    }
    lemma_descending_unique(a, b, f);
}

proof fn lemma_descending_unique<T>(a: Seq<T>, b: Seq<T>, f: spec_fn(T, T) -> Order)
    requires
        is_total_order(f),
        is_descending(a, f),
        is_descending(b, f),
        a.to_multiset() == b.to_multiset(),
        forall|x: T, y: T|
            a.contains(x) && a.contains(y) && #[trigger] f(x, y) == Order::Same ==> x == y,
    ensures
        a == b,
    decreases a.len(),
{
    broadcast use vstd::seq_lib::group_to_multiset_ensures;

    a.to_multiset_ensures();
    b.to_multiset_ensures();
    assert(a.len() == b.len());
    if a.len() > 0 {
        let (x, y) = (a[0], b[0]);
        assert(a.contains(x) && b.contains(y));
        assert(a.to_multiset().count(y) > 0 && b.to_multiset().count(x) > 0);
        let i = choose|i: int| 0 <= i < a.len() && a[i] == y;
        let j = choose|j: int| 0 <= j < b.len() && b[j] == x;
        assert(f(x, x) == Order::Same && f(y, y) == Order::Same);
        assert(f(x, y) != Order::Less);
        assert(f(y, x) != Order::Less);
        assert(f(x, y) == f(y, x).flip());
        assert(x == y);
        let (c, d) = (a.drop_first(), b.drop_first());
        assert(a.remove(0) =~= c);
        assert(b.remove(0) =~= d);
        assert forall|p: int, q: int| 0 <= p < q < c.len() implies f(#[trigger] c[p], #[trigger] c[q])
            != Order::Less by {
            assert(c[p] == a[p + 1] && c[q] == a[q + 1]);
        }
        assert forall|p: int, q: int| 0 <= p < q < d.len() implies f(#[trigger] d[p], #[trigger] d[q])
            != Order::Less by {
            assert(d[p] == b[p + 1] && d[q] == b[q + 1]);
        }
        assert forall|u: T, v: T| c.contains(u) && c.contains(v) && #[trigger] f(u, v) == Order::Same
            implies u == v by {
            let m = choose|m: int| 0 <= m < c.len() && c[m] == u;
            let n = choose|n: int| 0 <= n < c.len() && c[n] == v;
            assert(a[m + 1] == u && a[n + 1] == v);
        }
        lemma_descending_unique(c, d, f);
        assert(a =~= seq![x] + c);
        assert(b =~= seq![y] + d);
    } else {
        assert(a =~= b);
    }
}

} // verus!
