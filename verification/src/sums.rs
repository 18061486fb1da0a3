//! Sums over sequences.

use vstd::prelude::*;

verus! {

/// The sum of what `f` gives for the items of a sequence.
pub open spec fn total<T>(s: Seq<T>, f: spec_fn(T) -> int) -> int
    decreases s.len(),
{
    if s.len() == 0 {
        0
    } else {
        total(s.drop_last(), f) + f(s.last())
    }
}

pub proof fn lemma_total_push<T>(s: Seq<T>, x: T, f: spec_fn(T) -> int)
    ensures
        total(s.push(x), f) == total(s, f) + f(x),
{
    assert(s.push(x).drop_last() =~= s);
}

pub proof fn lemma_total_same<T>(s: Seq<T>, t: Seq<T>, f: spec_fn(T) -> int)
    requires
        s.len() == t.len(),
        forall|i: int| 0 <= i < s.len() ==> f(#[trigger] s[i]) == f(t[i]),
    ensures
        total(s, f) == total(t, f),
    decreases s.len(),
{
    if s.len() > 0 {
        let (a, b) = (s.drop_last(), t.drop_last());
        assert forall|i: int| 0 <= i < a.len() implies f(#[trigger] a[i]) == f(b[i]) by {
            assert(a[i] == s[i] && b[i] == t[i]);
        }
        lemma_total_same(a, b, f);
        assert(s.last() == s[s.len() - 1] && t.last() == t[t.len() - 1]);
    }
}

pub proof fn lemma_total_append<T>(s: Seq<T>, t: Seq<T>, f: spec_fn(T) -> int)
    ensures
        total(s + t, f) == total(s, f) + total(t, f),
    decreases t.len(),
{
    if t.len() == 0 {
        assert(s + t =~= s);
    } else {
        assert((s + t).drop_last() =~= s + t.drop_last());
        lemma_total_append(s, t.drop_last(), f);
    }
}

pub proof fn lemma_total_update<T>(s: Seq<T>, i: int, x: T, f: spec_fn(T) -> int)
    requires
        0 <= i < s.len(),
    ensures
        total(s.update(i, x), f) == total(s, f) - f(s[i]) + f(x),
    decreases s.len(),
{
    if i == s.len() - 1 {
        assert(s.update(i, x).drop_last() =~= s.drop_last());
    } else {
        assert(s.update(i, x).drop_last() =~= s.drop_last().update(i, x));
        lemma_total_update(s.drop_last(), i, x, f);
    }
}

/// A sum of what is not negative is at least each of its terms.
pub proof fn lemma_total_at_least<T>(s: Seq<T>, i: int, f: spec_fn(T) -> int)
    requires
        0 <= i < s.len(),
        forall|x: T| 0 <= #[trigger] f(x),
    ensures
        f(s[i]) <= total(s, f),
    decreases s.len(),
{
    lemma_total_not_negative(s.drop_last(), f);
    if i < s.len() - 1 {
        lemma_total_at_least(s.drop_last(), i, f);
    }
}

pub proof fn lemma_total_not_negative<T>(s: Seq<T>, f: spec_fn(T) -> int)
    requires
        forall|x: T| 0 <= #[trigger] f(x),
    ensures
        0 <= total(s, f),
    decreases s.len(),
{
    if s.len() > 0 {
        lemma_total_not_negative(s.drop_last(), f);
    }
}

/// A sum of zeros and ones is at most the number of its terms, and less where
/// one of them is zero.
pub proof fn lemma_total_of_bits<T>(s: Seq<T>, i: int, f: spec_fn(T) -> int)
    requires
        forall|x: T| 0 <= #[trigger] f(x) <= 1,
    ensures
        total(s, f) <= s.len(),
        0 <= i < s.len() && f(s[i]) == 0 ==> total(s, f) <= s.len() - 1,
    decreases s.len(),
{
    if s.len() > 0 {
        lemma_total_of_bits(s.drop_last(), i, f);
    }
}

/// Where a sum of what is not negative is zero, each of its terms is.
pub proof fn lemma_total_zero<T>(s: Seq<T>, f: spec_fn(T) -> int)
    requires
        forall|x: T| 0 <= #[trigger] f(x),
        forall|i: int| 0 <= i < s.len() ==> f(#[trigger] s[i]) == 0,
    ensures
        total(s, f) == 0,
    decreases s.len(),
{
    if s.len() > 0 {
        assert forall|i: int| 0 <= i < s.len() - 1 implies f(#[trigger] s.drop_last()[i]) == 0 by {
            assert(s.drop_last()[i] == s[i]);
        }
        lemma_total_zero(s.drop_last(), f);
        assert(f(s[s.len() - 1]) == 0);
    }
}

pub proof fn lemma_total_remove<T>(s: Seq<T>, i: int, f: spec_fn(T) -> int)
    requires
        0 <= i < s.len(),
    ensures
        total(s.remove(i), f) == total(s, f) - f(s[i]),
    decreases s.len(),
{
    if i == s.len() - 1 {
        assert(s.remove(i) =~= s.drop_last());
    } else {
        assert(s.remove(i).drop_last() =~= s.drop_last().remove(i));
        lemma_total_remove(s.drop_last(), i, f);
    }
}

/// The order of the items does not matter for their sum.
pub proof fn lemma_total_of_permutation<T>(s: Seq<T>, t: Seq<T>, f: spec_fn(T) -> int)
    requires
        s.to_multiset() == t.to_multiset(),
    ensures
        total(s, f) == total(t, f),
    decreases s.len(),
{
    broadcast use vstd::seq_lib::group_to_multiset_ensures;

    s.to_multiset_ensures();
    t.to_multiset_ensures();
    assert(s.len() == t.len());
    if s.len() > 0 {
        let x = s.last();
        assert(s.contains(x));
        assert(t.to_multiset().count(x) > 0);
        assert(t.contains(x));
        let i = choose|i: int| 0 <= i < t.len() && t[i] == x;
        assert(s.remove(s.len() - 1) =~= s.drop_last());
        lemma_total_remove(t, i, f);
        assert(t.remove(i).to_multiset() =~= t.to_multiset().remove(x));
        assert(s.drop_last().to_multiset() =~= s.to_multiset().remove(x));
        lemma_total_of_permutation(s.drop_last(), t.remove(i), f);
    }
}

} // verus!
