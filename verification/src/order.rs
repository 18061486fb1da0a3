//! Three-way comparison, and the lexicographic order of sequences over it.

use vstd::prelude::*;

verus! {

/// How a first value stands to a second one.
#[derive(Debug, Clone, Copy, PartialEq, Eq, Structural)]
pub enum Order {
    Less,
    Same,
    Greater,
}

impl Order {
    /// The same comparison with its two sides exchanged.
    pub open spec fn flip(self) -> Order {
        match self {
            Order::Less => Order::Greater,
            Order::Same => Order::Same,
            Order::Greater => Order::Less,
        }
    }
}

/// `f` compares like a total order: a value is the same as itself, exchanging
/// the sides flips the answer, and "not greater" is transitive.
pub open spec fn is_total_order<T>(f: spec_fn(T, T) -> Order) -> bool {
    &&& forall|x: T| #[trigger] f(x, x) == Order::Same
    &&& forall|x: T, y: T| #[trigger] f(x, y) == f(y, x).flip()
    &&& forall|x: T, y: T, z: T|
        #![trigger f(x, y), f(y, z)]
        f(x, y) != Order::Greater && f(y, z) != Order::Greater ==> f(x, z) != Order::Greater
    &&& forall|x: T, y: T, z: T|
        #![trigger f(x, y), f(y, z)]
        f(x, y) != Order::Greater && f(y, z) != Order::Greater && f(x, z) == Order::Same
            ==> f(x, y) == Order::Same && f(y, z) == Order::Same
}

/// Sequences are compared at the first place where they differ; a sequence
/// comes before its own continuations.
pub open spec fn lexicographic<T>(a: Seq<T>, b: Seq<T>, f: spec_fn(T, T) -> Order) -> Order
    decreases a.len(),
{
    if a.len() == 0 {
        if b.len() == 0 {
            Order::Same
        } else {
            Order::Less
        }
    } else if b.len() == 0 {
        Order::Greater
    } else {
        match f(a[0], b[0]) {
            Order::Same => lexicographic(a.drop_first(), b.drop_first(), f),
            first => first,
        }
    }
}

pub proof fn lemma_lexicographic_flip<T>(a: Seq<T>, b: Seq<T>, f: spec_fn(T, T) -> Order)
    requires
        is_total_order(f),
    ensures
        lexicographic(a, b, f) == lexicographic(b, a, f).flip(),
        lexicographic(a, a, f) == Order::Same,
    decreases a.len(),
{
    if a.len() > 0 {
        assert(f(a[0], a[0]) == Order::Same);
        lemma_lexicographic_flip(a.drop_first(), a.drop_first(), f);
        if b.len() > 0 {
            assert(f(a[0], b[0]) == f(b[0], a[0]).flip());
            lemma_lexicographic_flip(a.drop_first(), b.drop_first(), f);
        }
    }
}

pub proof fn lemma_lexicographic_transitive<T>(
    a: Seq<T>,
    b: Seq<T>,
    c: Seq<T>,
    f: spec_fn(T, T) -> Order,
)
    requires
        is_total_order(f),
        lexicographic(a, b, f) != Order::Greater,
        lexicographic(b, c, f) != Order::Greater,
    ensures
        lexicographic(a, c, f) != Order::Greater,
        lexicographic(a, c, f) == Order::Same ==> lexicographic(a, b, f) == Order::Same
            && lexicographic(b, c, f) == Order::Same,
    decreases a.len(),
{
    if a.len() > 0 && b.len() > 0 && c.len() > 0 {
        let (x, y, z) = (a[0], b[0], c[0]);
        assert(f(x, y) != Order::Greater && f(y, z) != Order::Greater);
        assert(f(x, z) != Order::Greater);
        if f(x, y) == Order::Same && f(y, z) == Order::Same {
            assert(f(y, x) == f(x, y).flip());
            assert(f(z, y) == f(y, z).flip());
            assert(f(z, x) != Order::Greater);
            assert(f(x, z) == f(z, x).flip());
            lemma_lexicographic_transitive(a.drop_first(), b.drop_first(), c.drop_first(), f);
        }
    }
}

/// The lexicographic order over a total order is a total order.
pub proof fn lemma_lexicographic_total<T>(f: spec_fn(T, T) -> Order)
    requires
        is_total_order(f),
    ensures
        is_total_order(|a: Seq<T>, b: Seq<T>| lexicographic(a, b, f)),
{
    let g = |a: Seq<T>, b: Seq<T>| lexicographic(a, b, f);
    assert forall|a: Seq<T>| #[trigger] g(a, a) == Order::Same by {
        lemma_lexicographic_flip(a, a, f);
    }
    assert forall|a: Seq<T>, b: Seq<T>| #[trigger] g(a, b) == g(b, a).flip() by {
        lemma_lexicographic_flip(a, b, f);
    }
    assert forall|a: Seq<T>, b: Seq<T>, c: Seq<T>|
        #![trigger g(a, b), g(b, c)]
        g(a, b) != Order::Greater && g(b, c) != Order::Greater implies g(a, c) != Order::Greater && (
    g(a, c) == Order::Same ==> g(a, b) == Order::Same && g(b, c) == Order::Same) by {
        lemma_lexicographic_transitive(a, b, c, f);
    }
}

/// The order of bytes by their value.
pub open spec fn byte_order(x: u8, y: u8) -> Order {
    if x < y {
        Order::Less
    } else if x == y {
        Order::Same
    } else {
        Order::Greater
    }
}

/// Byte strings in dictionary order.
pub open spec fn bytes_order(a: Seq<u8>, b: Seq<u8>) -> Order {
    lexicographic(a, b, |x: u8, y: u8| byte_order(x, y))
}

pub proof fn lemma_bytes_order_total()
    ensures
        is_total_order(|a: Seq<u8>, b: Seq<u8>| bytes_order(a, b)),
        forall|a: Seq<u8>, b: Seq<u8>| #[trigger]
            bytes_order(a, b) == Order::Same ==> a == b,
{
    let f = |x: u8, y: u8| byte_order(x, y);
    assert(is_total_order(f));
    lemma_lexicographic_total(f);
    let g = |a: Seq<u8>, b: Seq<u8>| lexicographic(a, b, f);
    let h = |a: Seq<u8>, b: Seq<u8>| bytes_order(a, b);
    assert(g =~= h);
    assert forall|a: Seq<u8>, b: Seq<u8>| #[trigger] bytes_order(a, b) == Order::Same implies a
        == b by {
        lemma_bytes_same(a, b);
    }
}

proof fn lemma_bytes_same(a: Seq<u8>, b: Seq<u8>)
    requires
        bytes_order(a, b) == Order::Same,
    ensures
        a == b,
    decreases a.len(),
{
    if a.len() > 0 {
        lemma_bytes_same(a.drop_first(), b.drop_first());
        assert(a =~= seq![a[0]] + a.drop_first());
        assert(b =~= seq![b[0]] + b.drop_first());
    } else {
        assert(a =~= b);
    }
}

/// Compares two byte strings in dictionary order.
pub fn compare_bytes(a: &Vec<u8>, b: &Vec<u8>) -> (r: Order)
    ensures
        r == bytes_order(a@, b@),
{
    let mut i: usize = 0;
    assert(a@.skip(0) =~= a@);
    assert(b@.skip(0) =~= b@);
    while i < a.len() && i < b.len() && a[i] == b[i]
        invariant
            i <= a.len(),
            i <= b.len(),
            bytes_order(a@, b@) == bytes_order(a@.skip(i as int), b@.skip(i as int)),
        decreases a.len() - i,
    {
        assert(a@.skip(i as int).drop_first() =~= a@.skip(i + 1));
        assert(b@.skip(i as int).drop_first() =~= b@.skip(i + 1));
        i += 1;
    }
    if i == a.len() {
        if i == b.len() {
            Order::Same
        } else {
            Order::Less
        }
    } else if i == b.len() {
        Order::Greater
    } else if a[i] < b[i] {
        Order::Less
    } else {
        Order::Greater
    }
}

} // verus!
