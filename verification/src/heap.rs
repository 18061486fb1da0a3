//! A heap of nodes that gives out the greatest first.

use vstd::multiset::Multiset;
use vstd::prelude::*;

use crate::node::{lemma_node_order_total, node_order, Node, NodeView};
use crate::order::Order;
use crate::sums::{lemma_total_of_permutation, lemma_total_push, lemma_total_remove, total};

verus! {

/// A heap of nodes.
pub struct NodeHeap<'a> {
    items: Vec<&'a Node>,
}

/// The values of nodes behind references.
pub open spec fn item_views(items: Seq<&Node>) -> Seq<NodeView> {
    items.map_values(|node: &Node| node@)
}

/// `a` may stand above `b`.
spec fn above(a: NodeView, b: NodeView) -> bool {
    node_order(a, b) != Order::Less
}

/// The item above the one at `i`.
spec fn up(i: int) -> int {
    (i - 1) / 2
}

/// Every item stands below the one above it, but for the item at `hole`.
spec fn heaped_but_up(s: Seq<NodeView>, hole: int) -> bool {
    forall|i: int| 0 < i < s.len() && i != hole ==> above(#[trigger] s[up(i)], s[i])
}

/// Every item stands below the one above it, but for those below `hole`.
spec fn heaped_but_down(s: Seq<NodeView>, hole: int) -> bool {
    forall|i: int| 0 < i < s.len() && up(i) != hole ==> above(#[trigger] s[up(i)], s[i])
}

/// The items below `hole` stand below the one above it.
spec fn bridged(s: Seq<NodeView>, hole: int) -> bool {
    forall|i: int|
        0 < i < s.len() && up(i) == hole && hole > 0 ==> above(s[up(hole)], #[trigger] s[i])
}

/// Every item stands below the one above it.
spec fn heaped(s: Seq<NodeView>) -> bool {
    forall|i: int| 0 < i < s.len() ==> above(s[up(i)], #[trigger] s[i])
}

proof fn lemma_above(a: NodeView, b: NodeView, c: NodeView)
    ensures
        above(a, a),
        above(a, b) || above(b, a),
        above(a, b) && above(b, c) ==> above(a, c),
{
    lemma_node_order_total(c, b, a);
    lemma_node_order_total(a, b, c);
    lemma_node_order_total(b, c, a);
    lemma_node_order_total(a, c, b);
}

/// The first item of a heap is the greatest.
proof fn lemma_first_is_greatest(s: Seq<NodeView>, i: int)
    requires
        heaped(s),
        0 <= i < s.len(),
    ensures
        above(s[0], s[i]),
    decreases i,
{
    if i == 0 {
        lemma_above(s[0], s[0], s[0]);
    } else {
        lemma_first_is_greatest(s, up(i));
        lemma_above(s[0], s[up(i)], s[i]);
    }
}

/// Two items of a list exchanged.
spec fn exchanged<T>(s: Seq<T>, i: int, j: int) -> Seq<T> {
    s.update(i, s[j]).update(j, s[i])
}

proof fn lemma_exchanged<T>(s: Seq<T>, i: int, j: int)
    requires
        0 <= i < s.len(),
        0 <= j < s.len(),
    ensures
        exchanged(s, i, j).to_multiset() == s.to_multiset(),
{
    broadcast use vstd::seq_lib::group_to_multiset_ensures;

    let t = s.update(i, s[j]);
    t.to_multiset_ensures();
    s.to_multiset_ensures();
    if i == j {
        assert(exchanged(s, i, j) =~= s);
    } else {
        let (lo, hi) = if i < j {
            (i, j)
        } else {
            (j, i)
        };
        let u = exchanged(s, i, j);
        u.to_multiset_ensures();
        assert(u.remove(hi).remove(lo) =~= s.remove(hi).remove(lo));
        let rest = s.remove(hi).remove(lo).to_multiset();
        s.remove(hi).to_multiset_ensures();
        u.remove(hi).to_multiset_ensures();
        assert(s.remove(hi)[lo] == s[lo]);
        assert(u.remove(hi)[lo] == u[lo]);
        assert(s.contains(s[hi]) && s.remove(hi).contains(s.remove(hi)[lo]));
        assert(u.contains(u[hi]) && u.remove(hi).contains(u.remove(hi)[lo]));
        assert(s.to_multiset().count(s[hi]) > 0);
        assert(u.to_multiset().count(u[hi]) > 0);
        assert(s.remove(hi).to_multiset().count(s[lo]) > 0);
        assert(u.remove(hi).to_multiset().count(u[lo]) > 0);
        assert(s.to_multiset() =~= rest.insert(s[lo]).insert(s[hi]));
        assert(u.to_multiset() =~= rest.insert(u[lo]).insert(u[hi]));
        assert(s.to_multiset() =~= u.to_multiset());
    }
}

/// The number of nodes of a tree.
pub open spec fn tree_nodes(node: NodeView) -> int
    decreases node, 1nat,
{
    1 + list_nodes(node.children)
}

/// The number of nodes of a list of trees.
pub open spec fn list_nodes(nodes: Seq<NodeView>) -> int
    decreases nodes, 0nat,
{
    if nodes.len() == 0 {
        0
    } else {
        list_nodes(nodes.drop_last()) + tree_nodes(nodes.last())
    }
}

pub(crate) proof fn lemma_tree_nodes(node: NodeView)
    ensures
        tree_nodes(node) > 0,
        list_nodes(node.children) >= 0,
    decreases node, 1nat,
{
    lemma_list_nodes(node.children);
}

pub(crate) proof fn lemma_list_nodes(nodes: Seq<NodeView>)
    ensures
        list_nodes(nodes) >= 0,
    decreases nodes, 0nat,
{
    if nodes.len() > 0 {
        lemma_list_nodes(nodes.drop_last());
        lemma_tree_nodes(nodes.last());
    }
}

proof fn lemma_nodes_of_list(nodes: Seq<NodeView>)
    ensures
        total(nodes, |node: NodeView| tree_nodes(node)) >= 0,
    decreases nodes.len(),
{
    if nodes.len() > 0 {
        lemma_nodes_of_list(nodes.drop_last());
        lemma_tree_nodes(nodes.last());
    }
}

impl<'a> View for NodeHeap<'a> {
    type V = Multiset<NodeView>;

    closed spec fn view(&self) -> Multiset<NodeView> {
        item_views(self.items@).to_multiset()
    }
}

impl<'a> NodeHeap<'a> {
    #[verifier::type_invariant]
    spec fn well_formed(self) -> bool {
        heaped(item_views(self.items@))
    }

    /// The number of nodes of the trees in the heap.
    pub closed spec fn nodes(&self) -> int {
        total(item_views(self.items@), |node: NodeView| tree_nodes(node))
    }

    /// The number of nodes is not negative.
    pub proof fn lemma_nodes_not_negative(&self)
        ensures
            self.nodes() >= 0,
    {
        lemma_nodes_of_list(item_views(self.items@));
    }

    /// An empty heap.
    pub fn new() -> (r: Self)
        ensures
            r@ == Multiset::<NodeView>::empty(),
            r.nodes() == 0,
    {
        let r = NodeHeap { items: Vec::new() };
        assert(item_views(r.items@) =~= Seq::empty());
        assert(item_views(r.items@).to_multiset() =~= Multiset::empty()) by {
            item_views(r.items@).to_multiset_ensures();
        }
        r
    }

    /// Adds a node.
    pub fn push(&mut self, node: &'a Node)
        ensures
            final(self)@ == old(self)@.insert(node@),
            final(self).nodes() == old(self).nodes() + tree_nodes(node@),
    {
        proof {
            use_type_invariant(&*self);
        }
        let ghost count = |n: NodeView| tree_nodes(n);
        let ghost before = item_views(self.items@);
        let mut whole = NodeHeap::new();
        std::mem::swap(&mut whole, self);
        let NodeHeap { mut items } = whole;
        items.push(node);
        let mut i: usize = items.len() - 1;
        proof {
            before.to_multiset_ensures();
            assert(item_views(items@) =~= before.push(node@));
            lemma_total_push(before, node@, count);
        }
        let ghost pushed = item_views(items@);
        while i > 0
            invariant
                i < items.len(),
                count == (|n: NodeView| tree_nodes(n)),
                item_views(items@).to_multiset() == pushed.to_multiset(),
                heaped_but_up(item_views(items@), i as int),
                bridged(item_views(items@), i as int),
            ensures
                i < items.len(),
                item_views(items@).to_multiset() == pushed.to_multiset(),
                heaped(item_views(items@)),
            decreases i,
        {
            let parent: usize = (i - 1) / 2;
            let ghost s = item_views(items@);
            match items[parent].compare(items[i]) {
                Order::Less => {},
                _ => {
                    assert(above(s[up(i as int)], s[i as int]));
                    assert(heaped(s)) by {
                        assert forall|k: int| 0 < k < s.len() implies above(
                            s[up(k)],
                            #[trigger] s[k],
                        ) by {}
                    }
                    break;
                },
            }
            let upper = items[parent];
            items[parent] = items[i];
            items[i] = upper;
            proof {
                let t = item_views(items@);
                assert(t =~= exchanged(s, parent as int, i as int));
                lemma_exchanged(s, parent as int, i as int);
                lemma_raised(s, i as int);
            }
            i = parent;
            proof {
                if i == 0 {
                    let t = item_views(items@);
                    assert forall|k: int| 0 < k < t.len() implies above(t[up(k)], #[trigger] t[k]) by {}
                }
            }
        }
        proof {
            lemma_total_of_permutation(item_views(items@), pushed, count);
        }
        *self = NodeHeap { items };
    }

    /// Takes a node out that no other is greater than.
    pub fn pop(&mut self) -> (r: Option<&'a Node>)
        ensures
            match r {
                None => {
                    &&& old(self)@ == Multiset::<NodeView>::empty()
                    &&& final(self)@ == old(self)@
                    &&& final(self).nodes() == old(self).nodes()
                },
                Some(node) => {
                    &&& old(self)@.contains(node@)
                    &&& forall|other: NodeView| #[trigger]
                        old(self)@.contains(other) ==> node_order(node@, other) != Order::Less
                    &&& final(self)@ == old(self)@.remove(node@)
                    &&& final(self).nodes() == old(self).nodes() - tree_nodes(node@)
                },
            },
    {
        proof {
            use_type_invariant(&*self);
        }
        let ghost count = |n: NodeView| tree_nodes(n);
        let ghost before = item_views(self.items@);
        if self.items.len() == 0 {
            proof {
                before.to_multiset_ensures();
                assert(before.to_multiset() =~= Multiset::<NodeView>::empty());
            }
            return None;
        }
        let mut whole = NodeHeap::new();
        std::mem::swap(&mut whole, self);
        let NodeHeap { mut items } = whole;
        let node = items.swap_remove(0);
        proof {
            before.to_multiset_ensures();
            assert(node@ == before[0]);
            assert(before.contains(node@));
            assert forall|other: NodeView| #[trigger]
                before.to_multiset().contains(other) implies node_order(node@, other)
                != Order::Less by {
                assert(before.contains(other));
                let k = choose|k: int| 0 <= k < before.len() && before[k] == other;
                lemma_first_is_greatest(before, k);
            }
        }
        let ghost taken = item_views(items@);
        proof {
            let n = before.len() as int;
            let turned = exchanged(before, 0, n - 1);
            lemma_exchanged(before, 0, n - 1);
            turned.to_multiset_ensures();
            assert(turned.remove(n - 1) =~= taken);
            lemma_total_of_permutation(turned, before, count);
            lemma_total_remove(turned, n - 1, count);
            assert(turned[n - 1] == node@);
            assert forall|k: int| 0 < k < taken.len() && up(k) != 0 implies above(
                #[trigger] taken[up(k)],
                taken[k],
            ) by {
                assert(above(before[up(k)], before[k]));
                assert(taken[k] == before[k] && taken[up(k)] == before[up(k)]);
            }
        }
        let mut i: usize = 0;
        let n = items.len();
        while i < n / 2
            invariant
                n == items.len(),
                item_views(items@).to_multiset() == taken.to_multiset(),
                heaped_but_down(item_views(items@), i as int),
                bridged(item_views(items@), i as int),
            ensures
                item_views(items@).to_multiset() == taken.to_multiset(),
                heaped(item_views(items@)),
            decreases n - i,
        {
            let ghost s = item_views(items@);
            let left: usize = 2 * i + 1;
            let right: usize = left + 1;
            let mut child: usize = left;
            if right < n {
                match items[left].compare(items[right]) {
                    Order::Less => {
                        child = right;
                    },
                    _ => {},
                }
            }
            proof {
                lemma_above(s[left as int], s[left as int], s[left as int]);
                if right < n {
                    lemma_above(s[left as int], s[right as int], s[right as int]);
                }
                assert forall|k: int| 0 < k < s.len() && up(k) == i implies above(
                    s[child as int],
                    #[trigger] s[k],
                ) by {
                    assert(k == left || k == right);
                    lemma_above(s[k], s[k], s[k]);
                }
            }
            match items[i].compare(items[child]) {
                Order::Less => {},
                _ => {
                    assert(heaped(s)) by {
                        assert forall|k: int| 0 < k < s.len() implies above(
                            s[up(k)],
                            #[trigger] s[k],
                        ) by {
                            if up(k) == i {
                                lemma_above(s[i as int], s[child as int], s[k]);
                            }
                        }
                    }
                    break;
                },
            }
            let upper = items[i];
            items[i] = items[child];
            items[child] = upper;
            proof {
                let t = item_views(items@);
                assert(t =~= exchanged(s, i as int, child as int));
                lemma_exchanged(s, i as int, child as int);
                lemma_lowered(s, i as int, child as int);
            }
            i = child;
            proof {
                if i >= n / 2 {
                    let t = item_views(items@);
                    assert forall|k: int| 0 < k < t.len() implies above(t[up(k)], #[trigger] t[k]) by {}
                }
            }
        }
        proof {
            lemma_total_of_permutation(item_views(items@), taken, count);
        }
        *self = NodeHeap { items };
        Some(node)
    }
}

/// Exchanging an item with the one above it moves the hole up.
proof fn lemma_raised(s: Seq<NodeView>, i: int)
    requires
        0 < i < s.len(),
        heaped_but_up(s, i),
        bridged(s, i),
        !above(s[up(i)], s[i]),
    ensures
        heaped_but_up(exchanged(s, up(i), i), up(i)),
        bridged(exchanged(s, up(i), i), up(i)),
{
    let p = up(i);
    let t = exchanged(s, p, i);
    lemma_above(s[p], s[i], s[i]);
    assert forall|k: int| 0 < k < t.len() && k != p implies above(#[trigger] t[up(k)], t[k]) by {
        if k == i {
        } else if up(k) == i {
            assert(above(s[p], s[k]));
        } else if up(k) == p {
            assert(above(s[up(k)], s[k]));
            lemma_above(s[i], s[p], s[k]);
        } else {
            assert(above(s[up(k)], s[k]));
        }
    }
    assert forall|k: int| 0 < k < t.len() && up(k) == p && p > 0 implies above(
        t[up(p)],
        #[trigger] t[k],
    ) by {
        assert(above(s[up(p)], s[p]));
        if k != i {
            assert(above(s[up(k)], s[k]));
            lemma_above(s[up(p)], s[p], s[k]);
        }
    }
}

/// Exchanging an item with the greater of those below it moves the hole down.
proof fn lemma_lowered(s: Seq<NodeView>, i: int, c: int)
    requires
        0 <= i < c < s.len(),
        up(c) == i,
        heaped_but_down(s, i),
        bridged(s, i),
        !above(s[i], s[c]),
        forall|k: int| 0 < k < s.len() && up(k) == i ==> above(s[c], #[trigger] s[k]),
    ensures
        heaped_but_down(exchanged(s, i, c), c),
        bridged(exchanged(s, i, c), c),
{
    let t = exchanged(s, i, c);
    lemma_above(s[i], s[c], s[c]);
    assert forall|k: int| 0 < k < t.len() && up(k) != c implies above(#[trigger] t[up(k)], t[k]) by {
        if k == i {
            assert(above(s[up(i)], s[c]));
        } else if k == c {
        } else if up(k) == i {
            assert(above(s[c], s[k]));
        } else {
            assert(above(s[up(k)], s[k]));
        }
    }
    assert forall|k: int| 0 < k < t.len() && up(k) == c && c > 0 implies above(
        t[up(c)],
        #[trigger] t[k],
    ) by {
        assert(above(s[up(k)], s[k]));
    }
}

} // verus!
