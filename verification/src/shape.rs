//! Trees without the order of their children.

use vstd::multiset::Multiset;
use vstd::prelude::*;

use crate::determinism::{alike, distinct_names, has_match, is_matched};
use crate::node::{FileTime, NodeView};
use crate::path::PathView;
use crate::sums::{lemma_total_of_permutation, total};
use crate::walk::{folded_size, greatest_size, total_size};

verus! {

/// What a tree is, but for the order of children.
#[verifier::ext_equal]
pub struct Shape {
    pub name: PathView,
    pub size: u64,
    pub children: Multiset<Shape>,
    pub inode_device: Option<(u64, u64)>,
    pub depth: usize,
    pub is_file: bool,
}

/// A tree without the order of its children.
pub open spec fn shape(node: NodeView) -> Shape
    decreases node, 1nat,
{
    Shape {
        name: node.name,
        size: node.size,
        children: shapes(node.children),
        inode_device: node.inode_device,
        depth: node.depth,
        is_file: node.is_file,
    }
}

/// Trees without their order.
pub open spec fn shapes(nodes: Seq<NodeView>) -> Multiset<Shape>
    decreases nodes, 0nat,
{
    if nodes.len() == 0 {
        Multiset::empty()
    } else {
        shapes(nodes.drop_last()).insert(shape(nodes.last()))
    }
}

pub(crate) proof fn lemma_shapes_push(nodes: Seq<NodeView>, node: NodeView)
    ensures
        shapes(nodes.push(node)) == shapes(nodes).insert(shape(node)),
{
    assert(nodes.push(node).drop_last() =~= nodes);
}

/// Where a shape comes from.
proof fn lemma_shape_source(nodes: Seq<NodeView>, h: Shape) -> (i: int)
    requires
        shapes(nodes).contains(h),
    ensures
        0 <= i < nodes.len(),
        shape(nodes[i]) == h,
    decreases nodes.len(),
{
    if nodes.len() == 0 {
        assert(false);
        0
    } else if shape(nodes.last()) == h {
        nodes.len() - 1
    } else {
        let rest = nodes.drop_last();
        assert(shapes(rest).count(h) == shapes(nodes).count(h));
        lemma_shape_source(rest, h)
    }
}

proof fn lemma_shape_contained(nodes: Seq<NodeView>, i: int)
    requires
        0 <= i < nodes.len(),
    ensures
        shapes(nodes).contains(shape(nodes[i])),
    decreases nodes.len(),
{
    if i < nodes.len() - 1 {
        let rest = nodes.drop_last();
        lemma_shape_contained(rest, i);
        assert(rest[i] == nodes[i]);
        assert(shapes(rest).count(shape(nodes[i])) > 0);
    }
}

/// The shapes of a list one after the other.
spec fn shape_list(nodes: Seq<NodeView>) -> Seq<Shape> {
    nodes.map_values(|n: NodeView| shape(n))
}

proof fn lemma_shape_list(nodes: Seq<NodeView>)
    ensures
        shape_list(nodes).to_multiset() == shapes(nodes),
        total(shape_list(nodes), |h: Shape| h.size as int) == total_size(nodes),
    decreases nodes.len(),
{
    broadcast use vstd::seq_lib::group_to_multiset_ensures;

    if nodes.len() > 0 {
        let rest = nodes.drop_last();
        lemma_shape_list(rest);
        assert(shape_list(nodes) =~= shape_list(rest).push(shape(nodes.last())));
        assert(shape_list(nodes).drop_last() =~= shape_list(rest));
    } else {
        shape_list(nodes).to_multiset_ensures();
        assert forall|h: Shape| shape_list(nodes).to_multiset().count(h) == 0 by {
            assert(!shape_list(nodes).contains(h));
        }
        assert(shape_list(nodes).to_multiset() =~= Multiset::empty());
    }
}

/// The size of a directory depends on the shapes of its children alone.
pub proof fn lemma_folded_size_of_shapes(
    by_filetime: Option<FileTime>,
    own: u64,
    s: Seq<NodeView>,
    t: Seq<NodeView>,
)
    requires
        shapes(s) == shapes(t),
    ensures
        folded_size(by_filetime, own, s) == folded_size(by_filetime, own, t),
{
    lemma_shape_list(s);
    lemma_shape_list(t);
    lemma_total_of_permutation(shape_list(s), shape_list(t), |h: Shape| h.size as int);
    lemma_greatest_bounds(own, s);
    lemma_greatest_bounds(own, t);
    let (a, b) = (greatest_size(own, s), greatest_size(own, t));
    if a != own {
        let i = choose|i: int| 0 <= i < s.len() && (#[trigger] s[i]).size == a;
        lemma_shape_contained(s, i);
        let j = lemma_shape_source(t, shape(s[i]));
        assert(t[j].size == a);
    }
    if b != own {
        let j = choose|j: int| 0 <= j < t.len() && (#[trigger] t[j]).size == b;
        lemma_shape_contained(t, j);
        let i = lemma_shape_source(s, shape(t[j]));
        assert(s[i].size == b);
    }
}

proof fn lemma_greatest_bounds(own: u64, nodes: Seq<NodeView>)
    ensures
        own <= greatest_size(own, nodes),
        forall|i: int|
            0 <= i < nodes.len() ==> (#[trigger] nodes[i]).size <= greatest_size(own, nodes),
        greatest_size(own, nodes) == own || exists|i: int|
            0 <= i < nodes.len() && (#[trigger] nodes[i]).size == greatest_size(own, nodes),
    decreases nodes.len(),
{
    if nodes.len() > 0 {
        let rest = nodes.drop_last();
        lemma_greatest_bounds(own, rest);
        assert forall|i: int| 0 <= i < nodes.len() implies (#[trigger] nodes[i]).size
            <= greatest_size(own, nodes) by {
            if i < rest.len() {
                assert(rest[i] == nodes[i]);
            }
        }
        if greatest_size(own, nodes) != own {
            if nodes.last().size > greatest_size(own, rest) {
                assert(nodes[nodes.len() - 1].size == greatest_size(own, nodes));
            } else {
                let i = choose|i: int|
                    0 <= i < rest.len() && (#[trigger] rest[i]).size == greatest_size(own, rest);
                assert(nodes[i].size == greatest_size(own, nodes));
            }
        }
    }
}

/// No two children of a node of the tree have the same name.
pub open spec fn well_named(node: NodeView) -> bool
    decreases node,
{
    &&& distinct_names(node.children)
    &&& forall|i: int| 0 <= i < node.children.len() ==> well_named(#[trigger] node.children[i])
}

/// Trees of one shape differ at most in the order of children.
pub proof fn lemma_same_shape_is_alike(a: NodeView, b: NodeView)
    requires
        shape(a) == shape(b),
        well_named(a),
        well_named(b),
    ensures
        alike(a, b),
    decreases a,
{
    reveal(alike);
    assert(shapes(a.children) == shapes(b.children));
    assert forall|i: int| 0 <= i < a.children.len() implies has_match(
        #[trigger] a.children[i],
        b.children,
    ) by {
        lemma_shape_contained(a.children, i);
        let j = lemma_shape_source(b.children, shape(a.children[i]));
        lemma_same_shape_is_alike(a.children[i], b.children[j]);
        assert(alike(a.children[i], b.children[j]));
    }
    assert forall|j: int| 0 <= j < b.children.len() implies is_matched(
        a.children,
        #[trigger] b.children[j],
    ) by {
        lemma_shape_contained(b.children, j);
        let i = lemma_shape_source(a.children, shape(b.children[j]));
        lemma_same_shape_is_alike(a.children[i], b.children[j]);
        assert(alike(a.children[i], b.children[j]));
    }
}

} // verus!
