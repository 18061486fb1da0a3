//! What holds of the tree that is shown, whatever was walked: what each option
//! keeps out of it, that nothing else is missing from it, and that the largest
//! are in it.

use vstd::multiset::Multiset;
use vstd::prelude::*;

use crate::accounting::tree_capped;
use crate::determinism::{
    lemma_list_name_count, lemma_name_count, lemma_name_count_remove, list_name_count, name_count,
    names_differ,
};
use crate::display_node::{
    display_order, greatest_first, lemma_display_order_total, DisplayNodeView,
};
use crate::filter::{
    candidates, first_pool, is_candidate, is_run, is_shown, lemma_candidates,
    lemma_first_pool_capped, lemma_largest_are_shown, lemma_lines_kept, lemma_shown_names_differ,
    lemma_shown_was_taken, opened, overall_root, pool_after, rebuilt, rebuilt_children, run_ends,
    shown_leaf, shown_lines, shown_tree, shows, takes_line, AggregateData,
};
use crate::heap::{lemma_list_nodes, lemma_tree_nodes, list_nodes, tree_nodes};
use crate::node::{FileTime, NodeView};
use crate::order::Order;
use crate::path::{identity_of, path_order, ComponentView, PathBuf};
use crate::places::lemma_only_names_change;
use crate::sorting::lemma_descending;
use crate::sums::{lemma_total_of_permutation, total};
use crate::utils::names_one_of;
use crate::walk::total_size;

verus! {

// --------------------------------------------------------------------------
// Trees
// --------------------------------------------------------------------------

/// Something holds of every node that is shown below the root of a tree.
pub open spec fn all_below(tree: DisplayNodeView, p: spec_fn(DisplayNodeView) -> bool) -> bool
    decreases tree,
{
    forall|i: int|
        0 <= i < tree.children.len() ==> p(#[trigger] tree.children[i]) && all_below(
            tree.children[i],
            p,
        )
}

/// The number of nodes that are shown below the root of a tree.
pub open spec fn lines_below(tree: DisplayNodeView) -> int
    decreases tree, 1nat,
{
    lines_of(tree.children)
}

/// The number of nodes of a list of shown trees.
pub open spec fn lines_of(trees: Seq<DisplayNodeView>) -> int
    decreases trees, 0nat,
{
    if trees.len() == 0 {
        0
    } else {
        lines_of(trees.drop_last()) + 1 + lines_below(trees.last())
    }
}

/// Nothing is shown more than so many levels below the root of a tree.
pub open spec fn no_deeper(tree: DisplayNodeView, levels: int) -> bool
    decreases tree,
{
    forall|i: int|
        0 <= i < tree.children.len() ==> levels > 0 && no_deeper(
            #[trigger] tree.children[i],
            levels - 1,
        )
}

/// A shown node has the name, the size and the kind of a walked one.
pub open spec fn copies(shown: DisplayNodeView, node: NodeView) -> bool {
    shown.name == node.name && shown.size == node.size && shown.is_file == node.is_file
}

/// A node is shown below the root of a tree.
pub open spec fn occurs(tree: DisplayNodeView, node: NodeView) -> bool
    decreases tree,
{
    exists|i: int|
        0 <= i < tree.children.len() && (copies(#[trigger] tree.children[i], node) || occurs(
            tree.children[i],
            node,
        ))
}

/// The shown tree is the walked one with some of its nodes left out: what is shown
/// below a node was found in it.
pub open spec fn is_part(tree: DisplayNodeView, node: NodeView) -> bool
    decreases tree,
{
    &&& copies(tree, node)
    &&& forall|i: int|
        0 <= i < tree.children.len() ==> exists|j: int|
            0 <= j < node.children.len() && is_part(
                #[trigger] tree.children[i],
                #[trigger] node.children[j],
            )
}

/// A node was found somewhere below another.
pub open spec fn is_inside(x: NodeView, node: NodeView) -> bool
    decreases node,
{
    exists|i: int|
        0 <= i < node.children.len() && (#[trigger] node.children[i] == x || is_inside(
            x,
            node.children[i],
        ))
}

/// Directories know how deep they are.
pub open spec fn is_leveled(node: NodeView) -> bool
    decreases node,
{
    forall|i: int|
        0 <= i < node.children.len() ==> is_leveled(#[trigger] node.children[i]) && (
        node.children[i].children.len() > 0 ==> node.children[i].depth == node.depth + 1)
}

// --------------------------------------------------------------------------
// What the options allow
// --------------------------------------------------------------------------

/// The options allow a node to be shown where its directory is opened.
pub open spec fn is_allowed(options: &AggregateData, node: NodeView) -> bool {
    &&& options.min_size is Some ==> node.size > options.min_size->Some_0
    &&& options.min_size is None && options.using_a_filter && !node.is_file ==> node.size > 0
    &&& options.only_dir ==> !node.is_file
}

/// The options allow a directory below the root to be opened.
pub open spec fn is_open(
    options: &AggregateData,
    keep_collapsed: Seq<PathBuf>,
    node: NodeView,
) -> bool {
    node.depth < options.depth && forall|i: int|
        0 <= i < keep_collapsed.len() ==> !crate::utils::equivalent(
            #[trigger] keep_collapsed[i]@,
            node.name,
        )
}

/// The root is opened: where it stands for several, always.
pub open spec fn root_is_open(options: &AggregateData, root: NodeView, roots: int) -> bool {
    roots != 1 || root.depth < options.depth
}

/// The options allow a node to be shown, and everything on the way to it from a
/// node above it that is open.
pub open spec fn is_reachable(
    options: &AggregateData,
    keep_collapsed: Seq<PathBuf>,
    from: NodeView,
    x: NodeView,
) -> bool
    decreases from,
{
    exists|i: int|
        0 <= i < from.children.len() && is_allowed(options, #[trigger] from.children[i]) && (
        from.children[i] == x || (is_open(options, keep_collapsed, from.children[i])
            && is_reachable(options, keep_collapsed, from.children[i], x)))
}

/// A node was allowed and found in a directory that was opened.
spec fn is_due(
    options: &AggregateData,
    keep_collapsed: Seq<PathBuf>,
    root: NodeView,
    roots: int,
    x: NodeView,
) -> bool {
    is_allowed(options, x) && exists|y: NodeView| #[trigger]
        opens(options, keep_collapsed, root, roots, y) && y.children.contains(x)
}

spec fn opens(
    options: &AggregateData,
    keep_collapsed: Seq<PathBuf>,
    root: NodeView,
    roots: int,
    y: NodeView,
) -> bool {
    ||| y == root && root_is_open(options, root, roots)
    ||| is_inside(y, root) && is_open(options, keep_collapsed, y)
}

proof fn lemma_inside(root: NodeView, y: NodeView, x: NodeView)
    requires
        y == root || is_inside(y, root),
        y.children.contains(x),
    ensures
        is_inside(x, root),
    decreases root,
{
    if y == root {
        let i = choose|i: int| 0 <= i < root.children.len() && root.children[i] == x;
        assert(root.children[i] == x);
    } else {
        let i = choose|i: int|
            0 <= i < root.children.len() && (#[trigger] root.children[i] == y || is_inside(
                y,
                root.children[i],
            ));
        lemma_inside(root.children[i], y, x);
    }
}

proof fn lemma_candidate_source(options: &AggregateData, nodes: Seq<NodeView>, x: NodeView)
    ensures
        candidates(options, nodes).contains(x) <==> nodes.contains(x) && is_allowed(options, x),
{
    lemma_candidates(options, nodes);
    nodes.to_multiset_ensures();
    assert(candidates(options, nodes).count(x) == (if is_candidate(options, x) {
        nodes.to_multiset().count(x)
    } else {
        0
    }));
    assert(nodes.contains(x) <==> nodes.to_multiset().count(x) > 0);
}

proof fn lemma_open(options: &AggregateData, keep_collapsed: Seq<PathBuf>, y: NodeView)
    ensures
        is_open(options, keep_collapsed, y) ==> opened(options, keep_collapsed, y) == candidates(
            options,
            y.children,
        ),
        !is_open(options, keep_collapsed, y) ==> opened(options, keep_collapsed, y) == Multiset::<
            NodeView,
        >::empty(),
{
    if names_one_of(keep_collapsed, y.name) {
        let i = choose|i: int|
            0 <= i < keep_collapsed.len() && crate::utils::equivalent(
                #[trigger] keep_collapsed[i]@,
                y.name,
            );
        assert(crate::utils::equivalent(keep_collapsed[i]@, y.name));
    } else {
        assert forall|i: int| 0 <= i < keep_collapsed.len() implies !crate::utils::equivalent(
            #[trigger] keep_collapsed[i]@,
            y.name,
        ) by {}
    }
}

/// What is taken, and what is left to take, is due.
proof fn lemma_taken_is_due(
    options: &AggregateData,
    keep_collapsed: Seq<PathBuf>,
    root: NodeView,
    roots: int,
    taken: Seq<NodeView>,
)
    requires
        is_run(options, keep_collapsed, first_pool(options, root, roots), taken),
    ensures
        forall|x: NodeView| #[trigger]
            pool_after(
                options,
                keep_collapsed,
                first_pool(options, root, roots),
                taken,
            ).contains(x) ==> is_due(options, keep_collapsed, root, roots, x),
        forall|k: int|
            0 <= k < taken.len() ==> is_due(
                options,
                keep_collapsed,
                root,
                roots,
                #[trigger] taken[k],
            ),
    decreases taken.len(),
{
    let pool = first_pool(options, root, roots);
    let now = pool_after(options, keep_collapsed, pool, taken);
    if taken.len() == 0 {
        assert forall|x: NodeView| #[trigger] now.contains(x) implies is_due(
            options,
            keep_collapsed,
            root,
            roots,
            x,
        ) by {
            assert(pool.count(x) > 0);
            assert(root_is_open(options, root, roots));
            lemma_candidate_source(options, root.children, x);
            assert(opens(options, keep_collapsed, root, roots, root));
        }
    } else {
        let before = taken.drop_last();
        let last = taken.last();
        lemma_taken_is_due(options, keep_collapsed, root, roots, before);
        let p = pool_after(options, keep_collapsed, pool, before);
        assert(p.contains(last));
        assert(is_due(options, keep_collapsed, root, roots, last));
        let y = choose|y: NodeView| #[trigger]
            opens(options, keep_collapsed, root, roots, y) && y.children.contains(last);
        lemma_inside(root, y, last);
        lemma_open(options, keep_collapsed, last);
        assert forall|x: NodeView| #[trigger] now.contains(x) implies is_due(
            options,
            keep_collapsed,
            root,
            roots,
            x,
        ) by {
            let more = opened(options, keep_collapsed, last);
            if more.contains(x) {
                assert(more.count(x) > 0);
                assert(is_open(options, keep_collapsed, last));
                lemma_candidate_source(options, last.children, x);
                assert(opens(options, keep_collapsed, root, roots, last));
            } else {
                assert(now.count(x) > 0);
                assert(p.count(x) > 0);
                assert(p.contains(x));
            }
        }
        assert forall|k: int| 0 <= k < taken.len() implies is_due(
            options,
            keep_collapsed,
            root,
            roots,
            #[trigger] taken[k],
        ) by {
            if k < before.len() {
                assert(taken[k] == before[k]);
            }
        }
    }
}

// --------------------------------------------------------------------------
// Names
// --------------------------------------------------------------------------

proof fn lemma_named_inside(x: NodeView, node: NodeView)
    ensures
        x == node || is_inside(x, node) ==> name_count(identity_of(x.name), node) >= 1,
        is_inside(x, node) ==> list_name_count(identity_of(x.name), node.children) >= 1,
    decreases node,
{
    let key = identity_of(x.name);
    lemma_name_count(key, node);
    if is_inside(x, node) {
        let i = choose|i: int|
            0 <= i < node.children.len() && (#[trigger] node.children[i] == x || is_inside(
                x,
                node.children[i],
            ));
        lemma_named_inside(x, node.children[i]);
        lemma_name_count_remove(key, node.children, i);
        lemma_list_name_count(key, node.children.remove(i));
    }
}

proof fn lemma_two_places(key: Seq<ComponentView>, s: Seq<NodeView>, i: int, j: int)
    requires
        0 <= i < s.len(),
        0 <= j < s.len(),
        i != j,
    ensures
        list_name_count(key, s) >= name_count(key, s[i]) + name_count(key, s[j]),
{
    let (a, b) = if i < j {
        (i, j)
    } else {
        (j, i)
    };
    lemma_name_count_remove(key, s, b);
    let rest = s.remove(b);
    assert(rest[a] == s[a]);
    lemma_name_count_remove(key, rest, a);
    lemma_list_name_count(key, rest.remove(a));
}

proof fn lemma_child_names(key: Seq<ComponentView>, s: Seq<NodeView>, i: int)
    requires
        0 <= i < s.len(),
    ensures
        list_name_count(key, s) >= name_count(key, s[i]),
        list_name_count(key, s) >= list_name_count(key, s[i].children),
        identity_of(s[i].name) == key ==> list_name_count(key, s) >= 1 + list_name_count(
            key,
            s[i].children,
        ),
{
    lemma_name_count_remove(key, s, i);
    lemma_list_name_count(key, s.remove(i));
    lemma_name_count(key, s[i]);
}

/// Nodes with one name are one node, where no two nodes have the same name.
proof fn lemma_same_name(node: NodeView, x: NodeView, y: NodeView)
    requires
        is_inside(x, node),
        is_inside(y, node),
        identity_of(x.name) == identity_of(y.name),
        list_name_count(identity_of(x.name), node.children) <= 1,
    ensures
        x == y,
    decreases node,
{
    let key = identity_of(x.name);
    let i = choose|i: int|
        0 <= i < node.children.len() && (#[trigger] node.children[i] == x || is_inside(
            x,
            node.children[i],
        ));
    let j = choose|j: int|
        0 <= j < node.children.len() && (#[trigger] node.children[j] == y || is_inside(
            y,
            node.children[j],
        ));
    lemma_named_inside(x, node.children[i]);
    lemma_named_inside(y, node.children[j]);
    if i != j {
        lemma_two_places(key, node.children, i, j);
    } else {
        lemma_child_names(key, node.children, i);
        if node.children[i] != x && node.children[i] != y {
            lemma_same_name(node.children[i], x, y);
        }
    }
}

/// A node was found in one directory, where no two nodes have the same name.
proof fn lemma_same_parent(node: NodeView, y: NodeView, z: NodeView, x: NodeView)
    requires
        y == node || is_inside(y, node),
        z == node || is_inside(z, node),
        y.children.contains(x),
        z.children.contains(x),
        list_name_count(identity_of(x.name), node.children) <= 1,
    ensures
        y == z,
    decreases node,
{
    let key = identity_of(x.name);
    if y == node && z != node {
        lemma_same_parent_of_child(node, z, x);
    } else if z == node && y != node {
        lemma_same_parent_of_child(node, y, x);
    } else if y != node {
        let i = choose|i: int|
            0 <= i < node.children.len() && (#[trigger] node.children[i] == y || is_inside(
                y,
                node.children[i],
            ));
        let j = choose|j: int|
            0 <= j < node.children.len() && (#[trigger] node.children[j] == z || is_inside(
                z,
                node.children[j],
            ));
        lemma_inside(node.children[i], y, x);
        lemma_inside(node.children[j], z, x);
        lemma_named_inside(x, node.children[i]);
        lemma_named_inside(x, node.children[j]);
        if i != j {
            lemma_two_places(key, node.children, i, j);
        } else {
            lemma_child_names(key, node.children, i);
            lemma_same_parent(node.children[i], y, z, x);
        }
    }
}

/// A child of a node is no child of one below it.
proof fn lemma_same_parent_of_child(node: NodeView, z: NodeView, x: NodeView)
    requires
        is_inside(z, node),
        node.children.contains(x),
        z.children.contains(x),
    ensures
        list_name_count(identity_of(x.name), node.children) >= 2,
{
    let key = identity_of(x.name);
    let i = choose|i: int| 0 <= i < node.children.len() && node.children[i] == x;
    let j = choose|j: int|
        0 <= j < node.children.len() && (#[trigger] node.children[j] == z || is_inside(
            z,
            node.children[j],
        ));
    lemma_inside(node.children[j], z, x);
    lemma_named_inside(x, node.children[i]);
    lemma_named_inside(x, node.children[j]);
    if i != j {
        lemma_two_places(key, node.children, i, j);
    } else {
        lemma_child_names(key, node.children, i);
    }
}

// --------------------------------------------------------------------------
// The shown tree
// --------------------------------------------------------------------------

proof fn lemma_sorted(s: Seq<DisplayNodeView>)
    ensures
        greatest_first(s).len() == s.len(),
        greatest_first(s).to_multiset() == s.to_multiset(),
        forall|d: DisplayNodeView| #[trigger] greatest_first(s).contains(d) <==> s.contains(d),
        forall|i: int, j: int|
            0 <= i < j < s.len() ==> display_order(
                #[trigger] greatest_first(s)[i],
                #[trigger] greatest_first(s)[j],
            ) != Order::Less,
{
    let f = |a: DisplayNodeView, b: DisplayNodeView| display_order(a, b);
    lemma_display_order_total();
    lemma_descending(s, f);
    let t = greatest_first(s);
    s.to_multiset_ensures();
    t.to_multiset_ensures();
    assert(t.len() == s.len());
    assert forall|d: DisplayNodeView| #[trigger] t.contains(d) <==> s.contains(d) by {
        assert(t.contains(d) <==> t.to_multiset().count(d) > 0);
        assert(s.contains(d) <==> s.to_multiset().count(d) > 0);
    }
    assert forall|i: int, j: int| 0 <= i < j < s.len() implies display_order(
        #[trigger] t[i],
        #[trigger] t[j],
    ) != Order::Less by {
        assert(f(t[i], t[j]) != Order::Less);
    }
}

proof fn lemma_rebuilt_contains(shown: Seq<NodeView>, node: NodeView, n: int, d: DisplayNodeView)
    requires
        0 <= n <= node.children.len(),
    ensures
        rebuilt_children(shown, node, n).contains(d) <==> exists|j: int|
            0 <= j < n && is_shown(shown, (#[trigger] node.children[j]).name) && d == rebuilt(
                shown,
                node.children[j],
            ),
    decreases n,
{
    if n > 0 {
        lemma_rebuilt_contains(shown, node, n - 1, d);
        let before = rebuilt_children(shown, node, n - 1);
        let now = rebuilt_children(shown, node, n);
        let c = node.children[n - 1];
        if is_shown(shown, c.name) {
            assert(now == before.push(rebuilt(shown, c)));
            if now.contains(d) {
                let k = choose|k: int| 0 <= k < now.len() && now[k] == d;
                if k < before.len() {
                    assert(before[k] == d);
                    assert(before.contains(d));
                    let j = choose|j: int|
                        0 <= j < n - 1 && is_shown(shown, (#[trigger] node.children[j]).name) && d
                            == rebuilt(shown, node.children[j]);
                    assert(is_shown(shown, node.children[j].name));
                } else {
                    assert(is_shown(shown, node.children[n - 1].name));
                }
            }
            if before.contains(d) {
                let k = choose|k: int| 0 <= k < before.len() && before[k] == d;
                assert(now[k] == d);
            }
            assert(now[before.len() as int] == rebuilt(shown, c));
        } else {
            assert(now == before);
        }
    }
}

/// What is shown below a node was found in it, and has the name of a node that is
/// shown.
proof fn lemma_rebuilt_source(shown: Seq<NodeView>, node: NodeView, i: int) -> (j: int)
    requires
        0 <= i < rebuilt(shown, node).children.len(),
    ensures
        0 <= j < node.children.len(),
        is_shown(shown, node.children[j].name),
        rebuilt(shown, node).children[i] == rebuilt(shown, node.children[j]),
{
    let n = node.children.len() as int;
    let s = rebuilt_children(shown, node, n);
    let d = rebuilt(shown, node).children[i];
    lemma_sorted(s);
    assert(greatest_first(s).contains(d));
    lemma_rebuilt_contains(shown, node, n, d);
    choose|j: int|
        0 <= j < n && is_shown(shown, (#[trigger] node.children[j]).name) && d == rebuilt(
            shown,
            node.children[j],
        )
}

/// What was found in a node and has the name of a node that is shown, is shown
/// below it.
proof fn lemma_rebuilt_target(shown: Seq<NodeView>, node: NodeView, j: int) -> (i: int)
    requires
        0 <= j < node.children.len(),
        is_shown(shown, node.children[j].name),
    ensures
        0 <= i < rebuilt(shown, node).children.len(),
        rebuilt(shown, node).children[i] == rebuilt(shown, node.children[j]),
{
    let n = node.children.len() as int;
    let s = rebuilt_children(shown, node, n);
    let d = rebuilt(shown, node.children[j]);
    lemma_rebuilt_contains(shown, node, n, d);
    lemma_sorted(s);
    assert(s.contains(d));
    assert(greatest_first(s).contains(d));
    choose|i: int| 0 <= i < greatest_first(s).len() && greatest_first(s)[i] == d
}

// --------------------------------------------------------------------------
// What is kept out
// --------------------------------------------------------------------------

/// What has the name of a shown node was taken, and its directory was opened.
proof fn lemma_shown_child(
    options: &AggregateData,
    keep_collapsed: Seq<PathBuf>,
    root: NodeView,
    roots: int,
    taken: Seq<NodeView>,
    node: NodeView,
    x: NodeView,
)
    requires
        names_differ(root.children),
        is_run(options, keep_collapsed, first_pool(options, root, roots), taken),
        node == root || is_inside(node, root),
        node.children.contains(x),
        is_shown(shown_lines(options, taken), x.name),
    ensures
        is_inside(x, root),
        is_allowed(options, x),
        opens(options, keep_collapsed, root, roots, node),
        taken.contains(x),
        shown_lines(options, taken).contains(x),
{
    let shown = shown_lines(options, taken);
    let a = choose|a: int|
        0 <= a < shown.len() && identity_of((#[trigger] shown[a]).name) == identity_of(x.name);
    let k = lemma_shown_was_taken(options, taken, a);
    lemma_taken_is_due(options, keep_collapsed, root, roots, taken);
    let other = taken[k];
    assert(is_due(options, keep_collapsed, root, roots, other));
    let y = choose|y: NodeView| #[trigger]
        opens(options, keep_collapsed, root, roots, y) && y.children.contains(other);
    lemma_inside(root, y, other);
    lemma_inside(root, node, x);
    assert(list_name_count(identity_of(x.name), root.children) <= 1);
    lemma_same_name(root, x, other);
    lemma_same_parent(root, y, node, x);
}

/// What holds of the copy of everything that is allowed holds of everything that
/// is shown.
proof fn lemma_rebuilt_all(
    options: &AggregateData,
    keep_collapsed: Seq<PathBuf>,
    root: NodeView,
    roots: int,
    taken: Seq<NodeView>,
    node: NodeView,
    p: spec_fn(DisplayNodeView) -> bool,
)
    requires
        names_differ(root.children),
        is_run(options, keep_collapsed, first_pool(options, root, roots), taken),
        node == root || is_inside(node, root),
        forall|d: DisplayNodeView, x: NodeView|
            #![trigger copies(d, x)]
            copies(d, x) && is_allowed(options, x) && shown_lines(options, taken).contains(x)
                ==> p(d),
    ensures
        all_below(rebuilt(shown_lines(options, taken), node), p),
    decreases node,
{
    let shown = shown_lines(options, taken);
    let tree = rebuilt(shown, node);
    assert forall|i: int| 0 <= i < tree.children.len() implies p(#[trigger] tree.children[i])
        && all_below(tree.children[i], p) by {
        let j = lemma_rebuilt_source(shown, node, i);
        let x = node.children[j];
        assert(node.children.contains(x));
        lemma_shown_child(options, keep_collapsed, root, roots, taken, node, x);
        assert(copies(tree.children[i], x));
        lemma_rebuilt_all(options, keep_collapsed, root, roots, taken, x, p);
    }
}

proof fn lemma_flat_source(shown: Seq<NodeView>, root: NodeView, i: int) -> (k: int)
    requires
        0 <= i < crate::filter::flat(shown, root).children.len(),
    ensures
        crate::filter::flat(shown, root).children.len() == shown.len(),
        0 <= k < shown.len(),
        crate::filter::flat(shown, root).children[i] == shown_leaf(shown[k]),
{
    let s = shown.map_values(|n: NodeView| shown_leaf(n));
    lemma_sorted(s);
    let d = greatest_first(s)[i];
    assert(greatest_first(s).contains(d));
    let k = choose|k: int| 0 <= k < s.len() && s[k] == d;
    k
}

proof fn lemma_shown_all(
    options: &AggregateData,
    keep_collapsed: Seq<PathBuf>,
    root: NodeView,
    roots: int,
    taken: Seq<NodeView>,
    p: spec_fn(DisplayNodeView) -> bool,
)
    requires
        options.only_file || names_differ(root.children),
        is_run(options, keep_collapsed, first_pool(options, root, roots), taken),
        forall|d: DisplayNodeView, x: NodeView|
            #![trigger copies(d, x)]
            copies(d, x) && is_allowed(options, x) && shown_lines(options, taken).contains(x)
                ==> p(d),
    ensures
        all_below(shown_tree(options, root, taken), p),
{
    let shown = shown_lines(options, taken);
    let tree = shown_tree(options, root, taken);
    if options.only_file {
        assert forall|i: int| 0 <= i < tree.children.len() implies p(#[trigger] tree.children[i])
            && all_below(tree.children[i], p) by {
            let a = lemma_flat_source(shown, root, i);
            let k = lemma_shown_was_taken(options, taken, a);
            lemma_taken_is_due(options, keep_collapsed, root, roots, taken);
            assert(is_due(options, keep_collapsed, root, roots, taken[k]));
            assert(shown.contains(shown[a]));
            assert(copies(tree.children[i], shown[a]));
        }
    } else {
        lemma_rebuilt_all(options, keep_collapsed, root, roots, taken, root, p);
    }
}

/// How a tree came to be shown.
proof fn lemma_run_of(
    options: &AggregateData,
    keep_collapsed: Seq<PathBuf>,
    root: NodeView,
    roots: int,
    tree: DisplayNodeView,
) -> (taken: Seq<NodeView>)
    requires
        shows(options, keep_collapsed, first_pool(options, root, roots), root, tree),
    ensures
        is_run(options, keep_collapsed, first_pool(options, root, roots), taken),
        run_ends(options, keep_collapsed, first_pool(options, root, roots), taken),
        tree == shown_tree(options, root, taken),
{
    choose|taken: Seq<NodeView>|
        {
            &&& #[trigger] is_run(options, keep_collapsed, first_pool(options, root, roots), taken)
            &&& run_ends(options, keep_collapsed, first_pool(options, root, roots), taken)
            &&& tree == shown_tree(options, root, taken)
        }
}

/// With a minimum size, every node that is shown below the root is larger,
/// whether it is a file or a directory. Where directories are asked for alone, no
/// file is shown below the root. Under a filter, and without a minimum size, no
/// directory is shown in which nothing passed the filter.
pub proof fn lemma_options_keep_out(
    options: &AggregateData,
    keep_collapsed: Seq<PathBuf>,
    root: NodeView,
    roots: int,
    tree: DisplayNodeView,
)
    requires
        shows(options, keep_collapsed, first_pool(options, root, roots), root, tree),
        options.only_file || names_differ(root.children),
    ensures
        options.min_size matches Some(m) ==> all_below(tree, |d: DisplayNodeView| d.size > m),
        options.only_dir ==> all_below(tree, |d: DisplayNodeView| !d.is_file),
        options.using_a_filter && options.min_size is None ==> all_below(
            tree,
            |d: DisplayNodeView| d.is_file || d.size > 0,
        ),
{
    let taken = lemma_run_of(options, keep_collapsed, root, roots, tree);
    if let Some(m) = options.min_size {
        let p = |d: DisplayNodeView| d.size > m;
        lemma_shown_all(options, keep_collapsed, root, roots, taken, p);
    }
    if options.only_dir {
        let p = |d: DisplayNodeView| !d.is_file;
        lemma_shown_all(options, keep_collapsed, root, roots, taken, p);
    }
    if options.using_a_filter && options.min_size is None {
        let p = |d: DisplayNodeView| d.is_file || d.size > 0;
        lemma_shown_all(options, keep_collapsed, root, roots, taken, p);
    }
}

proof fn lemma_rebuilt_is_part(shown: Seq<NodeView>, node: NodeView)
    ensures
        is_part(rebuilt(shown, node), node),
    decreases node,
{
    let tree = rebuilt(shown, node);
    assert forall|i: int| 0 <= i < tree.children.len() implies exists|j: int|
        0 <= j < node.children.len() && is_part(
            #[trigger] tree.children[i],
            #[trigger] node.children[j],
        ) by {
        let j = lemma_rebuilt_source(shown, node, i);
        lemma_rebuilt_is_part(shown, node.children[j]);
        assert(is_part(tree.children[i], node.children[j]));
    }
}

/// The shown tree is the walked one with nodes left out. Where files are asked for
/// alone, it shows leaves of the walked tree directly below its root.
pub proof fn lemma_shown_was_walked(
    options: &AggregateData,
    keep_collapsed: Seq<PathBuf>,
    root: NodeView,
    roots: int,
    tree: DisplayNodeView,
)
    requires
        shows(options, keep_collapsed, first_pool(options, root, roots), root, tree),
    ensures
        copies(tree, root),
        !options.only_file ==> is_part(tree, root),
        options.only_file ==> forall|i: int|
            0 <= i < tree.children.len() ==> (#[trigger] tree.children[i]).children.len() == 0
                && exists|x: NodeView| #[trigger]
                is_inside(x, root) && x.children.len() == 0 && copies(tree.children[i], x),
{
    let taken = lemma_run_of(options, keep_collapsed, root, roots, tree);
    let shown = shown_lines(options, taken);
    if options.only_file {
        assert forall|i: int| 0 <= i < tree.children.len() implies (
        #[trigger] tree.children[i]).children.len() == 0 && exists|x: NodeView| #[trigger]
            is_inside(x, root) && x.children.len() == 0 && copies(tree.children[i], x) by {
            let a = lemma_flat_source(shown, root, i);
            let k = lemma_shown_was_taken(options, taken, a);
            lemma_taken_is_due(options, keep_collapsed, root, roots, taken);
            let x = taken[k];
            assert(is_due(options, keep_collapsed, root, roots, x));
            let y = choose|y: NodeView| #[trigger]
                opens(options, keep_collapsed, root, roots, y) && y.children.contains(x);
            lemma_inside(root, y, x);
            lemma_shown_takes_line(options, taken, a);
        }
    } else {
        lemma_rebuilt_is_part(shown, root);
    }
}

proof fn lemma_shown_takes_line(options: &AggregateData, taken: Seq<NodeView>, a: int)
    requires
        0 <= a < shown_lines(options, taken).len(),
    ensures
        options.only_file ==> shown_lines(options, taken)[a].children.len() == 0,
    decreases taken.len(),
{
    let before = shown_lines(options, taken.drop_last());
    let now = shown_lines(options, taken);
    if now[a] != taken.last() || !takes_line(options, taken.last()) {
        assert(a < before.len() && now[a] == before[a]);
        lemma_shown_takes_line(options, taken.drop_last(), a);
    }
}

/// A tree whose nodes have nothing below them is flat.
pub(crate) proof fn lemma_flat_is_shallow(tree: DisplayNodeView)
    requires
        forall|i: int|
            0 <= i < tree.children.len() ==> (#[trigger] tree.children[i]).children.len() == 0,
    ensures
        no_deeper(tree, 1),
{
    assert forall|i: int| 0 <= i < tree.children.len() implies no_deeper(
        #[trigger] tree.children[i],
        0,
    ) by {}
}

/// A directory that is to be kept collapsed is shown with nothing below it.
pub proof fn lemma_collapsed_stay_closed(
    options: &AggregateData,
    keep_collapsed: Seq<PathBuf>,
    root: NodeView,
    roots: int,
    tree: DisplayNodeView,
)
    requires
        shows(options, keep_collapsed, first_pool(options, root, roots), root, tree),
        options.only_file || names_differ(root.children),
    ensures
        all_below(
            tree,
            |d: DisplayNodeView|
                d.children.len() > 0 ==> forall|i: int|
                    0 <= i < keep_collapsed.len() ==> !crate::utils::equivalent(
                        #[trigger] keep_collapsed[i]@,
                        d.name,
                    ),
        ),
{
    let taken = lemma_run_of(options, keep_collapsed, root, roots, tree);
    let p = |d: DisplayNodeView|
        d.children.len() > 0 ==> forall|i: int|
            0 <= i < keep_collapsed.len() ==> !crate::utils::equivalent(
                #[trigger] keep_collapsed[i]@,
                d.name,
            );
    if options.only_file {
        lemma_shown_was_walked(options, keep_collapsed, root, roots, tree);
        assert forall|i: int| 0 <= i < tree.children.len() implies p(#[trigger] tree.children[i])
            && all_below(tree.children[i], p) by {}
    } else {
        lemma_rebuilt_closed(options, keep_collapsed, root, roots, taken, root, p);
    }
}

proof fn lemma_rebuilt_closed(
    options: &AggregateData,
    keep_collapsed: Seq<PathBuf>,
    root: NodeView,
    roots: int,
    taken: Seq<NodeView>,
    node: NodeView,
    p: spec_fn(DisplayNodeView) -> bool,
)
    requires
        names_differ(root.children),
        is_run(options, keep_collapsed, first_pool(options, root, roots), taken),
        node == root || is_inside(node, root),
        p == (|d: DisplayNodeView|
            d.children.len() > 0 ==> forall|i: int|
                0 <= i < keep_collapsed.len() ==> !crate::utils::equivalent(
                    #[trigger] keep_collapsed[i]@,
                    d.name,
                )),
    ensures
        all_below(rebuilt(shown_lines(options, taken), node), p),
    decreases node,
{
    let shown = shown_lines(options, taken);
    let tree = rebuilt(shown, node);
    assert forall|i: int| 0 <= i < tree.children.len() implies p(#[trigger] tree.children[i])
        && all_below(tree.children[i], p) by {
        let j = lemma_rebuilt_source(shown, node, i);
        let x = node.children[j];
        assert(node.children.contains(x));
        lemma_inside(root, node, x);
        lemma_rebuilt_closed(options, keep_collapsed, root, roots, taken, x, p);
        let d = tree.children[i];
        if d.children.len() > 0 {
            let k = lemma_rebuilt_source(shown, x, 0);
            assert(x.children.contains(x.children[k]));
            lemma_shown_child(options, keep_collapsed, root, roots, taken, x, x.children[k]);
            lemma_not_inside_itself(root, x);
        }
    }
}

proof fn lemma_part_of_list(nodes: Seq<NodeView>, i: int)
    requires
        0 <= i < nodes.len(),
    ensures
        tree_nodes(nodes[i]) <= list_nodes(nodes),
    decreases nodes.len(),
{
    lemma_list_nodes(nodes.drop_last());
    lemma_tree_nodes(nodes.last());
    if i < nodes.len() - 1 {
        lemma_part_of_list(nodes.drop_last(), i);
    }
}

/// What was found below a node is smaller than it.
proof fn lemma_inside_is_smaller(x: NodeView, node: NodeView)
    requires
        is_inside(x, node),
    ensures
        tree_nodes(x) < tree_nodes(node),
    decreases node,
{
    let i = choose|i: int|
        0 <= i < node.children.len() && (#[trigger] node.children[i] == x || is_inside(
            x,
            node.children[i],
        ));
    lemma_part_of_list(node.children, i);
    if node.children[i] != x {
        lemma_inside_is_smaller(x, node.children[i]);
    }
}

/// A node is not found below itself.
proof fn lemma_not_inside_itself(root: NodeView, x: NodeView)
    requires
        is_inside(x, root),
    ensures
        x != root,
{
    lemma_inside_is_smaller(x, root);
}

/// Nothing is shown deeper below the root than asked for. Where the root stands
/// for several, those are not counted.
pub proof fn lemma_depth_is_kept(
    options: &AggregateData,
    keep_collapsed: Seq<PathBuf>,
    root: NodeView,
    roots: int,
    tree: DisplayNodeView,
)
    requires
        shows(options, keep_collapsed, first_pool(options, root, roots), root, tree),
        options.only_file || names_differ(root.children),
        root.depth == 0,
        if roots == 1 {
            is_leveled(root)
        } else {
            forall|i: int|
                0 <= i < root.children.len() ==> is_leveled(#[trigger] root.children[i])
                    && root.children[i].depth == 0
        },
    ensures
        no_deeper(
            tree,
            if options.only_file {
                1
            } else if roots == 1 {
                options.depth as int
            } else {
                options.depth + 1
            },
        ),
{
    let taken = lemma_run_of(options, keep_collapsed, root, roots, tree);
    let shown = shown_lines(options, taken);
    if options.only_file {
        lemma_shown_was_walked(options, keep_collapsed, root, roots, tree);
        lemma_flat_is_shallow(tree);
    } else if roots == 1 {
        lemma_rebuilt_depth(options, keep_collapsed, root, roots, taken, root);
    } else {
        assert forall|i: int| 0 <= i < tree.children.len() implies options.depth + 1 > 0 && no_deeper(
            #[trigger] tree.children[i],
            options.depth as int,
        ) by {
            let j = lemma_rebuilt_source(shown, root, i);
            let x = root.children[j];
            assert(root.children.contains(x));
            lemma_inside(root, root, x);
            lemma_not_inside_itself(root, x);
            lemma_rebuilt_depth(options, keep_collapsed, root, roots, taken, x);
        }
        assert(no_deeper(tree, options.depth + 1));
    }
}

proof fn lemma_rebuilt_depth(
    options: &AggregateData,
    keep_collapsed: Seq<PathBuf>,
    root: NodeView,
    roots: int,
    taken: Seq<NodeView>,
    node: NodeView,
)
    requires
        names_differ(root.children),
        is_run(options, keep_collapsed, first_pool(options, root, roots), taken),
        node == root || is_inside(node, root),
        node == root ==> roots == 1,
        is_leveled(node),
    ensures
        no_deeper(rebuilt(shown_lines(options, taken), node), options.depth - node.depth),
    decreases node,
{
    let shown = shown_lines(options, taken);
    let tree = rebuilt(shown, node);
    let levels: int = options.depth - node.depth;
    let left = levels - 1;
    assert forall|i: int| 0 <= i < tree.children.len() implies levels > 0 && no_deeper(
        #[trigger] tree.children[i],
        left,
    ) by {
        let j = lemma_rebuilt_source(shown, node, i);
        let x = node.children[j];
        assert(node.children.contains(x));
        lemma_shown_child(options, keep_collapsed, root, roots, taken, node, x);
        lemma_not_inside_itself(root, x);
        if x.children.len() > 0 {
            lemma_rebuilt_depth(options, keep_collapsed, root, roots, taken, x);
        } else {
            let d = rebuilt(shown, x);
            if d.children.len() > 0 {
                let k = lemma_rebuilt_source(shown, x, 0);
            }
            assert(no_deeper(d, left));
        }
    }
    if tree.children.len() > 0 {
        assert(no_deeper(tree.children[0], left));
    }
}

// --------------------------------------------------------------------------
// What is not kept out
// --------------------------------------------------------------------------

/// What was taken and takes a line is shown by its name.
proof fn lemma_taken_is_shown(options: &AggregateData, taken: Seq<NodeView>, x: NodeView)
    requires
        taken.contains(x),
        takes_line(options, x),
    ensures
        is_shown(shown_lines(options, taken), x.name),
    decreases taken.len(),
{
    let k = choose|k: int| 0 <= k < taken.len() && taken[k] == x;
    let before = shown_lines(options, taken.drop_last());
    let now = shown_lines(options, taken);
    let last = taken.last();
    if k < taken.len() - 1 {
        assert(taken.drop_last()[k] == x);
        lemma_taken_is_shown(options, taken.drop_last(), x);
        let a = choose|a: int|
            0 <= a < before.len() && identity_of((#[trigger] before[a]).name) == identity_of(
                x.name,
            );
        assert(identity_of(now[a].name) == identity_of(x.name));
    } else if is_shown(before, x.name) {
        let a = choose|a: int|
            0 <= a < before.len() && identity_of((#[trigger] before[a]).name) == identity_of(
                x.name,
            );
        assert(identity_of(now[a].name) == identity_of(x.name));
    } else {
        assert(now[before.len() as int] == x);
    }
}

/// What was taken, or is left to take, was found in the root or in what was taken.
proof fn lemma_directory_was_taken(
    options: &AggregateData,
    keep_collapsed: Seq<PathBuf>,
    root: NodeView,
    roots: int,
    taken: Seq<NodeView>,
)
    requires
        is_run(options, keep_collapsed, first_pool(options, root, roots), taken),
    ensures
        forall|x: NodeView| #[trigger]
            pool_after(
                options,
                keep_collapsed,
                first_pool(options, root, roots),
                taken,
            ).contains(x) ==> is_found(root, taken, x),
        forall|k: int| 0 <= k < taken.len() ==> is_found(root, taken, #[trigger] taken[k]),
    decreases taken.len(),
{
    let pool = first_pool(options, root, roots);
    let now = pool_after(options, keep_collapsed, pool, taken);
    if taken.len() == 0 {
        assert forall|x: NodeView| #[trigger] now.contains(x) implies is_found(root, taken, x) by {
            assert(pool.count(x) > 0);
            lemma_candidate_source(options, root.children, x);
            assert(holds(root, x));
        }
    } else {
        let before = taken.drop_last();
        let last = taken.last();
        let p = pool_after(options, keep_collapsed, pool, before);
        let more = opened(options, keep_collapsed, last);
        lemma_directory_was_taken(options, keep_collapsed, root, roots, before);
        lemma_open(options, keep_collapsed, last);
        assert(taken[taken.len() - 1] == last);
        assert forall|x: NodeView| is_found(root, before, x) implies #[trigger] is_found(
            root,
            taken,
            x,
        ) by {
            if !holds(root, x) {
                let y = choose|y: NodeView| before.contains(y) && #[trigger] holds(y, x);
                let k = choose|k: int| 0 <= k < before.len() && before[k] == y;
                assert(taken[k] == y);
            }
        }
        assert forall|x: NodeView| #[trigger] now.contains(x) implies is_found(root, taken, x) by {
            if more.contains(x) {
                assert(more.count(x) > 0);
                lemma_candidate_source(options, last.children, x);
                assert(holds(last, x));
            } else {
                assert(now.count(x) > 0);
                assert(p.count(x) > 0);
                assert(p.contains(x));
                assert(is_found(root, before, x));
            }
        }
        assert forall|k: int| 0 <= k < taken.len() implies is_found(
            root,
            taken,
            #[trigger] taken[k],
        ) by {
            if k < before.len() {
                assert(taken[k] == before[k]);
            } else {
                assert(p.contains(last));
            }
            assert(is_found(root, before, taken[k]));
        }
    }
}

spec fn holds(y: NodeView, x: NodeView) -> bool {
    y.children.contains(x)
}

spec fn is_found(root: NodeView, taken: Seq<NodeView>, x: NodeView) -> bool {
    holds(root, x) || exists|y: NodeView| taken.contains(y) && #[trigger] holds(y, x)
}

/// The directory of what is shown is shown, or is the root.
proof fn lemma_directory_is_shown(
    options: &AggregateData,
    keep_collapsed: Seq<PathBuf>,
    root: NodeView,
    roots: int,
    taken: Seq<NodeView>,
    y: NodeView,
    x: NodeView,
)
    requires
        !options.only_file,
        names_differ(root.children),
        is_run(options, keep_collapsed, first_pool(options, root, roots), taken),
        is_inside(y, root),
        y.children.contains(x),
        is_shown(shown_lines(options, taken), x.name),
    ensures
        is_shown(shown_lines(options, taken), y.name),
{
    lemma_shown_child(options, keep_collapsed, root, roots, taken, y, x);
    lemma_directory_was_taken(options, keep_collapsed, root, roots, taken);
    let k = choose|k: int| 0 <= k < taken.len() && taken[k] == x;
    assert(is_found(root, taken, taken[k]));
    assert(list_name_count(identity_of(x.name), root.children) <= 1);
    if holds(root, x) {
        lemma_same_parent_of_child(root, y, x);
    } else {
        let z = choose|z: NodeView| taken.contains(z) && #[trigger] holds(z, x);
        let m = choose|m: int| 0 <= m < taken.len() && taken[m] == z;
        lemma_taken_is_due(options, keep_collapsed, root, roots, taken);
        assert(is_due(options, keep_collapsed, root, roots, taken[m]));
        let u = choose|u: NodeView| #[trigger]
            opens(options, keep_collapsed, root, roots, u) && u.children.contains(z);
        lemma_inside(root, u, z);
        lemma_same_parent(root, y, z, x);
        lemma_taken_is_shown(options, taken, y);
    }
}

/// Above what is shown everything is.
proof fn lemma_above_is_shown(
    options: &AggregateData,
    keep_collapsed: Seq<PathBuf>,
    root: NodeView,
    roots: int,
    taken: Seq<NodeView>,
    y: NodeView,
    x: NodeView,
)
    requires
        !options.only_file,
        names_differ(root.children),
        is_run(options, keep_collapsed, first_pool(options, root, roots), taken),
        is_inside(y, root),
        is_inside(x, y),
        is_shown(shown_lines(options, taken), x.name),
    ensures
        is_shown(shown_lines(options, taken), y.name),
    decreases y,
{
    let i = choose|i: int|
        0 <= i < y.children.len() && (#[trigger] y.children[i] == x || is_inside(x, y.children[i]));
    let c = y.children[i];
    assert(y.children.contains(c));
    lemma_inside(root, y, c);
    if c != x {
        lemma_above_is_shown(options, keep_collapsed, root, roots, taken, c, x);
    }
    lemma_directory_is_shown(options, keep_collapsed, root, roots, taken, y, c);
}

proof fn lemma_name_source(key: Seq<ComponentView>, nodes: Seq<NodeView>) -> (r: (int, NodeView))
    requires
        list_name_count(key, nodes) > 0,
    ensures
        0 <= r.0 < nodes.len(),
        r.1 == nodes[r.0] || is_inside(r.1, nodes[r.0]),
        identity_of(r.1.name) == key,
    decreases nodes,
{
    let last = nodes.last();
    let n = nodes.len() - 1;
    if name_count(key, last) > 0 {
        if identity_of(last.name) == key {
            (n, last)
        } else {
            let (j, x) = lemma_name_source(key, last.children);
            assert(last.children[j] == x || is_inside(x, last.children[j]));
            (n, x)
        }
    } else {
        let (j, x) = lemma_name_source(key, nodes.drop_last());
        assert(nodes.drop_last()[j] == nodes[j]);
        (j, x)
    }
}

// --------------------------------------------------------------------------
// Lines
// --------------------------------------------------------------------------

proof fn lemma_lines_are_total(trees: Seq<DisplayNodeView>)
    ensures
        lines_of(trees) == total(trees, |d: DisplayNodeView| 1 + lines_below(d)),
    decreases trees.len(),
{
    if trees.len() > 0 {
        lemma_lines_are_total(trees.drop_last());
    }
}

/// Putting the greatest first changes no number of lines.
proof fn lemma_lines_of_sorted(trees: Seq<DisplayNodeView>)
    ensures
        lines_of(greatest_first(trees)) == lines_of(trees),
{
    lemma_sorted(trees);
    lemma_lines_are_total(trees);
    lemma_lines_are_total(greatest_first(trees));
    lemma_total_of_permutation(
        greatest_first(trees),
        trees,
        |d: DisplayNodeView| 1 + lines_below(d),
    );
}

/// How often the names of some nodes occur in trees together.
spec fn occurrences(shown: Seq<NodeView>, nodes: Seq<NodeView>) -> int {
    total(shown, |s: NodeView| list_name_count(identity_of(s.name), nodes))
}

spec fn is_named(s: NodeView, c: NodeView) -> int {
    if identity_of(s.name) == identity_of(c.name) {
        1
    } else {
        0
    }
}

spec fn name_matches(shown: Seq<NodeView>, c: NodeView) -> int {
    total(shown, |s: NodeView| is_named(s, c))
}

proof fn lemma_occurrences_split(shown: Seq<NodeView>, nodes: Seq<NodeView>)
    requires
        nodes.len() > 0,
    ensures
        occurrences(shown, nodes) == occurrences(shown, nodes.drop_last()) + name_matches(
            shown,
            nodes.last(),
        ) + occurrences(shown, nodes.last().children),
    decreases shown.len(),
{
    if shown.len() > 0 {
        lemma_occurrences_split(shown.drop_last(), nodes);
        let key = identity_of(shown.last().name);
        assert(list_name_count(key, nodes) == list_name_count(key, nodes.drop_last())
            + name_count(key, nodes.last()));
    }
}

proof fn lemma_no_occurrences(shown: Seq<NodeView>, nodes: Seq<NodeView>)
    requires
        forall|k: int|
            0 <= k < shown.len() ==> list_name_count(
                identity_of((#[trigger] shown[k]).name),
                nodes,
            ) == 0,
    ensures
        occurrences(shown, nodes) == 0,
    decreases shown.len(),
{
    if shown.len() > 0 {
        let rest = shown.drop_last();
        assert forall|k: int| 0 <= k < rest.len() implies list_name_count(
            identity_of((#[trigger] rest[k]).name),
            nodes,
        ) == 0 by {
            assert(rest[k] == shown[k]);
        }
        lemma_no_occurrences(rest, nodes);
        assert(shown[shown.len() - 1] == shown.last());
    }
}

proof fn lemma_each_occurs(shown: Seq<NodeView>, nodes: Seq<NodeView>)
    requires
        forall|k: int|
            0 <= k < shown.len() ==> list_name_count(
                identity_of((#[trigger] shown[k]).name),
                nodes,
            ) == 1,
    ensures
        occurrences(shown, nodes) == shown.len(),
    decreases shown.len(),
{
    if shown.len() > 0 {
        let rest = shown.drop_last();
        assert forall|k: int| 0 <= k < rest.len() implies list_name_count(
            identity_of((#[trigger] rest[k]).name),
            nodes,
        ) == 1 by {
            assert(rest[k] == shown[k]);
        }
        lemma_each_occurs(rest, nodes);
        assert(shown[shown.len() - 1] == shown.last());
    }
}

/// A node has the name of one of the shown nodes where it is shown, and else of
/// none.
proof fn lemma_name_matches(shown: Seq<NodeView>, c: NodeView)
    requires
        forall|i: int, j: int|
            0 <= i < j < shown.len() ==> identity_of((#[trigger] shown[i]).name) != identity_of(
                (#[trigger] shown[j]).name,
            ),
    ensures
        name_matches(shown, c) == (if is_shown(shown, c.name) {
            1int
        } else {
            0
        }),
    decreases shown.len(),
{
    if shown.len() > 0 {
        let rest = shown.drop_last();
        let n = shown.len() - 1;
        assert forall|i: int, j: int| 0 <= i < j < rest.len() implies identity_of(
            (#[trigger] rest[i]).name,
        ) != identity_of((#[trigger] rest[j]).name) by {
            assert(rest[i] == shown[i] && rest[j] == shown[j]);
        }
        lemma_name_matches(rest, c);
        if is_shown(rest, c.name) {
            let a = choose|a: int|
                0 <= a < rest.len() && identity_of((#[trigger] rest[a]).name) == identity_of(
                    c.name,
                );
            assert(rest[a] == shown[a]);
            assert(identity_of(shown[a].name) != identity_of(shown[n].name));
        } else {
            assert forall|a: int| 0 <= a < n implies identity_of((#[trigger] shown[a]).name)
                != identity_of(c.name) by {
                assert(rest[a] == shown[a]);
            }
        }
        assert(shown.last() == shown[n]);
    }
}

proof fn lemma_rebuilt_lines(
    options: &AggregateData,
    keep_collapsed: Seq<PathBuf>,
    root: NodeView,
    roots: int,
    taken: Seq<NodeView>,
    node: NodeView,
    n: int,
)
    requires
        !options.only_file,
        names_differ(root.children),
        is_run(options, keep_collapsed, first_pool(options, root, roots), taken),
        node == root || is_inside(node, root),
        0 <= n <= node.children.len(),
    ensures
        lines_of(rebuilt_children(shown_lines(options, taken), node, n)) == occurrences(
            shown_lines(options, taken),
            node.children.take(n),
        ),
    decreases node, n,
{
    let shown = shown_lines(options, taken);
    if n == 0 {
        lemma_no_occurrences(shown, node.children.take(0));
    } else {
        let c = node.children[n - 1];
        assert(node.children.contains(c));
        lemma_inside(root, node, c);
        lemma_rebuilt_lines(options, keep_collapsed, root, roots, taken, node, n - 1);
        assert(node.children.take(n).drop_last() =~= node.children.take(n - 1));
        assert(node.children.take(n).last() == c);
        lemma_occurrences_split(shown, node.children.take(n));
        lemma_shown_names_differ(options, taken);
        lemma_name_matches(shown, c);
        if is_shown(shown, c.name) {
            let m = c.children.len() as int;
            lemma_rebuilt_lines(options, keep_collapsed, root, roots, taken, c, m);
            assert(c.children.take(m) =~= c.children);
            lemma_lines_of_sorted(rebuilt_children(shown, c, m));
            let before = rebuilt_children(shown, node, n - 1);
            let now = before.push(rebuilt(shown, c));
            assert(now.drop_last() =~= before);
            assert(lines_below(rebuilt(shown, c)) == lines_of(rebuilt(shown, c).children));
            assert(lines_of(now) == lines_of(before) + 1 + lines_below(now.last()));
        } else {
            assert forall|k: int| 0 <= k < shown.len() implies list_name_count(
                identity_of((#[trigger] shown[k]).name),
                c.children,
            ) == 0 by {
                let key = identity_of(shown[k].name);
                lemma_list_name_count(key, c.children);
                if list_name_count(key, c.children) > 0 {
                    let (j, x) = lemma_name_source(key, c.children);
                    assert(c.children[j] == x || is_inside(x, c.children[j]));
                    assert(is_inside(x, c));
                    assert(is_shown(shown, x.name));
                    lemma_above_is_shown(options, keep_collapsed, root, roots, taken, c, x);
                }
            }
            lemma_no_occurrences(shown, c.children);
        }
    }
}

/// As many nodes are shown below the root as were picked.
proof fn lemma_lines_shown(
    options: &AggregateData,
    keep_collapsed: Seq<PathBuf>,
    root: NodeView,
    roots: int,
    taken: Seq<NodeView>,
)
    requires
        options.only_file || names_differ(root.children),
        is_run(options, keep_collapsed, first_pool(options, root, roots), taken),
    ensures
        lines_below(shown_tree(options, root, taken)) == shown_lines(options, taken).len(),
{
    let shown = shown_lines(options, taken);
    let tree = shown_tree(options, root, taken);
    if options.only_file {
        let s = shown.map_values(|n: NodeView| shown_leaf(n));
        lemma_lines_of_sorted(s);
        lemma_leaf_lines(shown);
    } else {
        let n = root.children.len() as int;
        lemma_rebuilt_lines(options, keep_collapsed, root, roots, taken, root, n);
        lemma_lines_of_sorted(rebuilt_children(shown, root, n));
        assert(root.children.take(n) =~= root.children);
        lemma_taken_is_due(options, keep_collapsed, root, roots, taken);
        assert forall|k: int| 0 <= k < shown.len() implies list_name_count(
            identity_of((#[trigger] shown[k]).name),
            root.children,
        ) == 1 by {
            let m = lemma_shown_was_taken(options, taken, k);
            let x = taken[m];
            assert(is_due(options, keep_collapsed, root, roots, x));
            let y = choose|y: NodeView| #[trigger]
                opens(options, keep_collapsed, root, roots, y) && y.children.contains(x);
            lemma_inside(root, y, x);
            lemma_named_inside(x, root);
            assert(list_name_count(identity_of(x.name), root.children) <= 1);
        }
        lemma_each_occurs(shown, root.children);
    }
}

proof fn lemma_leaf_lines(shown: Seq<NodeView>)
    ensures
        lines_of(shown.map_values(|n: NodeView| shown_leaf(n))) == shown.len(),
    decreases shown.len(),
{
    let f = |n: NodeView| shown_leaf(n);
    if shown.len() > 0 {
        lemma_leaf_lines(shown.drop_last());
        assert(shown.map_values(f).drop_last() =~= shown.drop_last().map_values(f));
        assert(shown.map_values(f).last() == shown_leaf(shown.last()));
        let leaf = shown_leaf(shown.last());
        assert(lines_of(leaf.children) == 0);
        assert(lines_below(leaf) == lines_of(leaf.children));
    }
}

/// No more nodes are shown below the root than there are lines.
pub proof fn lemma_lines_are_enough(
    options: &AggregateData,
    keep_collapsed: Seq<PathBuf>,
    root: NodeView,
    roots: int,
    tree: DisplayNodeView,
)
    requires
        shows(options, keep_collapsed, first_pool(options, root, roots), root, tree),
        options.only_file || names_differ(root.children),
    ensures
        lines_below(tree) <= options.number_of_lines,
{
    let taken = lemma_run_of(options, keep_collapsed, root, roots, tree);
    lemma_lines_kept(options, keep_collapsed, first_pool(options, root, roots), taken);
    lemma_lines_shown(options, keep_collapsed, root, roots, taken);
}

// --------------------------------------------------------------------------
// Nothing is missing
// --------------------------------------------------------------------------

/// A node of the pool leads to `x`.
spec fn leads_to(
    options: &AggregateData,
    keep_collapsed: Seq<PathBuf>,
    z: NodeView,
    x: NodeView,
) -> bool {
    z == x || (is_open(options, keep_collapsed, z) && is_reachable(options, keep_collapsed, z, x))
}

proof fn lemma_reachable_child(
    options: &AggregateData,
    keep_collapsed: Seq<PathBuf>,
    from: NodeView,
    x: NodeView,
) -> (c: NodeView)
    requires
        is_reachable(options, keep_collapsed, from, x),
    ensures
        from.children.contains(c),
        is_allowed(options, c),
        leads_to(options, keep_collapsed, c, x),
{
    let i = choose|i: int|
        0 <= i < from.children.len() && is_allowed(options, #[trigger] from.children[i]) && (
        from.children[i] == x || (is_open(options, keep_collapsed, from.children[i])
            && is_reachable(options, keep_collapsed, from.children[i], x)));
    assert(from.children[i] == from.children[i]);
    from.children[i]
}

/// What can be reached was taken, or can be reached from what is left to take.
proof fn lemma_reachable_is_left(
    options: &AggregateData,
    keep_collapsed: Seq<PathBuf>,
    root: NodeView,
    roots: int,
    taken: Seq<NodeView>,
    x: NodeView,
)
    requires
        is_run(options, keep_collapsed, first_pool(options, root, roots), taken),
        root_is_open(options, root, roots),
        is_reachable(options, keep_collapsed, root, x),
    ensures
        taken.contains(x) || exists|z: NodeView| #[trigger]
            pool_after(
                options,
                keep_collapsed,
                first_pool(options, root, roots),
                taken,
            ).contains(z) && leads_to(options, keep_collapsed, z, x),
    decreases taken.len(),
{
    let pool = first_pool(options, root, roots);
    let now = pool_after(options, keep_collapsed, pool, taken);
    if taken.len() == 0 {
        let c = lemma_reachable_child(options, keep_collapsed, root, x);
        lemma_candidate_source(options, root.children, c);
        assert(now.contains(c));
    } else {
        let before = taken.drop_last();
        let last = taken.last();
        let p = pool_after(options, keep_collapsed, pool, before);
        lemma_reachable_is_left(options, keep_collapsed, root, roots, before, x);
        if before.contains(x) {
            let k = choose|k: int| 0 <= k < before.len() && before[k] == x;
            assert(taken[k] == x);
        } else {
            let z = choose|z: NodeView| #[trigger]
                p.contains(z) && leads_to(options, keep_collapsed, z, x);
            if z != last {
                assert(p.count(z) > 0);
                assert(now.count(z) > 0);
                assert(now.contains(z));
            } else if last == x {
                assert(taken[taken.len() - 1] == x);
            } else {
                let c = lemma_reachable_child(options, keep_collapsed, last, x);
                lemma_open(options, keep_collapsed, last);
                lemma_candidate_source(options, last.children, c);
                assert(opened(options, keep_collapsed, last).count(c) > 0);
                assert(now.count(c) > 0);
                assert(now.contains(c));
            }
        }
    }
}

/// What can be reached is shown, or something on the way to it is not picked.
proof fn lemma_reached_or_missed(
    options: &AggregateData,
    keep_collapsed: Seq<PathBuf>,
    shown: Seq<NodeView>,
    from: NodeView,
    x: NodeView,
) -> (m: NodeView)
    requires
        is_reachable(options, keep_collapsed, from, x),
    ensures
        occurs(rebuilt(shown, from), x) || {
            &&& is_reachable(options, keep_collapsed, from, m)
            &&& !is_shown(shown, m.name)
            &&& m == x || is_inside(x, m)
        },
    decreases from,
{
    let c = lemma_reachable_child(options, keep_collapsed, from, x);
    let j = choose|j: int| 0 <= j < from.children.len() && from.children[j] == c;
    assert(from.children[j] == c);
    if !is_shown(shown, c.name) {
        if c != x {
            lemma_reachable_is_inside(options, keep_collapsed, c, x);
        }
        assert(is_reachable(options, keep_collapsed, from, c)) by {
            assert(from.children[j] == c && is_allowed(options, from.children[j]));
        }
        c
    } else {
        let i = lemma_rebuilt_target(shown, from, j);
        let tree = rebuilt(shown, from);
        assert(tree.children[i] == rebuilt(shown, c));
        if c == x {
            assert(copies(tree.children[i], x));
            x
        } else {
            let m = lemma_reached_or_missed(options, keep_collapsed, shown, c, x);
            if occurs(rebuilt(shown, c), x) {
                assert(occurs(tree.children[i], x));
            } else {
                assert(is_reachable(options, keep_collapsed, from, m)) by {
                    assert(is_allowed(options, from.children[j]));
                }
            }
            m
        }
    }
}

proof fn lemma_reachable_is_inside(
    options: &AggregateData,
    keep_collapsed: Seq<PathBuf>,
    from: NodeView,
    x: NodeView,
)
    requires
        is_reachable(options, keep_collapsed, from, x),
    ensures
        is_inside(x, from),
        is_allowed(options, x),
    decreases from,
{
    let i = choose|i: int|
        0 <= i < from.children.len() && is_allowed(options, #[trigger] from.children[i]) && (
        from.children[i] == x || (is_open(options, keep_collapsed, from.children[i])
            && is_reachable(options, keep_collapsed, from.children[i], x)));
    if from.children[i] != x {
        lemma_reachable_is_inside(options, keep_collapsed, from.children[i], x);
    }
}

/// A node that is reachable and takes a line is shown, or something on the way to
/// it was never taken.
proof fn lemma_shown_or_missed(
    options: &AggregateData,
    keep_collapsed: Seq<PathBuf>,
    root: NodeView,
    roots: int,
    taken: Seq<NodeView>,
    x: NodeView,
) -> (m: NodeView)
    requires
        names_differ(root.children),
        is_run(options, keep_collapsed, first_pool(options, root, roots), taken),
        is_reachable(options, keep_collapsed, root, x),
        options.only_file ==> x.children.len() == 0,
    ensures
        occurs(shown_tree(options, root, taken), x) || {
            &&& is_reachable(options, keep_collapsed, root, m)
            &&& !taken.contains(m)
            &&& m == x || is_inside(x, m)
        },
{
    let shown = shown_lines(options, taken);
    let tree = shown_tree(options, root, taken);
    if options.only_file {
        if taken.contains(x) {
            lemma_taken_is_shown(options, taken, x);
            let a = choose|a: int|
                0 <= a < shown.len() && identity_of((#[trigger] shown[a]).name) == identity_of(
                    x.name,
                );
            let k = lemma_shown_was_taken(options, taken, a);
            lemma_taken_is_due(options, keep_collapsed, root, roots, taken);
            assert(is_due(options, keep_collapsed, root, roots, taken[k]));
            let y = choose|y: NodeView| #[trigger]
                opens(options, keep_collapsed, root, roots, y) && y.children.contains(taken[k]);
            lemma_inside(root, y, taken[k]);
            lemma_reachable_is_inside(options, keep_collapsed, root, x);
            assert(list_name_count(identity_of(x.name), root.children) <= 1);
            lemma_same_name(root, x, taken[k]);
            let s = shown.map_values(|n: NodeView| shown_leaf(n));
            lemma_sorted(s);
            assert(s[a] == shown_leaf(x));
            assert(s.contains(shown_leaf(x)));
            assert(greatest_first(s).contains(shown_leaf(x)));
            let i = choose|i: int|
                0 <= i < greatest_first(s).len() && greatest_first(s)[i] == shown_leaf(x);
            assert(copies(tree.children[i], x));
        }
        x
    } else {
        let m = lemma_reached_or_missed(options, keep_collapsed, shown, root, x);
        if !occurs(tree, x) && taken.contains(m) {
            lemma_taken_is_shown(options, taken, m);
        }
        m
    }
}

/// While there are lines left, nothing is missing: everything that the options
/// allow is shown, if its directory is open. Where files are asked for alone, this
/// holds of what has nothing in it.
pub proof fn lemma_nothing_is_missing(
    options: &AggregateData,
    keep_collapsed: Seq<PathBuf>,
    root: NodeView,
    roots: int,
    tree: DisplayNodeView,
    x: NodeView,
)
    requires
        shows(options, keep_collapsed, first_pool(options, root, roots), root, tree),
        names_differ(root.children),
        lines_below(tree) < options.number_of_lines,
        root_is_open(options, root, roots),
        is_reachable(options, keep_collapsed, root, x),
        options.only_file ==> x.children.len() == 0,
    ensures
        occurs(tree, x),
{
    let taken = lemma_run_of(options, keep_collapsed, root, roots, tree);
    lemma_lines_shown(options, keep_collapsed, root, roots, taken);
    let m = lemma_shown_or_missed(options, keep_collapsed, root, roots, taken, x);
    if !occurs(tree, x) {
        lemma_reachable_is_left(options, keep_collapsed, root, roots, taken, m);
    }
}

proof fn lemma_capped_inside(node: NodeView, x: NodeView)
    requires
        tree_capped(node),
        is_inside(x, node),
    ensures
        x.size <= node.size,
        tree_capped(x),
    decreases node,
{
    let i = choose|i: int|
        0 <= i < node.children.len() && (#[trigger] node.children[i] == x || is_inside(
            x,
            node.children[i],
        ));
    if node.children[i] != x {
        lemma_capped_inside(node.children[i], x);
    }
}

/// The largest are shown: what the options allow and is not shown is no larger
/// than anything that is, and every line is taken. Nothing in the walked tree
/// measures more than what it lies in.
pub proof fn lemma_largest_come_first(
    options: &AggregateData,
    keep_collapsed: Seq<PathBuf>,
    root: NodeView,
    roots: int,
    tree: DisplayNodeView,
    x: NodeView,
)
    requires
        shows(options, keep_collapsed, first_pool(options, root, roots), root, tree),
        names_differ(root.children),
        forall|i: int| 0 <= i < root.children.len() ==> tree_capped(#[trigger] root.children[i]),
        root_is_open(options, root, roots),
        is_reachable(options, keep_collapsed, root, x),
        options.only_file ==> x.children.len() == 0,
        !occurs(tree, x),
    ensures
        lines_below(tree) == options.number_of_lines,
        all_below(tree, |d: DisplayNodeView| x.size <= d.size),
{
    if lines_below(tree) < options.number_of_lines {
        lemma_nothing_is_missing(options, keep_collapsed, root, roots, tree, x);
    }
    lemma_lines_are_enough(options, keep_collapsed, root, roots, tree);
    let pool = first_pool(options, root, roots);
    let taken = lemma_run_of(options, keep_collapsed, root, roots, tree);
    let shown = shown_lines(options, taken);
    let m = lemma_shown_or_missed(options, keep_collapsed, root, roots, taken, x);
    lemma_reachable_is_left(options, keep_collapsed, root, roots, taken, m);
    let z = choose|z: NodeView| #[trigger]
        pool_after(options, keep_collapsed, pool, taken).contains(z) && leads_to(
            options,
            keep_collapsed,
            z,
            m,
        );
    lemma_first_pool_capped(options, root, roots);
    let p = |d: DisplayNodeView| x.size <= d.size;
    assert forall|d: DisplayNodeView, s: NodeView|
        #![trigger copies(d, s)]
        copies(d, s) && is_allowed(options, s) && shown.contains(s) implies p(d) by {
        let a = choose|a: int| 0 <= a < shown.len() && shown[a] == s;
        lemma_largest_are_shown(options, keep_collapsed, pool, taken, z, a);
        if z != m {
            lemma_reachable_is_inside(options, keep_collapsed, z, m);
            lemma_capped_inside(z, m);
        }
        if m != x {
            lemma_capped_inside(m, x);
        }
    }
    lemma_shown_all(options, keep_collapsed, root, roots, taken, p);
}

// --------------------------------------------------------------------------
// Order
// --------------------------------------------------------------------------

/// Of any two nodes that are shown side by side the larger comes first, and of two
/// of one size the one whose name is greater.
pub open spec fn larger_first(tree: DisplayNodeView) -> bool
    decreases tree,
{
    &&& forall|i: int, j: int|
        0 <= i < j < tree.children.len() ==> {
            let (a, b) = (#[trigger] tree.children[i], #[trigger] tree.children[j]);
            a.size > b.size || (a.size == b.size && path_order(a.name, b.name) != Order::Less)
        }
    &&& forall|i: int|
        0 <= i < tree.children.len() ==> larger_first(#[trigger] tree.children[i])
}

proof fn lemma_rebuilt_is_sorted(shown: Seq<NodeView>, node: NodeView)
    ensures
        larger_first(rebuilt(shown, node)),
    decreases node,
{
    let tree = rebuilt(shown, node);
    lemma_sorted(rebuilt_children(shown, node, node.children.len() as int));
    assert forall|i: int| 0 <= i < tree.children.len() implies larger_first(
        #[trigger] tree.children[i],
    ) by {
        let j = lemma_rebuilt_source(shown, node, i);
        lemma_rebuilt_is_sorted(shown, node.children[j]);
    }
    assert forall|i: int, j: int| 0 <= i < j < tree.children.len() implies {
        let (a, b) = (#[trigger] tree.children[i], #[trigger] tree.children[j]);
        a.size > b.size || (a.size == b.size && path_order(a.name, b.name) != Order::Less)
    } by {
        assert(display_order(tree.children[i], tree.children[j]) != Order::Less);
    }
}

/// The larger comes first.
pub proof fn lemma_larger_come_first(
    options: &AggregateData,
    keep_collapsed: Seq<PathBuf>,
    root: NodeView,
    roots: int,
    tree: DisplayNodeView,
)
    requires
        shows(options, keep_collapsed, first_pool(options, root, roots), root, tree),
    ensures
        larger_first(tree),
{
    let taken = lemma_run_of(options, keep_collapsed, root, roots, tree);
    let shown = shown_lines(options, taken);
    if options.only_file {
        let s = shown.map_values(|n: NodeView| shown_leaf(n));
        lemma_sorted(s);
        assert forall|i: int| 0 <= i < tree.children.len() implies larger_first(
            #[trigger] tree.children[i],
        ) by {
            let k = lemma_flat_source(shown, root, i);
        }
        assert forall|i: int, j: int| 0 <= i < j < tree.children.len() implies {
            let (a, b) = (#[trigger] tree.children[i], #[trigger] tree.children[j]);
            a.size > b.size || (a.size == b.size && path_order(a.name, b.name) != Order::Less)
        } by {
            assert(display_order(tree.children[i], tree.children[j]) != Order::Less);
        }
    } else {
        lemma_rebuilt_is_sorted(shown, root);
    }
}

// --------------------------------------------------------------------------
// Several roots
// --------------------------------------------------------------------------

/// One root stands for itself. Several, or none, stand below a total: as many as
/// there are, each with its size and all that is in it, and with its name too
/// unless paths are shortened.
pub proof fn lemma_roots_stand_below_their_total(
    options: &AggregateData,
    by_filetime: Option<FileTime>,
    nodes: Seq<NodeView>,
    i: int,
)
    requires
        by_filetime is None ==> total_size(nodes) <= u64::MAX,
    ensures
        ({
            let root = overall_root(options, by_filetime, nodes);
            &&& nodes.len() == 1 ==> root == nodes[0]
            &&& nodes.len() != 1 ==> {
                &&& root.depth == 0
                &&& !root.is_file
                &&& root.children.len() == nodes.len()
                &&& !options.short_paths ==> root.children == nodes
                &&& 0 <= i < nodes.len() ==> root.children[i] == (NodeView {
                    name: root.children[i].name,
                    ..nodes[i]
                })
                &&& by_filetime is None ==> root.size == total_size(nodes)
            }
        }),
{
    lemma_only_names_change(nodes, 1);
    crate::sums::lemma_total_not_negative(nodes, |n: NodeView| n.size as int);
}

} // verus!
