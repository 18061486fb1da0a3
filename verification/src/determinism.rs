//! The shown tree does not depend on the order in which a walk found the children
//! of directories, where no two nodes have the same name.

use vstd::multiset::Multiset;
use vstd::prelude::*;

use crate::display_node::{
    display_order, greatest_first, lemma_display_order_total, DisplayNodeView,
};
use crate::filter::{
    candidates, candidates_below, first_pool, is_candidate, is_greatest, is_run, is_shown,
    kept_trees, lemma_candidates, lemma_kept_trees, lemma_run_prefix, opened, pool_after, rebuilt,
    run_ends, shown_leaf, shown_lines, shown_tree, shown_with, shows, takes_line, AggregateData,
};
use crate::node::{lemma_node_order_total, node_order, NodeView};
use crate::order::Order;
use crate::path::{identity_of, ComponentView, PathBuf, PathView};
use crate::sorting::lemma_descending_of_permutation;
use crate::utils::names_one_of;

verus! {

/// No two of the nodes have the same name.
pub open spec fn distinct_names(nodes: Seq<NodeView>) -> bool {
    forall|i: int, j: int|
        0 <= i < j < nodes.len() ==> identity_of((#[trigger] nodes[i]).name) != identity_of(
            (#[trigger] nodes[j]).name,
        )
}

/// Two trees differ at most in the order of children; no two children of a node
/// have the same name.
#[verifier::opaque]
pub open spec fn alike(a: NodeView, b: NodeView) -> bool
    decreases a, 0nat,
{
    &&& a.name == b.name
    &&& a.size == b.size
    &&& a.depth == b.depth
    &&& a.is_file == b.is_file
    &&& distinct_names(a.children)
    &&& distinct_names(b.children)
    &&& forall|i: int|
        0 <= i < a.children.len() ==> has_match(#[trigger] a.children[i], b.children)
    &&& forall|j: int|
        0 <= j < b.children.len() ==> is_matched(a.children, #[trigger] b.children[j])
}

/// A tree of the list is like `x`.
pub open spec fn has_match(x: NodeView, nodes: Seq<NodeView>) -> bool
    decreases x, 1nat,
{
    exists|j: int| 0 <= j < nodes.len() && alike(x, #[trigger] nodes[j])
}

/// `y` is like a tree of the list.
pub open spec fn is_matched(nodes: Seq<NodeView>, y: NodeView) -> bool
    decreases nodes, 0nat,
{
    exists|i: int| 0 <= i < nodes.len() && alike(#[trigger] nodes[i], y)
}

/// Trees that are alike agree in everything but their children.
proof fn lemma_alike(a: NodeView, b: NodeView)
    requires
        alike(a, b),
    ensures
        a.name == b.name,
        a.size == b.size,
        a.depth == b.depth,
        a.is_file == b.is_file,
        distinct_names(a.children),
        distinct_names(b.children),
{
    reveal(alike);
}

proof fn lemma_child_match(a: NodeView, b: NodeView, i: int) -> (j: int)
    requires
        alike(a, b),
        0 <= i < a.children.len(),
    ensures
        0 <= j < b.children.len(),
        alike(a.children[i], b.children[j]),
{
    reveal(alike);
    assert(has_match(a.children[i], b.children));
    choose|j: int| 0 <= j < b.children.len() && alike(a.children[i], #[trigger] b.children[j])
}

proof fn lemma_child_source(a: NodeView, b: NodeView, j: int) -> (i: int)
    requires
        alike(a, b),
        0 <= j < b.children.len(),
    ensures
        0 <= i < a.children.len(),
        alike(a.children[i], b.children[j]),
{
    reveal(alike);
    assert(is_matched(a.children, b.children[j]));
    choose|i: int| 0 <= i < a.children.len() && alike(#[trigger] a.children[i], b.children[j])
}

/// The trees of two pools differ at most in the order of children.
#[verifier::opaque]
pub open spec fn pools_alike(p: Multiset<NodeView>, q: Multiset<NodeView>) -> bool {
    &&& forall|x: NodeView| #[trigger]
        p.contains(x) ==> exists|y: NodeView| #[trigger] q.contains(y) && alike(x, y)
    &&& forall|y: NodeView| #[trigger]
        q.contains(y) ==> exists|x: NodeView| #[trigger] p.contains(x) && alike(x, y)
}

proof fn lemma_pool_match(p: Multiset<NodeView>, q: Multiset<NodeView>, x: NodeView) -> (y: NodeView)
    requires
        pools_alike(p, q),
        p.contains(x),
    ensures
        q.contains(y),
        alike(x, y),
{
    reveal(pools_alike);
    choose|y: NodeView| #[trigger] q.contains(y) && alike(x, y)
}

proof fn lemma_pool_source(p: Multiset<NodeView>, q: Multiset<NodeView>, y: NodeView) -> (x:
    NodeView)
    requires
        pools_alike(p, q),
        q.contains(y),
    ensures
        p.contains(x),
        alike(x, y),
{
    reveal(pools_alike);
    choose|x: NodeView| #[trigger] p.contains(x) && alike(x, y)
}

/// No two nodes of a pool have the same name.
pub open spec fn pool_distinct(p: Multiset<NodeView>) -> bool {
    &&& forall|x: NodeView, y: NodeView|
        #![trigger p.contains(x), p.contains(y)]
        p.contains(x) && p.contains(y) && identity_of(x.name) == identity_of(y.name) ==> x == y
    &&& forall|x: NodeView| #[trigger] p.count(x) <= 1
}

proof fn lemma_candidates_alike(display_data: &AggregateData, a: NodeView, b: NodeView)
    requires
        alike(a, b),
    ensures
        pools_alike(
            candidates(display_data, a.children),
            candidates(display_data, b.children),
        ),
{
    let (s, t) = (a.children, b.children);
    let (p, q) = (candidates(display_data, s), candidates(display_data, t));
    lemma_candidates(display_data, s);
    lemma_candidates(display_data, t);
    s.to_multiset_ensures();
    t.to_multiset_ensures();
    assert forall|x: NodeView| #[trigger] p.contains(x) implies exists|y: NodeView| #[trigger]
        q.contains(y) && alike(x, y) by {
        assert(p.count(x) > 0);
        assert(s.to_multiset().count(x) > 0);
        assert(s.contains(x));
        let i = choose|i: int| 0 <= i < s.len() && s[i] == x;
        let j = lemma_child_match(a, b, i);
        lemma_alike(x, t[j]);
        assert(t.contains(t[j]));
        assert(t.to_multiset().count(t[j]) > 0);
        assert(is_candidate(display_data, t[j]));
        assert(q.count(t[j]) > 0);
        assert(q.contains(t[j]) && alike(x, t[j]));
    }
    assert forall|y: NodeView| #[trigger] q.contains(y) implies exists|x: NodeView| #[trigger]
        p.contains(x) && alike(x, y) by {
        assert(q.count(y) > 0);
        assert(t.to_multiset().count(y) > 0);
        assert(t.contains(y));
        let j = choose|j: int| 0 <= j < t.len() && t[j] == y;
        let i = lemma_child_source(a, b, j);
        lemma_alike(s[i], y);
        assert(s.contains(s[i]));
        assert(s.to_multiset().count(s[i]) > 0);
        assert(is_candidate(display_data, s[i]));
        assert(p.count(s[i]) > 0);
        assert(p.contains(s[i]) && alike(s[i], y));
    }
    reveal(pools_alike);
}

proof fn lemma_empty_alike()
    ensures
        pools_alike(Multiset::<NodeView>::empty(), Multiset::<NodeView>::empty()),
{
    reveal(pools_alike);
}

proof fn lemma_opened_alike(
    display_data: &AggregateData,
    keep_collapsed: Seq<PathBuf>,
    a: NodeView,
    b: NodeView,
)
    requires
        alike(a, b),
    ensures
        pools_alike(
            opened(display_data, keep_collapsed, a),
            opened(display_data, keep_collapsed, b),
        ),
        pools_alike(candidates_below(display_data, a), candidates_below(display_data, b)),
{
    lemma_alike(a, b);
    lemma_candidates_alike(display_data, a, b);
    lemma_empty_alike();
}

/// The greatest nodes of two such pools are alike.
proof fn lemma_greatest_alike(
    p: Multiset<NodeView>,
    q: Multiset<NodeView>,
    x: NodeView,
    y: NodeView,
)
    requires
        pools_alike(p, q),
        pool_distinct(p),
        is_greatest(p, x),
        is_greatest(q, y),
    ensures
        alike(x, y),
{
    let v = lemma_pool_match(p, q, x);
    let u = lemma_pool_source(p, q, y);
    lemma_alike(x, v);
    lemma_alike(u, y);
    assert(node_order(x, u) != Order::Less);
    assert(node_order(y, v) != Order::Less);
    assert(node_order(u, x) == node_order(y, v));
    lemma_node_order_total(x, u, x);
    assert(node_order(x, u) == Order::Same);
    assert(x == u);
}

proof fn lemma_step_alike(
    p: Multiset<NodeView>,
    q: Multiset<NodeView>,
    x: NodeView,
    y: NodeView,
    more_p: Multiset<NodeView>,
    more_q: Multiset<NodeView>,
)
    requires
        pools_alike(p, q),
        pool_distinct(p),
        pool_distinct(q),
        p.contains(x),
        q.contains(y),
        alike(x, y),
        pools_alike(more_p, more_q),
    ensures
        pools_alike(p.remove(x).add(more_p), q.remove(y).add(more_q)),
{
    let (pp, qq) = (p.remove(x).add(more_p), q.remove(y).add(more_q));
    assert forall|z: NodeView| #[trigger] pp.contains(z) implies exists|w: NodeView| #[trigger]
        qq.contains(w) && alike(z, w) by {
        if more_p.contains(z) {
            let w = lemma_pool_match(more_p, more_q, z);
            assert(qq.contains(w));
        } else {
            assert(p.count(z) > 0);
            assert(p.contains(z));
            assert(z != x) by {
                assert(p.count(x) <= 1);
            }
            let w = lemma_pool_match(p, q, z);
            assert(w != y) by {
                if w == y {
                    lemma_alike(z, y);
                    lemma_alike(x, y);
                    assert(identity_of(z.name) == identity_of(x.name));
                }
            }
            assert(qq.count(w) > 0);
            assert(qq.contains(w));
        }
    }
    assert forall|w: NodeView| #[trigger] qq.contains(w) implies exists|z: NodeView| #[trigger]
        pp.contains(z) && alike(z, w) by {
        if more_q.contains(w) {
            let z = lemma_pool_source(more_p, more_q, w);
            assert(pp.contains(z));
        } else {
            assert(q.count(w) > 0);
            assert(q.contains(w));
            assert(w != y) by {
                assert(q.count(y) <= 1);
            }
            let z = lemma_pool_source(p, q, w);
            assert(z != x) by {
                if z == x {
                    lemma_alike(x, w);
                    lemma_alike(x, y);
                    assert(identity_of(w.name) == identity_of(y.name));
                }
            }
            assert(pp.count(z) > 0);
            assert(pp.contains(z));
        }
    }
    reveal(pools_alike);
}

/// Two lists of nodes agree in what is shown of the nodes by themselves.
pub open spec fn lists_agree(s: Seq<NodeView>, t: Seq<NodeView>) -> bool {
    &&& s.len() == t.len()
    &&& forall|i: int| 0 <= i < s.len() ==> shown_leaf(#[trigger] s[i]) == shown_leaf(t[i])
}

proof fn lemma_names_agree(s: Seq<NodeView>, t: Seq<NodeView>, name: PathView)
    requires
        lists_agree(s, t),
    ensures
        is_shown(s, name) == is_shown(t, name),
{
    if is_shown(s, name) {
        let i = choose|i: int|
            0 <= i < s.len() && identity_of((#[trigger] s[i]).name) == identity_of(name);
        assert(shown_leaf(s[i]) == shown_leaf(t[i]));
        assert(identity_of(t[i].name) == identity_of(name));
    }
    if is_shown(t, name) {
        let i = choose|i: int|
            0 <= i < t.len() && identity_of((#[trigger] t[i]).name) == identity_of(name);
        assert(shown_leaf(s[i]) == shown_leaf(t[i]));
        assert(identity_of(s[i].name) == identity_of(name));
    }
}

proof fn lemma_shown_with_agrees(s: Seq<NodeView>, t: Seq<NodeView>, x: NodeView, y: NodeView)
    requires
        lists_agree(s, t),
        alike(x, y),
    ensures
        lists_agree(shown_with(s, x), shown_with(t, y)),
{
    lemma_alike(x, y);
    lemma_names_agree(s, t, x.name);
    let (u, v) = (shown_with(s, x), shown_with(t, y));
    assert forall|i: int| 0 <= i < u.len() implies shown_leaf(#[trigger] u[i]) == shown_leaf(v[i]) by {
        if i < s.len() {
            assert(shown_leaf(s[i]) == shown_leaf(t[i]));
        }
    }
}

proof fn lemma_takes_line_agrees(display_data: &AggregateData, x: NodeView, y: NodeView)
    requires
        alike(x, y),
    ensures
        takes_line(display_data, x) == takes_line(display_data, y),
{
    if x.children.len() > 0 {
        let j = lemma_child_match(x, y, 0);
    }
    if y.children.len() > 0 {
        let i = lemma_child_source(x, y, 0);
    }
}

/// What the first `n` steps of two runs keep.
spec fn steps_agree(
    display_data: &AggregateData,
    keep_collapsed: Seq<PathBuf>,
    p: Multiset<NodeView>,
    q: Multiset<NodeView>,
    taken: Seq<NodeView>,
    other: Seq<NodeView>,
) -> bool {
    &&& pools_alike(
        pool_after(display_data, keep_collapsed, p, taken),
        pool_after(display_data, keep_collapsed, q, other),
    )
    &&& lists_agree(shown_lines(display_data, taken), shown_lines(display_data, other))
}

/// At every step of a run, no two nodes that are left have the same name.
pub open spec fn run_distinct(
    display_data: &AggregateData,
    keep_collapsed: Seq<PathBuf>,
    pool: Multiset<NodeView>,
    taken: Seq<NodeView>,
) -> bool {
    forall|k: int|
        0 <= k < taken.len() ==> pool_distinct(
            #[trigger] pool_after(display_data, keep_collapsed, pool, taken.take(k)),
        )
}

proof fn lemma_steps_agree(
    display_data: &AggregateData,
    keep_collapsed: Seq<PathBuf>,
    p: Multiset<NodeView>,
    q: Multiset<NodeView>,
    taken: Seq<NodeView>,
    other: Seq<NodeView>,
    n: int,
)
    requires
        pools_alike(p, q),
        is_run(display_data, keep_collapsed, p, taken),
        is_run(display_data, keep_collapsed, q, other),
        run_distinct(display_data, keep_collapsed, p, taken),
        run_distinct(display_data, keep_collapsed, q, other),
        0 <= n <= taken.len(),
        n <= other.len(),
    ensures
        steps_agree(display_data, keep_collapsed, p, q, taken.take(n), other.take(n)),
    decreases n,
{
    if n > 0 {
        lemma_steps_agree(display_data, keep_collapsed, p, q, taken, other, n - 1);
        lemma_run_prefix(display_data, keep_collapsed, p, taken, n);
        lemma_run_prefix(display_data, keep_collapsed, q, other, n);
        let (s, t) = (taken.take(n - 1), other.take(n - 1));
        assert(taken.take(n).drop_last() =~= s);
        assert(other.take(n).drop_last() =~= t);
        let (x, y) = (taken[n - 1], other[n - 1]);
        assert(taken.take(n).last() == x);
        assert(other.take(n).last() == y);
        let pp = pool_after(display_data, keep_collapsed, p, s);
        let qq = pool_after(display_data, keep_collapsed, q, t);
        lemma_greatest_alike(pp, qq, x, y);
        lemma_opened_alike(display_data, keep_collapsed, x, y);
        lemma_step_alike(
            pp,
            qq,
            x,
            y,
            opened(display_data, keep_collapsed, x),
            opened(display_data, keep_collapsed, y),
        );
        lemma_takes_line_agrees(display_data, x, y);
        lemma_shown_with_agrees(
            shown_lines(display_data, s),
            shown_lines(display_data, t),
            x,
            y,
        );
    } else {
        assert(taken.take(0).len() == 0 && other.take(0).len() == 0);
    }
}

/// Two such runs end after the same number of steps.
proof fn lemma_runs_end_together(
    display_data: &AggregateData,
    keep_collapsed: Seq<PathBuf>,
    p: Multiset<NodeView>,
    q: Multiset<NodeView>,
    taken: Seq<NodeView>,
    other: Seq<NodeView>,
)
    requires
        pools_alike(p, q),
        is_run(display_data, keep_collapsed, p, taken),
        is_run(display_data, keep_collapsed, q, other),
        run_ends(display_data, keep_collapsed, p, taken),
        run_ends(display_data, keep_collapsed, q, other),
        run_distinct(display_data, keep_collapsed, p, taken),
        run_distinct(display_data, keep_collapsed, q, other),
    ensures
        lists_agree(shown_lines(display_data, taken), shown_lines(display_data, other)),
{
    let n = if taken.len() < other.len() {
        taken.len() as int
    } else {
        other.len() as int
    };
    lemma_steps_agree(display_data, keep_collapsed, p, q, taken, other, n);
    let (s, t) = (taken.take(n), other.take(n));
    let pp = pool_after(display_data, keep_collapsed, p, s);
    let qq = pool_after(display_data, keep_collapsed, q, t);
    if taken.len() < other.len() {
        assert(s =~= taken);
        lemma_run_prefix(display_data, keep_collapsed, q, other, n + 1);
        assert(other.take(n + 1).drop_last() =~= t);
        let y = other.take(n + 1).last();
        assert(qq.contains(y));
        let x = lemma_pool_source(pp, qq, y);
        assert(pp.contains(x));
        assert(!Multiset::<NodeView>::empty().contains(x));
    } else if other.len() < taken.len() {
        assert(t =~= other);
        lemma_run_prefix(display_data, keep_collapsed, p, taken, n + 1);
        assert(taken.take(n + 1).drop_last() =~= s);
        let x = taken.take(n + 1).last();
        assert(pp.contains(x));
        let y = lemma_pool_match(pp, qq, x);
        assert(qq.contains(y));
        assert(!Multiset::<NodeView>::empty().contains(y));
    } else {
        assert(s =~= taken);
        assert(t =~= other);
    }
}

/// Where a tree of the list of kept trees comes from.
proof fn lemma_kept_members(shown: Seq<NodeView>, nodes: Seq<NodeView>)
    requires
        distinct_names(nodes),
    ensures
        kept_trees(shown, nodes).no_duplicates(),
        forall|v: DisplayNodeView| #[trigger]
            kept_trees(shown, nodes).contains(v) <==> exists|i: int|
                0 <= i < nodes.len() && is_shown(shown, (#[trigger] nodes[i]).name) && v == rebuilt(
                    shown,
                    nodes[i],
                ),
    decreases nodes.len(),
{
    let now = kept_trees(shown, nodes);
    if nodes.len() > 0 {
        let rest = nodes.drop_last();
        let x = nodes.last();
        assert(nodes[nodes.len() - 1] == x);
        assert forall|i: int, j: int| 0 <= i < j < rest.len() implies identity_of(
            (#[trigger] rest[i]).name,
        ) != identity_of((#[trigger] rest[j]).name) by {
            assert(rest[i] == nodes[i] && rest[j] == nodes[j]);
        }
        lemma_kept_members(shown, rest);
        let before = kept_trees(shown, rest);
        let kept = is_shown(shown, x.name);
        let tree = rebuilt(shown, x);
        if kept {
            assert(now == before.push(tree));
            assert(!before.contains(tree)) by {
                if before.contains(tree) {
                    let i = choose|i: int|
                        0 <= i < rest.len() && is_shown(shown, (#[trigger] rest[i]).name) && tree
                            == rebuilt(shown, rest[i]);
                    assert(tree.name == rest[i].name);
                    assert(rest[i] == nodes[i]);
                    assert(identity_of(nodes[i].name) != identity_of(
                        nodes[nodes.len() - 1].name,
                    ));
                }
            }
            assert forall|i: int, j: int|
                0 <= i < now.len() && 0 <= j < now.len() && i != j implies now[i] != now[j] by {
                if i < before.len() && j < before.len() {
                    assert(now[i] == before[i] && now[j] == before[j]);
                } else if i < before.len() {
                    assert(before.contains(before[i]));
                } else {
                    assert(before.contains(before[j]));
                }
            }
        }
        assert forall|v: DisplayNodeView| #[trigger] now.contains(v) implies exists|i: int|
            0 <= i < nodes.len() && is_shown(shown, (#[trigger] nodes[i]).name) && v == rebuilt(
                shown,
                nodes[i],
            ) by {
            if before.contains(v) {
                let i = choose|i: int|
                    0 <= i < rest.len() && is_shown(shown, (#[trigger] rest[i]).name) && v
                        == rebuilt(shown, rest[i]);
                assert(nodes[i] == rest[i]);
            } else {
                let k = choose|k: int| 0 <= k < now.len() && now[k] == v;
                if k < before.len() {
                    assert(before[k] == v);
                    assert(before.contains(v));
                }
                assert(v == tree && kept);
                assert(is_shown(shown, nodes[nodes.len() - 1].name));
            }
        }
        assert forall|v: DisplayNodeView| (exists|i: int|
            0 <= i < nodes.len() && is_shown(shown, (#[trigger] nodes[i]).name) && v == rebuilt(
                shown,
                nodes[i],
            )) implies #[trigger] now.contains(v) by {
            let i = choose|i: int|
                0 <= i < nodes.len() && is_shown(shown, (#[trigger] nodes[i]).name) && v == rebuilt(
                    shown,
                    nodes[i],
                );
            if i < rest.len() {
                assert(rest[i] == nodes[i]);
                assert(before.contains(v));
                let k = choose|k: int| 0 <= k < before.len() && before[k] == v;
                assert(now[k] == v);
            } else {
                assert(now[now.len() - 1] == tree);
            }
        }
    } else {
        assert forall|v: DisplayNodeView| !now.contains(v) by {}
    }
}

proof fn lemma_same_members<T>(s: Seq<T>, t: Seq<T>)
    requires
        s.no_duplicates(),
        t.no_duplicates(),
        forall|v: T| #[trigger] s.contains(v) <==> t.contains(v),
    ensures
        s.to_multiset() == t.to_multiset(),
{
    s.to_multiset_ensures();
    t.to_multiset_ensures();
    s.lemma_multiset_has_no_duplicates();
    t.lemma_multiset_has_no_duplicates();
    assert forall|v: T| #[trigger] s.to_multiset().count(v) == t.to_multiset().count(v) by {
        assert(s.contains(v) <==> s.to_multiset().count(v) > 0);
        assert(t.contains(v) <==> t.to_multiset().count(v) > 0);
        if s.contains(v) {
            assert(s.to_multiset().contains(v));
            assert(t.to_multiset().contains(v));
        }
    }
    assert(s.to_multiset() =~= t.to_multiset());
}

proof fn lemma_kept_source(shown: Seq<NodeView>, nodes: Seq<NodeView>, v: DisplayNodeView) -> (i:
    int)
    requires
        distinct_names(nodes),
        kept_trees(shown, nodes).contains(v),
    ensures
        0 <= i < nodes.len(),
        is_shown(shown, nodes[i].name),
        v == rebuilt(shown, nodes[i]),
{
    lemma_kept_members(shown, nodes);
    choose|i: int|
        0 <= i < nodes.len() && is_shown(shown, (#[trigger] nodes[i]).name) && v == rebuilt(
            shown,
            nodes[i],
        )
}

proof fn lemma_kept_contains(shown: Seq<NodeView>, nodes: Seq<NodeView>, i: int)
    requires
        distinct_names(nodes),
        0 <= i < nodes.len(),
        is_shown(shown, nodes[i].name),
    ensures
        kept_trees(shown, nodes).contains(rebuilt(shown, nodes[i])),
{
    lemma_kept_members(shown, nodes);
    assert(is_shown(shown, nodes[i].name) && rebuilt(shown, nodes[i]) == rebuilt(shown, nodes[i]));
}

proof fn lemma_kept_no_duplicates(shown: Seq<NodeView>, nodes: Seq<NodeView>)
    requires
        distinct_names(nodes),
    ensures
        kept_trees(shown, nodes).no_duplicates(),
{
    lemma_kept_members(shown, nodes);
}

proof fn lemma_kept_no_ties(
    shown: Seq<NodeView>,
    nodes: Seq<NodeView>,
    c: DisplayNodeView,
    d: DisplayNodeView,
)
    requires
        distinct_names(nodes),
        kept_trees(shown, nodes).contains(c),
        kept_trees(shown, nodes).contains(d),
        display_order(c, d) == Order::Same,
    ensures
        c == d,
{
    let i = lemma_kept_source(shown, nodes, c);
    let j = lemma_kept_source(shown, nodes, d);
    assert(c.name == nodes[i].name && c.size == nodes[i].size);
    assert(d.name == nodes[j].name && d.size == nodes[j].size);
    lemma_node_order_total(nodes[i], nodes[j], nodes[i]);
    assert(node_order(nodes[i], nodes[j]) == Order::Same);
    assert(identity_of(nodes[i].name) == identity_of(nodes[j].name));
    assert(i == j);
}

proof fn lemma_sorted_alike(
    s: Seq<NodeView>,
    t: Seq<NodeView>,
    x: Seq<NodeView>,
    y: Seq<NodeView>,
)
    requires
        distinct_names(x),
        distinct_names(y),
        forall|d: DisplayNodeView| #[trigger]
            kept_trees(s, x).contains(d) <==> kept_trees(t, y).contains(d),
    ensures
        greatest_first(kept_trees(s, x)) == greatest_first(kept_trees(t, y)),
{
    let (u, v) = (kept_trees(s, x), kept_trees(t, y));
    lemma_kept_no_duplicates(s, x);
    lemma_kept_no_duplicates(t, y);
    lemma_same_members(u, v);
    let f = |c: DisplayNodeView, d: DisplayNodeView| display_order(c, d);
    assert forall|c: DisplayNodeView, d: DisplayNodeView|
        u.contains(c) && u.contains(d) && #[trigger] f(c, d) == Order::Same implies c == d by {
        lemma_kept_no_ties(s, x, c, d);
    }
    lemma_display_order_total();
    lemma_descending_of_permutation(u, v, f);
}

/// Trees that differ at most in the order of children are shown alike.
proof fn lemma_rebuilt_alike(s: Seq<NodeView>, t: Seq<NodeView>, a: NodeView, b: NodeView)
    requires
        alike(a, b),
        lists_agree(s, t),
    ensures
        rebuilt(s, a) == rebuilt(t, b),
    decreases a,
{
    lemma_alike(a, b);
    let (x, y) = (a.children, b.children);
    let (n, m) = (x.len() as int, y.len() as int);
    lemma_kept_trees(s, a, n);
    lemma_kept_trees(t, b, m);
    assert(x.take(n) =~= x);
    assert(y.take(m) =~= y);
    let (u, v) = (kept_trees(s, x), kept_trees(t, y));
    assert forall|d: DisplayNodeView| #[trigger] u.contains(d) <==> v.contains(d) by {
        if u.contains(d) {
            let i = lemma_kept_source(s, x, d);
            let j = lemma_child_match(a, b, i);
            lemma_alike(x[i], y[j]);
            lemma_rebuilt_alike(s, t, x[i], y[j]);
            lemma_names_agree(s, t, y[j].name);
            lemma_kept_contains(t, y, j);
        }
        if v.contains(d) {
            let j = lemma_kept_source(t, y, d);
            let i = lemma_child_source(a, b, j);
            lemma_alike(x[i], y[j]);
            lemma_rebuilt_alike(s, t, x[i], y[j]);
            lemma_names_agree(s, t, x[i].name);
            lemma_kept_contains(s, x, i);
        }
    }
    lemma_sorted_alike(s, t, x, y);
}

/// What is shown does not depend on the order in which a walk found the
/// children of directories: two trees that differ in nothing else are shown
/// alike, where no two nodes that are left to show have the same name.
pub proof fn lemma_shown_tree_is_independent_of_order(
    display_data: &AggregateData,
    keep_collapsed: Seq<PathBuf>,
    roots: int,
    a: NodeView,
    b: NodeView,
    taken: Seq<NodeView>,
    other: Seq<NodeView>,
)
    requires
        alike(a, b),
        is_run(display_data, keep_collapsed, first_pool(display_data, a, roots), taken),
        run_ends(display_data, keep_collapsed, first_pool(display_data, a, roots), taken),
        run_distinct(display_data, keep_collapsed, first_pool(display_data, a, roots), taken),
        is_run(display_data, keep_collapsed, first_pool(display_data, b, roots), other),
        run_ends(display_data, keep_collapsed, first_pool(display_data, b, roots), other),
        run_distinct(display_data, keep_collapsed, first_pool(display_data, b, roots), other),
    ensures
        shown_tree(display_data, a, taken) == shown_tree(display_data, b, other),
{
    let (p, q) = (first_pool(display_data, a, roots), first_pool(display_data, b, roots));
    lemma_candidates_alike(display_data, a, b);
    lemma_opened_alike(display_data, keep_collapsed, a, b);
    lemma_runs_end_together(display_data, keep_collapsed, p, q, taken, other);
    lemma_alike(a, b);
    let (s, t) = (shown_lines(display_data, taken), shown_lines(display_data, other));
    if display_data.only_file {
        let leaf = |n: NodeView| shown_leaf(n);
        assert(s.map_values(leaf) =~= t.map_values(leaf)) by {
            assert forall|i: int| 0 <= i < s.len() implies s.map_values(leaf)[i] == t.map_values(
                leaf,
            )[i] by {
                assert(shown_leaf(s[i]) == shown_leaf(t[i]));
            }
        }
    } else {
        lemma_rebuilt_alike(s, t, a, b);
    }
}

// --------------------------------------------------------------------------
// Distinct names
// --------------------------------------------------------------------------

/// How often a path is the name of a node of a tree.
pub open spec fn name_count(key: Seq<ComponentView>, node: NodeView) -> int
    decreases node, 1nat,
{
    (if identity_of(node.name) == key {
        1int
    } else {
        0
    }) + list_name_count(key, node.children)
}

/// How often a path is the name of a node of a list of trees.
pub open spec fn list_name_count(key: Seq<ComponentView>, nodes: Seq<NodeView>) -> int
    decreases nodes, 0nat,
{
    if nodes.len() == 0 {
        0
    } else {
        list_name_count(key, nodes.drop_last()) + name_count(key, nodes.last())
    }
}

/// No two nodes of these trees have the same name.
pub open spec fn names_differ(nodes: Seq<NodeView>) -> bool {
    forall|key: Seq<ComponentView>| #[trigger] list_name_count(key, nodes) <= 1
}

pub(crate) proof fn lemma_name_count(key: Seq<ComponentView>, node: NodeView)
    ensures
        0 <= name_count(key, node),
        0 <= list_name_count(key, node.children) <= name_count(key, node),
        identity_of(node.name) == key ==> 1 <= name_count(key, node),
    decreases node, 1nat,
{
    lemma_list_name_count(key, node.children);
}

pub(crate) proof fn lemma_list_name_count(key: Seq<ComponentView>, nodes: Seq<NodeView>)
    ensures
        0 <= list_name_count(key, nodes),
    decreases nodes, 0nat,
{
    if nodes.len() > 0 {
        lemma_list_name_count(key, nodes.drop_last());
        lemma_name_count(key, nodes.last());
    }
}

proof fn lemma_name_count_append(key: Seq<ComponentView>, s: Seq<NodeView>, t: Seq<NodeView>)
    ensures
        list_name_count(key, s + t) == list_name_count(key, s) + list_name_count(key, t),
    decreases t.len(),
{
    if t.len() == 0 {
        assert(s + t =~= s);
    } else {
        assert((s + t).drop_last() =~= s + t.drop_last());
        lemma_name_count_append(key, s, t.drop_last());
    }
}

pub(crate) proof fn lemma_name_count_remove(key: Seq<ComponentView>, s: Seq<NodeView>, i: int)
    requires
        0 <= i < s.len(),
    ensures
        list_name_count(key, s.remove(i)) == list_name_count(key, s) - name_count(key, s[i]),
    decreases s.len(),
{
    if i == s.len() - 1 {
        assert(s.remove(i) =~= s.drop_last());
    } else {
        assert(s.remove(i).drop_last() =~= s.drop_last().remove(i));
        lemma_name_count_remove(key, s.drop_last(), i);
    }
}

/// Two places of a list count for the names at both.
proof fn lemma_two_names(key: Seq<ComponentView>, s: Seq<NodeView>, i: int, j: int)
    requires
        0 <= i < j < s.len(),
        identity_of(s[i].name) == key,
        identity_of(s[j].name) == key,
    ensures
        list_name_count(key, s) >= 2,
{
    lemma_name_count_remove(key, s, j);
    let rest = s.remove(j);
    assert(rest[i] == s[i]);
    lemma_name_count_remove(key, rest, i);
    lemma_list_name_count(key, rest.remove(i));
    lemma_name_count(key, s[i]);
    lemma_name_count(key, s[j]);
}

/// Those of a list of nodes that can be shown, in their order.
spec fn candidate_list(display_data: &AggregateData, nodes: Seq<NodeView>) -> Seq<NodeView>
    decreases nodes.len(),
{
    if nodes.len() == 0 {
        Seq::empty()
    } else {
        let before = candidate_list(display_data, nodes.drop_last());
        if is_candidate(display_data, nodes.last()) {
            before.push(nodes.last())
        } else {
            before
        }
    }
}

proof fn lemma_candidate_list(display_data: &AggregateData, nodes: Seq<NodeView>)
    ensures
        candidate_list(display_data, nodes).to_multiset() == candidates(display_data, nodes),
        forall|key: Seq<ComponentView>| #[trigger]
            list_name_count(key, candidate_list(display_data, nodes)) <= list_name_count(
                key,
                nodes,
            ),
    decreases nodes.len(),
{
    broadcast use vstd::seq_lib::group_to_multiset_ensures;

    let now = candidate_list(display_data, nodes);
    if nodes.len() > 0 {
        let before = candidate_list(display_data, nodes.drop_last());
        lemma_candidate_list(display_data, nodes.drop_last());
        assert forall|key: Seq<ComponentView>| #[trigger]
            list_name_count(key, now) <= list_name_count(key, nodes) by {
            lemma_name_count(key, nodes.last());
            assert(list_name_count(key, before) <= list_name_count(key, nodes.drop_last()));
            if is_candidate(display_data, nodes.last()) {
                assert(now.drop_last() =~= before);
            }
        }
    } else {
        now.to_multiset_ensures();
        assert forall|n: NodeView| now.to_multiset().count(n) == 0 by {
            assert(!now.contains(n));
        }
        assert(now.to_multiset() =~= Multiset::empty());
    }
}

/// The list holds what the pool does, and no two nodes of its trees have the
/// same name.
spec fn spans(pool: Multiset<NodeView>, s: Seq<NodeView>) -> bool {
    s.to_multiset() == pool && names_differ(s)
}

proof fn lemma_spanned_is_distinct(pool: Multiset<NodeView>, s: Seq<NodeView>)
    requires
        spans(pool, s),
    ensures
        pool_distinct(pool),
{
    s.to_multiset_ensures();
    assert forall|x: NodeView, y: NodeView|
        #![trigger pool.contains(x), pool.contains(y)]
        pool.contains(x) && pool.contains(y) && identity_of(x.name) == identity_of(
            y.name,
        ) implies x == y by {
        assert(s.contains(x) && s.contains(y));
        let i = choose|i: int| 0 <= i < s.len() && s[i] == x;
        let j = choose|j: int| 0 <= j < s.len() && s[j] == y;
        let key = identity_of(x.name);
        assert(list_name_count(key, s) <= 1);
        if i < j {
            lemma_two_names(key, s, i, j);
        } else if j < i {
            lemma_two_names(key, s, j, i);
        }
    }
    assert(s.no_duplicates()) by {
        assert forall|i: int, j: int|
            0 <= i < s.len() && 0 <= j < s.len() && i != j implies s[i] != s[j] by {
            if s[i] == s[j] {
                let key = identity_of(s[i].name);
                assert(list_name_count(key, s) <= 1);
                if i < j {
                    lemma_two_names(key, s, i, j);
                } else {
                    lemma_two_names(key, s, j, i);
                }
            }
        }
    }
    s.lemma_multiset_has_no_duplicates();
    assert forall|x: NodeView| #[trigger] pool.count(x) <= 1 by {
        if pool.count(x) > 0 {
            assert(s.to_multiset().contains(x));
        }
    }
}

proof fn lemma_pool_spanned(
    display_data: &AggregateData,
    keep_collapsed: Seq<PathBuf>,
    pool: Multiset<NodeView>,
    s: Seq<NodeView>,
    taken: Seq<NodeView>,
) -> (t: Seq<NodeView>)
    requires
        spans(pool, s),
        is_run(display_data, keep_collapsed, pool, taken),
    ensures
        spans(pool_after(display_data, keep_collapsed, pool, taken), t),
    decreases taken.len(),
{
    if taken.len() == 0 {
        s
    } else {
        let before = taken.drop_last();
        let x = taken.last();
        let r = lemma_pool_spanned(display_data, keep_collapsed, pool, s, before);
        let p = pool_after(display_data, keep_collapsed, pool, before);
        r.to_multiset_ensures();
        assert(p.contains(x));
        assert(r.contains(x));
        let i = choose|i: int| 0 <= i < r.len() && r[i] == x;
        let rest = r.remove(i);
        let opens = !names_one_of(keep_collapsed, x.name) && display_data.depth > x.depth;
        let more = if opens {
            candidate_list(display_data, x.children)
        } else {
            Seq::empty()
        };
        lemma_candidate_list(display_data, x.children);
        lemma_candidate_list(display_data, Seq::empty());
        let t = rest + more;
        vstd::seq_lib::lemma_multiset_commutative(rest, more);
        assert(more.to_multiset() =~= opened(display_data, keep_collapsed, x));
        assert forall|key: Seq<ComponentView>| #[trigger] list_name_count(key, t) <= 1 by {
            lemma_name_count_append(key, rest, more);
            lemma_name_count_remove(key, r, i);
            lemma_name_count(key, x);
            assert(list_name_count(key, r) <= 1);
            assert(list_name_count(key, candidate_list(display_data, x.children))
                <= list_name_count(key, x.children));
        }
        t
    }
}

/// Where no two nodes below a root have the same name, no two nodes that are left
/// to show ever do.
pub proof fn lemma_distinct_names_stay_distinct(
    display_data: &AggregateData,
    keep_collapsed: Seq<PathBuf>,
    roots: int,
    root: NodeView,
    taken: Seq<NodeView>,
)
    requires
        names_differ(root.children),
        is_run(display_data, keep_collapsed, first_pool(display_data, root, roots), taken),
    ensures
        run_distinct(display_data, keep_collapsed, first_pool(display_data, root, roots), taken),
{
    let pool = first_pool(display_data, root, roots);
    let s = if roots != 1 || display_data.depth > root.depth {
        candidate_list(display_data, root.children)
    } else {
        Seq::empty()
    };
    lemma_candidate_list(display_data, root.children);
    lemma_candidate_list(display_data, Seq::empty());
    assert(spans(pool, s)) by {
        assert forall|key: Seq<ComponentView>| #[trigger] list_name_count(key, s) <= 1 by {
            assert(list_name_count(key, root.children) <= 1);
            assert(list_name_count(key, candidate_list(display_data, root.children))
                <= list_name_count(key, root.children));
        }
    }
    assert forall|k: int| 0 <= k < taken.len() implies pool_distinct(
        #[trigger] pool_after(display_data, keep_collapsed, pool, taken.take(k)),
    ) by {
        lemma_run_prefix(display_data, keep_collapsed, pool, taken, k);
        let t = lemma_pool_spanned(display_data, keep_collapsed, pool, s, taken.take(k));
        lemma_spanned_is_distinct(
            pool_after(display_data, keep_collapsed, pool, taken.take(k)),
            t,
        );
    }
}

/// Two trees that differ in nothing but the order of children are shown alike,
/// where no two of their nodes have the same name.
pub proof fn lemma_order_of_children_does_not_show(
    display_data: &AggregateData,
    keep_collapsed: Seq<PathBuf>,
    roots: int,
    a: NodeView,
    b: NodeView,
    shown_a: DisplayNodeView,
    shown_b: DisplayNodeView,
)
    requires
        alike(a, b),
        names_differ(a.children),
        names_differ(b.children),
        shows(display_data, keep_collapsed, first_pool(display_data, a, roots), a, shown_a),
        shows(display_data, keep_collapsed, first_pool(display_data, b, roots), b, shown_b),
    ensures
        shown_a == shown_b,
{
    let (p, q) = (first_pool(display_data, a, roots), first_pool(display_data, b, roots));
    let taken = choose|taken: Seq<NodeView>|
        {
            &&& #[trigger] is_run(display_data, keep_collapsed, p, taken)
            &&& run_ends(display_data, keep_collapsed, p, taken)
            &&& shown_a == shown_tree(display_data, a, taken)
        };
    let other = choose|other: Seq<NodeView>|
        {
            &&& #[trigger] is_run(display_data, keep_collapsed, q, other)
            &&& run_ends(display_data, keep_collapsed, q, other)
            &&& shown_b == shown_tree(display_data, b, other)
        };
    lemma_distinct_names_stay_distinct(display_data, keep_collapsed, roots, a, taken);
    lemma_distinct_names_stay_distinct(display_data, keep_collapsed, roots, b, other);
    lemma_shown_tree_is_independent_of_order(
        display_data,
        keep_collapsed,
        roots,
        a,
        b,
        taken,
        other,
    );
}

} // verus!
