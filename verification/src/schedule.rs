//! The trees that a walk ends with, while it is under way. They do not depend on
//! the order in which scans end, and, by apparent size and where links are not
//! followed, not on the order in which two directories are listed.

use vstd::multiset::Multiset;
use vstd::prelude::*;

use crate::dir_walker::{
    listing_scanned, missing_recorded, ListedView, ScanView, SubdirectoryView, WalkData,
};
use crate::node::NodeView;
use crate::path::PathView;
use crate::shape::{lemma_folded_size_of_shapes, lemma_shapes_push, shape, shapes, Shape};
use crate::sums::{lemma_total_at_least, lemma_total_not_negative, lemma_total_same};
use crate::walk::{
    branch, branched, completed, dir_node, is_forest, is_live_child, is_placed, lemma_branched,
    lemma_marked_scanned, lemma_received, lemma_scan_weight, listing_taken, live_children,
    marked_scanned, own_scan, received, scan_ended, scan_of, scan_start, waits, with_maybe, DirView,
    WalkView,
};

verus! {

/// The node that the directory `i` becomes if nothing more is found.
pub open spec fn outcome(walk_data: &WalkData, dirs: Seq<DirView>, i: int) -> Option<NodeView>
    decreases dirs.len() - i, dirs.len() + 1,
{
    if 0 <= i < dirs.len() {
        dir_node(
            walk_data,
            DirView { children: kids(walk_data, dirs, i, dirs.len() as int), ..dirs[i] },
        )
    } else {
        None
    }
}

/// The directory `j` is unfinished and was found in the directory `i`.
pub open spec fn is_live_kid(dirs: Seq<DirView>, i: int, j: int) -> bool {
    dirs[j].pending > 0 && (dirs[j].parent matches Some(p) && p == i)
}

/// What the directory `i` holds in the end of the nodes that were found in it
/// and of its unfinished directories with numbers below `n`.
pub open spec fn kids(walk_data: &WalkData, dirs: Seq<DirView>, i: int, n: int) -> Seq<NodeView>
    decreases dirs.len() - i, n,
{
    if n <= i + 1 || i < 0 || n > dirs.len() {
        dirs[i].children
    } else {
        let before = kids(walk_data, dirs, i, n - 1);
        if is_live_kid(dirs, i, n - 1) {
            with_maybe(before, outcome(walk_data, dirs, n - 1))
        } else {
            before
        }
    }
}

/// The trees that the unfinished roots with numbers below `n` become, behind
/// those that are finished.
pub open spec fn final_list(
    walk_data: &WalkData,
    dirs: Seq<DirView>,
    top_level: Seq<NodeView>,
    n: int,
) -> Seq<NodeView>
    decreases n,
{
    if n <= 0 {
        top_level
    } else {
        let before = final_list(walk_data, dirs, top_level, n - 1);
        if dirs[n - 1].pending > 0 && dirs[n - 1].parent is None {
            with_maybe(before, outcome(walk_data, dirs, n - 1))
        } else {
            before
        }
    }
}

/// The trees that a walk ends with if nothing more is found, without their
/// order.
pub open spec fn final_trees(walk_data: &WalkData, w: WalkView) -> Multiset<Shape> {
    shapes(final_list(walk_data, w.dirs, w.top_level, w.dirs.len() as int))
}

/// The shape of a node that may be missing.
pub(crate) open spec fn maybe_shape(node: Option<NodeView>) -> Option<Shape> {
    match node {
        Some(node) => Some(shape(node)),
        None => None,
    }
}

pub(crate) proof fn lemma_shapes_with_maybe(s: Seq<NodeView>, t: Seq<NodeView>, a: Option<NodeView>, b: Option<
    NodeView,
>)
    requires
        maybe_shape(a) == maybe_shape(b),
    ensures
        shapes(s) == shapes(t) ==> shapes(with_maybe(s, a)) == shapes(with_maybe(t, b)),
{
    if a is Some {
        lemma_shapes_push(s, a->Some_0);
        lemma_shapes_push(t, b->Some_0);
    }
}

/// Directories that agree in everything but the order of what was found in them
/// become nodes of one shape.
proof fn lemma_dir_node_shape(walk_data: &WalkData, d: DirView, e: DirView)
    requires
        d.dir == e.dir,
        d.depth == e.depth,
        d.metadata == e.metadata,
        shapes(d.children) == shapes(e.children),
    ensures
        maybe_shape(dir_node(walk_data, d)) == maybe_shape(dir_node(walk_data, e)),
{
    if d.metadata is Some {
        let own = crate::node::own_size(walk_data, d.dir, false, false, d.metadata->Some_0);
        lemma_folded_size_of_shapes(*walk_data.by_filetime, own, d.children, e.children);
    }
}

// --------------------------------------------------------------------------
// One step
// --------------------------------------------------------------------------

/// Two lists of directories agree at `k` in everything but the count of what the
/// directory waits for, and in whether it waits for anything.
pub(crate) open spec fn agree_at(a: Seq<DirView>, b: Seq<DirView>, k: int) -> bool {
    &&& a[k].dir == b[k].dir
    &&& a[k].depth == b[k].depth
    &&& a[k].metadata == b[k].metadata
    &&& a[k].parent == b[k].parent
    &&& a[k].children == b[k].children
    &&& (a[k].pending > 0) == (b[k].pending > 0)
}

pub(crate) open spec fn agree(a: Seq<DirView>, b: Seq<DirView>) -> bool {
    a.len() == b.len() && forall|k: int| 0 <= k < a.len() ==> #[trigger] agree_at(a, b, k)
}

proof fn lemma_outcomes_agree(walk_data: &WalkData, a: Seq<DirView>, b: Seq<DirView>, i: int)
    requires
        agree(a, b),
        0 <= i < a.len(),
    ensures
        outcome(walk_data, a, i) == outcome(walk_data, b, i),
    decreases a.len() - i, a.len() + 1,
{
    assert(agree_at(a, b, i));
    lemma_kids_agree(walk_data, a, b, i, a.len() as int);
}

proof fn lemma_kids_agree(walk_data: &WalkData, a: Seq<DirView>, b: Seq<DirView>, i: int, n: int)
    requires
        agree(a, b),
        0 <= i < a.len(),
        n <= a.len(),
    ensures
        kids(walk_data, a, i, n) == kids(walk_data, b, i, n),
    decreases a.len() - i, n,
{
    assert(agree_at(a, b, i));
    if n > i + 1 {
        lemma_kids_agree(walk_data, a, b, i, n - 1);
        assert(agree_at(a, b, n - 1));
        lemma_outcomes_agree(walk_data, a, b, n - 1);
    }
}

pub(crate) proof fn lemma_finals_agree(
    walk_data: &WalkData,
    a: Seq<DirView>,
    b: Seq<DirView>,
    top_level: Seq<NodeView>,
    n: int,
)
    requires
        agree(a, b),
        0 <= n <= a.len(),
    ensures
        final_list(walk_data, a, top_level, n) == final_list(walk_data, b, top_level, n),
    decreases n,
{
    if n > 0 {
        lemma_finals_agree(walk_data, a, b, top_level, n - 1);
        assert(agree_at(a, b, n - 1));
        lemma_outcomes_agree(walk_data, a, b, n - 1);
    }
}

/// The number is there, and is `k`.
spec fn is_number(number: Option<usize>, k: int) -> bool {
    number matches Some(p) && p == k
}

/// The directory `i`, in which nothing is unfinished, is finished in `b`, and
/// its node was handed to the directory `p`; nothing else differs.
spec fn handed_up(
    walk_data: &WalkData,
    a: Seq<DirView>,
    b: Seq<DirView>,
    i: int,
    parent: Option<usize>,
) -> bool {
    &&& a.len() == b.len()
    &&& 0 <= i < a.len()
    &&& a[i].pending > 0
    &&& b[i].pending == 0
    &&& a[i].parent == parent
    &&& parent matches Some(p) ==> p < i
    &&& forall|j: int| 0 <= j < a.len() ==> !#[trigger] is_live_kid(a, i, j)
    &&& forall|k: int|
        0 <= k < a.len() && k != i && !is_number(parent, k) ==> #[trigger] agree_at(
            a,
            b,
            k,
        )
    &&& parent matches Some(p) ==> {
        let (c, d) = (a[p as int], b[p as int]);
        &&& c.dir == d.dir
        &&& c.depth == d.depth
        &&& c.metadata == d.metadata
        &&& c.parent == d.parent
        &&& c.pending > 0 && d.pending > 0
        &&& d.children == with_maybe(c.children, dir_node(walk_data, a[i]))
    }
}

/// A directory in which nothing is unfinished becomes what was found in it.
pub(crate) proof fn lemma_no_kids(walk_data: &WalkData, dirs: Seq<DirView>, i: int, n: int)
    requires
        0 <= i < dirs.len(),
        n <= dirs.len(),
        forall|j: int| 0 <= j < dirs.len() ==> !#[trigger] is_live_kid(dirs, i, j),
    ensures
        kids(walk_data, dirs, i, n) == dirs[i].children,
    decreases n,
{
    if n > i + 1 {
        lemma_no_kids(walk_data, dirs, i, n - 1);
        assert(!is_live_kid(dirs, i, n - 1));
    }
}

proof fn lemma_handed_up_outcome(
    walk_data: &WalkData,
    a: Seq<DirView>,
    b: Seq<DirView>,
    i: int,
    parent: Option<usize>,
    k: int,
)
    requires
        handed_up(walk_data, a, b, i, parent),
        0 <= k < a.len(),
        k != i,
    ensures
        maybe_shape(outcome(walk_data, a, k)) == maybe_shape(outcome(walk_data, b, k)),
    decreases a.len() - k, a.len() + 1,
{
    let n = a.len() as int;
    lemma_handed_up_kids(walk_data, a, b, i, parent, k, n);
    if !is_number(parent, k) {
        assert(agree_at(a, b, k));
    }
    lemma_dir_node_shape(
        walk_data,
        DirView { children: kids(walk_data, a, k, n), ..a[k] },
        DirView { children: kids(walk_data, b, k, n), ..b[k] },
    );
}

proof fn lemma_handed_up_kids(
    walk_data: &WalkData,
    a: Seq<DirView>,
    b: Seq<DirView>,
    i: int,
    parent: Option<usize>,
    k: int,
    n: int,
)
    requires
        handed_up(walk_data, a, b, i, parent),
        0 <= k < a.len(),
        k != i,
        n <= a.len(),
    ensures
        if is_number(parent, k) && n <= i {
            shapes(kids(walk_data, b, k, n)) == shapes(
                with_maybe(kids(walk_data, a, k, n), dir_node(walk_data, a[i])),
            )
        } else {
            shapes(kids(walk_data, b, k, n)) == shapes(kids(walk_data, a, k, n))
        },
    decreases a.len() - k, n,
{
    let is_parent = is_number(parent, k);
    let node = dir_node(walk_data, a[i]);
    if !is_parent {
        assert(agree_at(a, b, k));
    }
    if n <= k + 1 {
        assert(is_parent ==> n <= i);
    } else {
        let j = n - 1;
        lemma_handed_up_kids(walk_data, a, b, i, parent, k, j);
        let (s, t) = (kids(walk_data, a, k, j), kids(walk_data, b, k, j));
        if j == i {
            // the directory itself: it is among those below its parent alone
            lemma_no_kids(walk_data, a, i, a.len() as int);
            assert(DirView { children: a[i].children, ..a[i] } == a[i]);
            assert(outcome(walk_data, a, i) == node);
            assert(is_live_kid(a, k, i) == is_parent);
            assert(!is_live_kid(b, k, i));
        } else {
            lemma_handed_up_outcome(walk_data, a, b, i, parent, j);
            assert(is_live_kid(a, k, j) == is_live_kid(b, k, j)) by {
                if !is_number(parent, j) {
                    assert(agree_at(a, b, j));
                }
            }
            if is_live_kid(a, k, j) {
                let (x, y) = (outcome(walk_data, a, j), outcome(walk_data, b, j));
                if is_parent && n <= i {
                    lemma_shapes_with_maybe(with_maybe(s, node), t, x, y);
                    lemma_with_maybe_swaps(s, node, x);
                } else {
                    lemma_shapes_with_maybe(s, t, x, y);
                }
            }
        }
    }
}

proof fn lemma_with_maybe_swaps(s: Seq<NodeView>, a: Option<NodeView>, b: Option<NodeView>)
    ensures
        shapes(with_maybe(with_maybe(s, a), b)) == shapes(with_maybe(with_maybe(s, b), a)),
{
    if a is Some && b is Some {
        let (x, y) = (a->Some_0, b->Some_0);
        lemma_shapes_push(s, x);
        lemma_shapes_push(s.push(x), y);
        lemma_shapes_push(s, y);
        lemma_shapes_push(s.push(y), x);
        assert(shapes(s).insert(shape(x)).insert(shape(y)) =~= shapes(s).insert(shape(y)).insert(
            shape(x),
        ));
    }
}

proof fn lemma_handed_up_finals(
    walk_data: &WalkData,
    a: Seq<DirView>,
    b: Seq<DirView>,
    i: int,
    parent: Option<usize>,
    top_level: Seq<NodeView>,
    n: int,
)
    requires
        handed_up(walk_data, a, b, i, parent),
        0 <= n <= a.len(),
    ensures
        ({
            let node = dir_node(walk_data, a[i]);
            let now = if parent is None {
                with_maybe(top_level, node)
            } else {
                top_level
            };
            let before = final_list(walk_data, a, top_level, n);
            shapes(final_list(walk_data, b, now, n)) == (if parent is None && n <= i {
                shapes(with_maybe(before, node))
            } else {
                shapes(before)
            })
        }),
    decreases n,
{
    if n > 0 {
        let j = n - 1;
        lemma_handed_up_finals(walk_data, a, b, i, parent, top_level, j);
        let node = dir_node(walk_data, a[i]);
        let now = if parent is None {
            with_maybe(top_level, node)
        } else {
            top_level
        };
        let (s, t) = (
            final_list(walk_data, a, top_level, j),
            final_list(walk_data, b, now, j),
        );
        if j == i {
            lemma_no_kids(walk_data, a, i, a.len() as int);
            assert(DirView { children: a[i].children, ..a[i] } == a[i]);
            assert(outcome(walk_data, a, i) == node);
        } else {
            lemma_handed_up_outcome(walk_data, a, b, i, parent, j);
            if !is_number(parent, j) {
                assert(agree_at(a, b, j));
            }
            if a[j].pending > 0 && a[j].parent is None {
                let (x, y) = (outcome(walk_data, a, j), outcome(walk_data, b, j));
                if parent is None && n <= i {
                    lemma_shapes_with_maybe(with_maybe(s, node), t, x, y);
                    lemma_with_maybe_swaps(s, node, x);
                } else {
                    lemma_shapes_with_maybe(s, t, x, y);
                }
            }
        }
    }
}

// --------------------------------------------------------------------------
// All the way up
// --------------------------------------------------------------------------

/// The directories with a node added to what was found in the directory `i`.
pub(crate) open spec fn with_brought(dirs: Seq<DirView>, i: int, brought: Option<NodeView>) -> Seq<DirView> {
    dirs.update(i, DirView { children: with_maybe(dirs[i].children, brought), ..dirs[i] })
}

proof fn lemma_no_live_kids(dirs: Seq<DirView>, i: int)
    requires
        live_children(dirs, i) == 0,
    ensures
        forall|j: int| 0 <= j < dirs.len() ==> !#[trigger] is_live_kid(dirs, i, j),
{
    let f = |d: DirView| is_live_child(d, i);
    assert forall|j: int| 0 <= j < dirs.len() implies !#[trigger] is_live_kid(dirs, i, j) by {
        lemma_total_at_least(dirs, j, f);
    }
}

pub(crate) proof fn lemma_completed_finals(
    walk_data: &WalkData,
    w: WalkView,
    i: int,
    brought: Option<NodeView>,
    reported: bool,
)
    requires
        is_forest(w.dirs, w.followed.len() as int),
        waits(w.dirs, i),
        0 <= i < w.dirs.len(),
    ensures
        final_trees(walk_data, completed(walk_data, w, i, brought, reported)) == shapes(
            final_list(
                walk_data,
                with_brought(w.dirs, i, brought),
                w.top_level,
                w.dirs.len() as int,
            ),
        ),
    decreases i,
{
    let n = w.dirs.len() as int;
    let roots = w.followed.len() as int;
    lemma_received(w.dirs, i, brought, roots, Seq::empty(), false);
    let d = received(w.dirs[i], brought);
    let a = with_brought(w.dirs, i, brought);
    assert(is_placed(w.dirs, i, roots));
    if d.pending > 0 {
        let b = w.dirs.update(i, d);
        assert(agree(b, a)) by {
            assert forall|k: int| 0 <= k < b.len() implies #[trigger] agree_at(b, a, k) by {}
        }
        lemma_finals_agree(walk_data, b, a, w.top_level, n);
    } else {
        let done = DirView { children: Seq::empty(), ..d };
        let node = dir_node(walk_data, d);
        let now = WalkView {
            dirs: w.dirs.update(i, done),
            errors: if node is None && !reported {
                missing_recorded(w.errors, d.dir)
            } else {
                w.errors
            },
            ..w
        };
        assert(dir_node(walk_data, a[i]) == node);
        assert(live_children(w.dirs, i) == 0) by {
            assert(w.dirs[i].pending == own_scan(w.dirs[i]) + live_children(w.dirs, i) + 1);
            lemma_total_not_negative(w.dirs, |x: DirView| is_live_child(x, i));
        }
        lemma_no_live_kids(w.dirs, i);
        assert forall|j: int| 0 <= j < n implies !#[trigger] is_live_kid(a, i, j) by {
            assert(!is_live_kid(w.dirs, i, j));
        }
        match d.parent {
            None => {
                let b = now.dirs;
                assert(handed_up(walk_data, a, b, i, None)) by {
                    assert forall|k: int| 0 <= k < n && k != i implies #[trigger] agree_at(
                        a,
                        b,
                        k,
                    ) by {}
                }
                lemma_handed_up_finals(walk_data, a, b, i, None, w.top_level, n);
            },
            Some(p) => {
                let b = with_brought(now.dirs, p as int, node);
                assert(w.dirs[p as int].pending > 0) by {
                    assert(w.dirs[p as int].pending == own_scan(w.dirs[p as int]) + live_children(
                        w.dirs,
                        p as int,
                    ));
                    lemma_total_at_least(
                        w.dirs,
                        i,
                        |x: DirView| is_live_child(x, p as int),
                    );
                }
                assert(handed_up(walk_data, a, b, i, Some(p))) by {
                    assert forall|k: int| 0 <= k < n && k != i && k != p implies #[trigger] agree_at(
                        a,
                        b,
                        k,
                    ) by {}
                }
                lemma_handed_up_finals(walk_data, a, b, i, Some(p), w.top_level, n);
                lemma_completed_finals(walk_data, now, p as int, node, false);
            },
        }
    }
}

/// Ending the scan of a directory does not change the trees that the walk ends
/// with. So it does not matter in which order scans end.
pub proof fn lemma_scan_ended_keeps_final_trees(
    walk_data: &WalkData,
    w: WalkView,
    i: int,
    reported: bool,
)
    requires
        w.well_formed(walk_data),
        0 <= i < w.dirs.len(),
        !w.dirs[i].scanned,
    ensures
        final_trees(walk_data, scan_ended(walk_data, w, i, reported)) == final_trees(walk_data, w),
{
    lemma_scan_ended_finals(walk_data, w, i, reported);
}

/// A finished walk has ended with the trees that it ends with.
pub proof fn lemma_finished_has_final_trees(walk_data: &WalkData, w: WalkView)
    requires
        w.all_finished(),
    ensures
        final_trees(walk_data, w) == shapes(w.top_level),
{
    lemma_all_done(walk_data, w, w.dirs.len() as int);
}

proof fn lemma_all_done(walk_data: &WalkData, w: WalkView, n: int)
    requires
        w.all_finished(),
        0 <= n <= w.dirs.len(),
    ensures
        final_list(walk_data, w.dirs, w.top_level, n) == w.top_level,
    decreases n,
{
    if n > 0 {
        lemma_all_done(walk_data, w, n - 1);
        assert(w.dirs[n - 1].pending == 0);
    }
}

/// By apparent size, and where links are not followed, what a listing brings
/// depends on nothing but the listing.
pub proof fn lemma_scan_of_listing_alone(
    walk_data: &WalkData,
    dir: PathView,
    depth: usize,
    canonical_dir: Option<PathView>,
    s: ScanView,
    t: ScanView,
    listing: Seq<ListedView>,
)
    requires
        walk_data.use_apparent_size,
        !walk_data.follow_links,
        s.nodes == t.nodes,
        s.dirs == t.dirs,
    ensures
        listing_scanned(walk_data, dir, depth, canonical_dir, s, listing).nodes == listing_scanned(
            walk_data,
            dir,
            depth,
            canonical_dir,
            t,
            listing,
        ).nodes,
        listing_scanned(walk_data, dir, depth, canonical_dir, s, listing).dirs == listing_scanned(
            walk_data,
            dir,
            depth,
            canonical_dir,
            t,
            listing,
        ).dirs,
    decreases listing.len(),
{
    if listing.len() > 0 {
        let rest = listing.drop_last();
        lemma_scan_of_listing_alone(walk_data, dir, depth, canonical_dir, s, t, rest);
    }
}

// --------------------------------------------------------------------------
// Listings
// --------------------------------------------------------------------------

/// The directories with nodes added to what was found in the directory `i`.
pub(crate) open spec fn with_more(dirs: Seq<DirView>, i: int, more: Seq<NodeView>) -> Seq<DirView> {
    dirs.update(i, DirView { children: dirs[i].children + more, ..dirs[i] })
}

/// The nodes that directories become in which nothing is found.
spec fn bare_nodes(walk_data: &WalkData, found: Seq<SubdirectoryView>) -> Seq<NodeView>
    decreases found.len(),
{
    if found.len() == 0 {
        Seq::empty()
    } else {
        with_maybe(
            bare_nodes(walk_data, found.drop_last()),
            dir_node(walk_data, branch(0, 0, found.last())),
        )
    }
}

/// Every directory but a root was found in one before it.
pub(crate) open spec fn parents_before(dirs: Seq<DirView>) -> bool {
    forall|j: int|
        0 <= j < dirs.len() ==> ((#[trigger] dirs[j]).parent matches Some(p) ==> p < j)
}

/// What is asked of directories before leaves and subdirectories are found in
/// the directory `i`.
pub(crate) open spec fn can_branch(dirs: Seq<DirView>, i: int, found: Seq<SubdirectoryView>) -> bool {
    &&& 0 <= i < dirs.len()
    &&& parents_before(dirs)
    &&& dirs[i].pending > 0
    &&& dirs[i].pending + found.len() <= usize::MAX
    &&& dirs.len() + found.len() <= usize::MAX
}

pub(crate) proof fn lemma_shapes_append(s: Seq<NodeView>, t: Seq<NodeView>)
    ensures
        shapes(s + t) == shapes(s).add(shapes(t)),
    decreases t.len(),
{
    if t.len() == 0 {
        assert(s + t =~= s);
        assert(shapes(s).add(Multiset::empty()) =~= shapes(s));
    } else {
        let rest = t.drop_last();
        lemma_shapes_append(s, rest);
        assert((s + t).drop_last() =~= s + rest);
        assert((s + t).last() == t.last());
        assert(shapes(s).add(shapes(rest)).insert(shape(t.last())) =~= shapes(s).add(
            shapes(rest).insert(shape(t.last())),
        ));
    }
}

/// The nodes that directories become in which nothing is unfinished.
pub(crate) open spec fn dir_nodes(walk_data: &WalkData, new: Seq<DirView>) -> Seq<NodeView>
    decreases new.len(),
{
    if new.len() == 0 {
        Seq::empty()
    } else {
        with_maybe(dir_nodes(walk_data, new.drop_last()), dir_node(walk_data, new.last()))
    }
}

/// The directories after leaves and these directories were found in the
/// directory `i`.
pub(crate) open spec fn sprouted(
    dirs: Seq<DirView>,
    i: int,
    nodes: Seq<NodeView>,
    new: Seq<DirView>,
) -> Seq<DirView> {
    dirs.update(
        i,
        DirView {
            pending: (dirs[i].pending + new.len()) as usize,
            children: dirs[i].children + nodes,
            ..dirs[i]
        },
    ) + new
}

/// What is asked of directories before leaves and these directories are found in
/// the directory `i`.
pub(crate) open spec fn can_sprout(dirs: Seq<DirView>, i: int, new: Seq<DirView>) -> bool {
    &&& 0 <= i < dirs.len()
    &&& parents_before(dirs)
    &&& dirs[i].pending > 0
    &&& dirs[i].pending + new.len() <= usize::MAX
    &&& dirs.len() + new.len() <= usize::MAX
    &&& forall|x: int|
        0 <= x < new.len() ==> (#[trigger] new[x]).pending > 0 && new[x].parent == Some(i as usize)
}

/// For the trees of a walk, finding subdirectories comes to the same as finding
/// the nodes that they become.
proof fn lemma_sprouted_outcome(
    walk_data: &WalkData,
    dirs: Seq<DirView>,
    i: int,
    nodes: Seq<NodeView>,
    new: Seq<DirView>,
    k: int,
)
    requires
        can_sprout(dirs, i, new),
        0 <= k < dirs.len(),
    ensures
        maybe_shape(
            outcome(walk_data, with_more(dirs, i, nodes + dir_nodes(walk_data, new)), k),
        ) == maybe_shape(outcome(walk_data, sprouted(dirs, i, nodes, new), k)),
    decreases dirs.len() - k, dirs.len() + 1,
{
    let n = dirs.len() as int;
    let m = new.len() as int;
    let grown = dir_nodes(walk_data, new);
    let a = with_more(dirs, i, nodes + grown);
    let b = sprouted(dirs, i, nodes, new);
    lemma_sprouted_kids(walk_data, dirs, i, nodes, new, k, n);
    lemma_sprouted_tail(walk_data, dirs, i, nodes, new, k, m);
    assert(new.take(m) =~= new);
    lemma_dir_node_shape(
        walk_data,
        DirView { children: kids(walk_data, a, k, n), ..a[k] },
        DirView { children: kids(walk_data, b, k, n + m), ..b[k] },
    );
}

proof fn lemma_sprouted_kids(
    walk_data: &WalkData,
    dirs: Seq<DirView>,
    i: int,
    nodes: Seq<NodeView>,
    new: Seq<DirView>,
    k: int,
    t: int,
)
    requires
        can_sprout(dirs, i, new),
        0 <= k < dirs.len(),
        t <= dirs.len(),
    ensures
        ({
            let grown = dir_nodes(walk_data, new);
            let a = with_more(dirs, i, nodes + grown);
            let b = sprouted(dirs, i, nodes, new);
            shapes(kids(walk_data, a, k, t)) == (if k == i {
                shapes(kids(walk_data, b, k, t)).add(shapes(grown))
            } else {
                shapes(kids(walk_data, b, k, t))
            })
        }),
    decreases dirs.len() - k, t,
{
    let grown = dir_nodes(walk_data, new);
    let a = with_more(dirs, i, nodes + grown);
    let b = sprouted(dirs, i, nodes, new);
    if t <= k + 1 {
        if k == i {
            assert(a[k].children =~= b[k].children + grown);
            lemma_shapes_append(b[k].children, grown);
        }
    } else {
        let j = t - 1;
        lemma_sprouted_kids(walk_data, dirs, i, nodes, new, k, j);
        lemma_sprouted_outcome(walk_data, dirs, i, nodes, new, j);
        assert(is_live_kid(a, k, j) == is_live_kid(b, k, j));
        if is_live_kid(a, k, j) {
            let (x, y) = (outcome(walk_data, a, j), outcome(walk_data, b, j));
            if x is Some {
                lemma_shapes_push(kids(walk_data, a, k, j), x->Some_0);
                lemma_shapes_push(kids(walk_data, b, k, j), y->Some_0);
                assert(shapes(kids(walk_data, b, k, j)).add(shapes(grown)).insert(shape(y->Some_0))
                    =~= shapes(kids(walk_data, b, k, j)).insert(shape(y->Some_0)).add(
                    shapes(grown),
                ));
            }
        }
    }
}

/// The subdirectories that were just found come last among what their directory
/// holds.
proof fn lemma_sprouted_tail(
    walk_data: &WalkData,
    dirs: Seq<DirView>,
    i: int,
    nodes: Seq<NodeView>,
    new: Seq<DirView>,
    k: int,
    x: int,
)
    requires
        can_sprout(dirs, i, new),
        0 <= k < dirs.len(),
        0 <= x <= new.len(),
    ensures
        ({
            let n = dirs.len() as int;
            let b = sprouted(dirs, i, nodes, new);
            shapes(kids(walk_data, b, k, n + x)) == (if k == i {
                shapes(kids(walk_data, b, k, n)).add(
                    shapes(dir_nodes(walk_data, new.take(x))),
                )
            } else {
                shapes(kids(walk_data, b, k, n))
            })
        }),
    decreases x,
{
    let n = dirs.len() as int;
    let b = sprouted(dirs, i, nodes, new);
    let base = shapes(kids(walk_data, b, k, n));
    if x == 0 {
        assert(new.take(0) =~= Seq::empty());
        assert(base.add(Multiset::empty()) =~= base);
    } else {
        lemma_sprouted_tail(walk_data, dirs, i, nodes, new, k, x - 1);
        let j = n + x - 1;
        assert(b[j] == new[x - 1]);
        assert(is_live_kid(b, k, j) == (k == i));
        assert(new.take(x).drop_last() =~= new.take(x - 1));
        if k == i {
            assert forall|l: int| 0 <= l < b.len() implies !#[trigger] is_live_kid(b, j, l) by {
                if l < n {
                    assert(dirs[l].parent matches Some(p) ==> p < l);
                } else {
                    assert(b[l] == new[l - n]);
                }
            }
            lemma_no_kids(walk_data, b, j, b.len() as int);
            let node = dir_node(walk_data, b[j]);
            assert(DirView { children: b[j].children, ..b[j] } == b[j]);
            assert(outcome(walk_data, b, j) == node);
            let before = dir_nodes(walk_data, new.take(x - 1));
            if node is Some {
                lemma_shapes_push(kids(walk_data, b, k, j), node->Some_0);
                lemma_shapes_push(before, node->Some_0);
                assert(base.add(shapes(before)).insert(shape(node->Some_0)) =~= base.add(
                    shapes(before).insert(shape(node->Some_0)),
                ));
            }
        }
    }
}

pub(crate) proof fn lemma_sprouted_finals(
    walk_data: &WalkData,
    dirs: Seq<DirView>,
    i: int,
    nodes: Seq<NodeView>,
    new: Seq<DirView>,
    top_level: Seq<NodeView>,
    t: int,
)
    requires
        can_sprout(dirs, i, new),
        0 <= t <= dirs.len() + new.len(),
    ensures
        ({
            let n = dirs.len() as int;
            let a = with_more(dirs, i, nodes + dir_nodes(walk_data, new));
            let b = sprouted(dirs, i, nodes, new);
            shapes(final_list(walk_data, b, top_level, t)) == shapes(
                final_list(
                    walk_data,
                    a,
                    top_level,
                    if t < n {
                        t
                    } else {
                        n
                    },
                ),
            )
        }),
    decreases t,
{
    let n = dirs.len() as int;
    let a = with_more(dirs, i, nodes + dir_nodes(walk_data, new));
    let b = sprouted(dirs, i, nodes, new);
    if t > 0 {
        let j = t - 1;
        lemma_sprouted_finals(walk_data, dirs, i, nodes, new, top_level, j);
        if j < n {
            lemma_sprouted_outcome(walk_data, dirs, i, nodes, new, j);
            lemma_shapes_with_maybe(
                final_list(walk_data, a, top_level, j),
                final_list(walk_data, b, top_level, j),
                outcome(walk_data, a, j),
                outcome(walk_data, b, j),
            );
        } else {
            assert(b[j] == new[j - n]);
        }
    }
}

proof fn lemma_bare_nodes(
    walk_data: &WalkData,
    root: usize,
    i: int,
    found: Seq<SubdirectoryView>,
    new: Seq<DirView>,
)
    requires
        new == found.map_values(|d: SubdirectoryView| branch(root, i, d)),
    ensures
        dir_nodes(walk_data, new) == bare_nodes(walk_data, found),
    decreases found.len(),
{
    if found.len() > 0 {
        let rest = found.drop_last();
        assert(new.drop_last() =~= rest.map_values(|d: SubdirectoryView| branch(root, i, d)));
        lemma_bare_nodes(walk_data, root, i, rest, new.drop_last());
        assert(new.last() == branch(root, i, found.last()));
    }
}

/// For the trees of a walk, finding subdirectories comes to the same as finding
/// the nodes that they become, until something is found in them.
proof fn lemma_branched_finals(
    walk_data: &WalkData,
    dirs: Seq<DirView>,
    i: int,
    nodes: Seq<NodeView>,
    found: Seq<SubdirectoryView>,
    top_level: Seq<NodeView>,
)
    requires
        can_branch(dirs, i, found),
    ensures
        shapes(
            final_list(
                walk_data,
                branched(dirs, i, nodes, found),
                top_level,
                (dirs.len() + found.len()) as int,
            ),
        ) == shapes(
            final_list(
                walk_data,
                with_more(dirs, i, nodes + bare_nodes(walk_data, found)),
                top_level,
                dirs.len() as int,
            ),
        ),
{
    let new = found.map_values(|d: SubdirectoryView| branch(dirs[i].root, i, d));
    lemma_bare_nodes(walk_data, dirs[i].root, i, found, new);
    assert(branched(dirs, i, nodes, found) == sprouted(dirs, i, nodes, new));
    lemma_sprouted_finals(
        walk_data,
        dirs,
        i,
        nodes,
        new,
        top_level,
        (dirs.len() + new.len()) as int,
    );
}

/// The state of a walk after a listing of the directory `i` and then one of the
/// directory `j`, seen by the trees that it ends with.
proof fn lemma_two_listings(
    walk_data: &WalkData,
    w: WalkView,
    i: int,
    first_dir: Option<PathView>,
    first: Seq<ListedView>,
    j: int,
    second_dir: Option<PathView>,
    second: Seq<ListedView>,
)
    requires
        walk_data.use_apparent_size,
        !walk_data.follow_links,
        w.well_formed(walk_data),
        0 <= i < w.dirs.len(),
        0 <= j < w.dirs.len(),
        i != j,
        !w.dirs[i].scanned,
        !w.dirs[j].scanned,
        w.dirs.len() + scan_of(walk_data, w, i, first_dir, first).dirs.len() + scan_of(
            walk_data,
            w,
            j,
            second_dir,
            second,
        ).dirs.len() <= usize::MAX,
    ensures
        ({
            let s = scan_of(walk_data, w, i, first_dir, first);
            let t = scan_of(walk_data, w, j, second_dir, second);
            final_trees(
                walk_data,
                listing_taken(
                    walk_data,
                    listing_taken(walk_data, w, i, first_dir, first),
                    j,
                    second_dir,
                    second,
                ),
            ) == shapes(
                final_list(
                    walk_data,
                    with_more(
                        with_more(w.dirs, j, t.nodes + bare_nodes(walk_data, t.dirs)),
                        i,
                        s.nodes + bare_nodes(walk_data, s.dirs),
                    ),
                    w.top_level,
                    w.dirs.len() as int,
                ),
            )
        }),
{
    let n = w.dirs.len() as int;
    let s = scan_of(walk_data, w, i, first_dir, first);
    let t = scan_of(walk_data, w, j, second_dir, second);
    let (x, y) = (
        s.nodes + bare_nodes(walk_data, s.dirs),
        t.nodes + bare_nodes(walk_data, t.dirs),
    );
    lemma_listing_in_order(walk_data, w, i, first_dir, first);
    lemma_listing_in_order(walk_data, w, j, second_dir, second);
    let once = listing_taken(walk_data, w, i, first_dir, first);
    let d = once.dirs;
    assert(d == branched(w.dirs, i, s.nodes, s.dirs));
    assert(d[j] == w.dirs[j]);
    lemma_scan_of_listing_alone(
        walk_data,
        d[j].dir,
        d[j].depth,
        second_dir,
        scan_start(w, w.dirs[j].root as int),
        scan_start(once, d[j].root as int),
        second,
    );
    let again = scan_of(walk_data, once, j, second_dir, second);
    assert(again.nodes == t.nodes && again.dirs == t.dirs);
    let twice = listing_taken(walk_data, once, j, second_dir, second);
    assert(twice.dirs == branched(d, j, t.nodes, t.dirs));
    assert(parents_before(d)) by {
        assert forall|l: int| 0 <= l < d.len() implies ((#[trigger] d[l]).parent matches Some(p)
            ==> p < l) by {
            if l < n {
                assert(w.dirs[l].parent matches Some(p) ==> p < l);
            } else {
                assert(d[l] == branch(w.dirs[i].root, i, s.dirs[l - n]));
            }
        }
    }
    assert(d.len() == n + s.dirs.len());
    assert(can_branch(d, j, t.dirs));
    lemma_branched_finals(
        walk_data,
        d,
        j,
        t.nodes,
        t.dirs,
        w.top_level,
    );
    let e = with_more(w.dirs, j, y);
    assert(with_more(d, j, y) =~= branched(e, i, s.nodes, s.dirs));
    assert(parents_before(e)) by {
        assert forall|l: int| 0 <= l < e.len() implies ((#[trigger] e[l]).parent matches Some(p)
            ==> p < l) by {
            assert(w.dirs[l].parent matches Some(p) ==> p < l);
        }
    }
    assert(can_branch(e, i, s.dirs));
    lemma_branched_finals(walk_data, e, i, s.nodes, s.dirs, w.top_level);
}

/// By apparent size, and where links are not followed, two directories can be
/// listed in either order: the walk ends with the same trees.
pub proof fn lemma_listings_commute(
    walk_data: &WalkData,
    w: WalkView,
    i: int,
    first_dir: Option<PathView>,
    first: Seq<ListedView>,
    j: int,
    second_dir: Option<PathView>,
    second: Seq<ListedView>,
)
    requires
        walk_data.use_apparent_size,
        !walk_data.follow_links,
        w.well_formed(walk_data),
        0 <= i < w.dirs.len(),
        0 <= j < w.dirs.len(),
        i != j,
        !w.dirs[i].scanned,
        !w.dirs[j].scanned,
        w.dirs.len() + scan_of(walk_data, w, i, first_dir, first).dirs.len() + scan_of(
            walk_data,
            w,
            j,
            second_dir,
            second,
        ).dirs.len() <= usize::MAX,
    ensures
        final_trees(
            walk_data,
            listing_taken(
                walk_data,
                listing_taken(walk_data, w, i, first_dir, first),
                j,
                second_dir,
                second,
            ),
        ) == final_trees(
            walk_data,
            listing_taken(
                walk_data,
                listing_taken(walk_data, w, j, second_dir, second),
                i,
                first_dir,
                first,
            ),
        ),
{
    let s = scan_of(walk_data, w, i, first_dir, first);
    let t = scan_of(walk_data, w, j, second_dir, second);
    let (x, y) = (
        s.nodes + bare_nodes(walk_data, s.dirs),
        t.nodes + bare_nodes(walk_data, t.dirs),
    );
    lemma_two_listings(walk_data, w, i, first_dir, first, j, second_dir, second);
    lemma_two_listings(walk_data, w, j, second_dir, second, i, first_dir, first);
    assert(with_more(with_more(w.dirs, j, y), i, x) =~= with_more(with_more(w.dirs, i, x), j, y));
}

// --------------------------------------------------------------------------
// Whole steps
// --------------------------------------------------------------------------

/// Two lists of directories agree in everything but the order of what was found
/// in the directories.
pub(crate) open spec fn similar_at(a: Seq<DirView>, b: Seq<DirView>, k: int) -> bool {
    &&& a[k].dir == b[k].dir
    &&& a[k].depth == b[k].depth
    &&& a[k].metadata == b[k].metadata
    &&& a[k].parent == b[k].parent
    &&& a[k].pending == b[k].pending
    &&& shapes(a[k].children) == shapes(b[k].children)
}

pub(crate) open spec fn similar(a: Seq<DirView>, b: Seq<DirView>) -> bool {
    a.len() == b.len() && forall|k: int| 0 <= k < a.len() ==> #[trigger] similar_at(a, b, k)
}

proof fn lemma_similar_outcome(walk_data: &WalkData, a: Seq<DirView>, b: Seq<DirView>, k: int)
    requires
        similar(a, b),
        0 <= k < a.len(),
    ensures
        maybe_shape(outcome(walk_data, a, k)) == maybe_shape(outcome(walk_data, b, k)),
    decreases a.len() - k, a.len() + 1,
{
    let n = a.len() as int;
    assert(similar_at(a, b, k));
    lemma_similar_kids(walk_data, a, b, k, n);
    lemma_dir_node_shape(
        walk_data,
        DirView { children: kids(walk_data, a, k, n), ..a[k] },
        DirView { children: kids(walk_data, b, k, n), ..b[k] },
    );
}

proof fn lemma_similar_kids(
    walk_data: &WalkData,
    a: Seq<DirView>,
    b: Seq<DirView>,
    k: int,
    t: int,
)
    requires
        similar(a, b),
        0 <= k < a.len(),
        t <= a.len(),
    ensures
        shapes(kids(walk_data, a, k, t)) == shapes(kids(walk_data, b, k, t)),
    decreases a.len() - k, t,
{
    assert(similar_at(a, b, k));
    if t > k + 1 {
        let j = t - 1;
        lemma_similar_kids(walk_data, a, b, k, j);
        lemma_similar_outcome(walk_data, a, b, j);
        assert(similar_at(a, b, j));
        lemma_shapes_with_maybe(
            kids(walk_data, a, k, j),
            kids(walk_data, b, k, j),
            outcome(walk_data, a, j),
            outcome(walk_data, b, j),
        );
    }
}

pub(crate) proof fn lemma_similar_finals(
    walk_data: &WalkData,
    a: Seq<DirView>,
    b: Seq<DirView>,
    top_level: Seq<NodeView>,
    t: int,
)
    requires
        similar(a, b),
        0 <= t <= a.len(),
    ensures
        shapes(final_list(walk_data, a, top_level, t)) == shapes(
            final_list(walk_data, b, top_level, t),
        ),
    decreases t,
{
    if t > 0 {
        let j = t - 1;
        lemma_similar_finals(walk_data, a, b, top_level, j);
        lemma_similar_outcome(walk_data, a, b, j);
        assert(similar_at(a, b, j));
        lemma_shapes_with_maybe(
            final_list(walk_data, a, top_level, j),
            final_list(walk_data, b, top_level, j),
            outcome(walk_data, a, j),
            outcome(walk_data, b, j),
        );
    }
}

/// Handing up nodes keeps the directories in order, and in their places.
pub(crate) proof fn lemma_completed_in_order(
    walk_data: &WalkData,
    w: WalkView,
    i: int,
    brought: Option<NodeView>,
    reported: bool,
)
    requires
        is_forest(w.dirs, w.followed.len() as int),
        waits(w.dirs, i),
        0 <= i < w.dirs.len(),
    ensures
        ({
            let now = completed(walk_data, w, i, brought, reported);
            &&& is_forest(now.dirs, now.followed.len() as int)
            &&& waits(now.dirs, -1)
            &&& now.dirs.len() == w.dirs.len()
            &&& now.followed == w.followed
            &&& now.ledger == w.ledger
            &&& forall|k: int|
                0 <= k < w.dirs.len() ==> {
                    &&& (#[trigger] now.dirs[k]).dir == w.dirs[k].dir
                    &&& now.dirs[k].depth == w.dirs[k].depth
                    &&& now.dirs[k].metadata == w.dirs[k].metadata
                    &&& now.dirs[k].scanned == w.dirs[k].scanned
                }
        }),
    decreases i,
{
    let roots = w.followed.len() as int;
    lemma_received(w.dirs, i, brought, roots, Seq::empty(), false);
    let d = received(w.dirs[i], brought);
    assert(is_placed(w.dirs, i, roots));
    if d.pending == 0 {
        let node = dir_node(walk_data, d);
        let now = WalkView {
            dirs: w.dirs.update(i, DirView { children: Seq::empty(), ..d }),
            errors: if node is None && !reported {
                missing_recorded(w.errors, d.dir)
            } else {
                w.errors
            },
            ..w
        };
        match d.parent {
            Some(p) => {
                lemma_completed_in_order(walk_data, now, p as int, node, false);
            },
            None => {},
        }
    }
}

/// The directories with nodes added to what was found in each.
pub(crate) open spec fn with_all(dirs: Seq<DirView>, more: Seq<Seq<NodeView>>) -> Seq<DirView> {
    Seq::new(
        dirs.len(),
        |k: int| DirView { children: dirs[k].children + more[k], ..dirs[k] },
    )
}

/// Nodes are added only to directories that are yet to be scanned.
pub(crate) open spec fn for_unscanned(dirs: Seq<DirView>, more: Seq<Seq<NodeView>>) -> bool {
    more.len() == dirs.len() && forall|k: int|
        0 <= k < dirs.len() && (#[trigger] dirs[k]).scanned ==> more[k].len() == 0
}

/// Nodes found in directories that are yet to be scanned make no difference to
/// what is handed up.
pub(crate) proof fn lemma_completed_with_all(
    walk_data: &WalkData,
    w: WalkView,
    i: int,
    brought: Option<NodeView>,
    reported: bool,
    more: Seq<Seq<NodeView>>,
)
    requires
        is_forest(w.dirs, w.followed.len() as int),
        waits(w.dirs, i),
        0 <= i < w.dirs.len(),
        for_unscanned(w.dirs, more),
    ensures
        ({
            let v = WalkView { dirs: with_all(w.dirs, more), ..w };
            let now = completed(walk_data, w, i, brought, reported);
            let with_now = completed(walk_data, v, i, brought, reported);
            &&& similar(with_now.dirs, with_all(now.dirs, more))
            &&& with_now.top_level == now.top_level
        }),
    decreases i,
{
    let roots = w.followed.len() as int;
    let v = WalkView { dirs: with_all(w.dirs, more), ..w };
    lemma_received(w.dirs, i, brought, roots, Seq::empty(), false);
    let d = received(w.dirs[i], brought);
    let e = received(v.dirs[i], brought);
    assert(is_placed(w.dirs, i, roots));
    assert(w.dirs[i].pending == own_scan(w.dirs[i]) + live_children(w.dirs, i) + 1);
    lemma_total_not_negative(w.dirs, |x: DirView| is_live_child(x, i));
    let children = w.dirs[i].children;
    if d.pending > 0 {
        let a = v.dirs.update(i, e);
        let b = with_all(w.dirs.update(i, d), more);
        assert(shapes(a[i].children) == shapes(b[i].children)) by {
            let extra = match brought {
                Some(node) => seq![node],
                None => Seq::empty(),
            };
            assert(a[i].children =~= children + more[i] + extra);
            assert(b[i].children =~= children + extra + more[i]);
            lemma_shapes_append(children + more[i], extra);
            lemma_shapes_append(children, more[i]);
            lemma_shapes_append(children + extra, more[i]);
            lemma_shapes_append(children, extra);
            assert(shapes(children).add(shapes(more[i])).add(shapes(extra)) =~= shapes(
                children,
            ).add(shapes(extra)).add(shapes(more[i])));
        }
        assert forall|k: int| 0 <= k < a.len() implies #[trigger] similar_at(a, b, k) by {}
    } else {
        assert(w.dirs[i].scanned);
        assert(v.dirs[i].children =~= children);
        assert(d == e);
        let node = dir_node(walk_data, d);
        let now = WalkView {
            dirs: w.dirs.update(i, DirView { children: Seq::empty(), ..d }),
            errors: if node is None && !reported {
                missing_recorded(w.errors, d.dir)
            } else {
                w.errors
            },
            ..w
        };
        assert forall|k: int| 0 <= k < now.dirs.len() && (#[trigger] now.dirs[k]).scanned implies more[k].len()
            == 0 by {
            assert(w.dirs[k].scanned);
        }
        let other = WalkView { dirs: with_all(now.dirs, more), ..now };
        assert(other.dirs =~= v.dirs.update(i, DirView { children: Seq::empty(), ..e })) by {
            assert(other.dirs[i].children =~= Seq::empty());
        }
        match d.parent {
            None => {
                let (a, b) = (other.dirs, with_all(now.dirs, more));
                assert forall|k: int| 0 <= k < a.len() implies #[trigger] similar_at(
                    a,
                    b,
                    k,
                ) by {}
            },
            Some(p) => {
                lemma_completed_with_all(walk_data, now, p as int, node, false, more);
            },
        }
    }
}

/// Ending a scan does not change the trees that the walk ends with, whatever the
/// walk measures.
proof fn lemma_scan_ended_finals(walk_data: &WalkData, w: WalkView, i: int, reported: bool)
    requires
        is_forest(w.dirs, w.followed.len() as int),
        waits(w.dirs, -1),
        0 <= i < w.dirs.len(),
        !w.dirs[i].scanned,
    ensures
        final_trees(walk_data, scan_ended(walk_data, w, i, reported)) == final_trees(walk_data, w),
{
    let start = marked_scanned(w, i);
    let n = w.dirs.len() as int;
    lemma_marked_scanned(walk_data, w, i);
    lemma_completed_finals(walk_data, start, i, None, reported);
    let b = with_brought(start.dirs, i, None);
    assert forall|k: int| 0 <= k < n implies #[trigger] agree_at(b, w.dirs, k) by {}
    lemma_finals_agree(walk_data, b, w.dirs, w.top_level, n);
}

/// Taking a listing keeps the directories in order.
pub(crate) proof fn lemma_listing_in_order(
    walk_data: &WalkData,
    w: WalkView,
    i: int,
    canonical_dir: Option<PathView>,
    listing: Seq<ListedView>,
)
    requires
        is_forest(w.dirs, w.followed.len() as int),
        waits(w.dirs, -1),
        0 <= i < w.dirs.len(),
        !w.dirs[i].scanned,
        w.dirs.len() + scan_of(walk_data, w, i, canonical_dir, listing).dirs.len() <= usize::MAX,
    ensures
        ({
            let s = scan_of(walk_data, w, i, canonical_dir, listing);
            let now = listing_taken(walk_data, w, i, canonical_dir, listing);
            &&& can_branch(w.dirs, i, s.dirs)
            &&& is_forest(now.dirs, now.followed.len() as int)
            &&& waits(now.dirs, -1)
            &&& now.dirs.len() == w.dirs.len() + s.dirs.len()
            &&& !now.dirs[i].scanned
        }),
{
    let roots = w.followed.len() as int;
    let s = scan_of(walk_data, w, i, canonical_dir, listing);
    assert(is_placed(w.dirs, i, roots));
    assert forall|j: int| 0 <= j < w.dirs.len() implies ((#[trigger] w.dirs[j]).parent matches Some(
        p,
    ) ==> p < j) by {
        assert(is_placed(w.dirs, j, roots));
    }
    assert(w.dirs[i].pending == own_scan(w.dirs[i]) + live_children(w.dirs, i));
    lemma_total_not_negative(w.dirs, |d: DirView| is_live_child(d, i));
    lemma_scan_weight(
        walk_data,
        w.dirs[i].dir,
        w.dirs[i].depth,
        canonical_dir,
        scan_start(w, w.dirs[i].root as int),
        listing,
    );
    lemma_branched(w.dirs, i, s.nodes, s.dirs, roots, walk_data.by_filecount);
}

/// The state of a walk after the directory `i` was listed and its scan ended.
pub open spec fn walked(
    walk_data: &WalkData,
    w: WalkView,
    i: int,
    canonical_dir: Option<PathView>,
    listing: Seq<ListedView>,
) -> WalkView {
    scan_ended(
        walk_data,
        listing_taken(walk_data, w, i, canonical_dir, listing),
        i,
        false,
    )
}

proof fn lemma_with_one(
    dirs: Seq<DirView>,
    j: int,
    one: Seq<NodeView>,
    more: Seq<Seq<NodeView>>,
)
    requires
        0 <= j < dirs.len(),
        more.len() == dirs.len(),
        forall|k: int|
            0 <= k < dirs.len() ==> #[trigger] more[k] == if k == j {
                one
            } else {
                Seq::empty()
            },
    ensures
        with_all(dirs, more) == with_more(dirs, j, one),
{
    let (a, b) = (with_all(dirs, more), with_more(dirs, j, one));
    assert forall|k: int| 0 <= k < dirs.len() implies a[k] == b[k] by {
        assert(a[k].children =~= b[k].children);
    }
    assert(a =~= b);
}

/// For the trees that a walk ends with, a directory can be listed before or after
/// the scan of another one ends.
proof fn lemma_walked_twice(
    walk_data: &WalkData,
    w: WalkView,
    i: int,
    first_dir: Option<PathView>,
    first: Seq<ListedView>,
    j: int,
    second_dir: Option<PathView>,
    second: Seq<ListedView>,
)
    requires
        walk_data.use_apparent_size,
        !walk_data.follow_links,
        w.well_formed(walk_data),
        0 <= i < w.dirs.len(),
        0 <= j < w.dirs.len(),
        i != j,
        !w.dirs[i].scanned,
        !w.dirs[j].scanned,
        w.dirs.len() + scan_of(walk_data, w, i, first_dir, first).dirs.len() + scan_of(
            walk_data,
            w,
            j,
            second_dir,
            second,
        ).dirs.len() <= usize::MAX,
    ensures
        final_trees(
            walk_data,
            walked(
                walk_data,
                walked(walk_data, w, i, first_dir, first),
                j,
                second_dir,
                second,
            ),
        ) == final_trees(
            walk_data,
            listing_taken(
                walk_data,
                listing_taken(walk_data, w, i, first_dir, first),
                j,
                second_dir,
                second,
            ),
        ),
{
    let t = scan_of(walk_data, w, j, second_dir, second);
    let y = t.nodes + bare_nodes(walk_data, t.dirs);
    let once = listing_taken(walk_data, w, i, first_dir, first);
    lemma_listing_in_order(walk_data, w, i, first_dir, first);
    assert(once.dirs[j] == w.dirs[j]);
    let marked = marked_scanned(once, i);
    let ended = walked(walk_data, w, i, first_dir, first);
    lemma_marked_scanned(walk_data, once, i);
    lemma_completed_in_order(walk_data, marked, i, None, false);
    assert(ended.dirs[j].dir == w.dirs[j].dir);
    assert(ended.dirs[j].depth == w.dirs[j].depth);
    assert(!ended.dirs[j].scanned);
    // the listing brings the same in all three states
    lemma_scan_of_listing_alone(
        walk_data,
        w.dirs[j].dir,
        w.dirs[j].depth,
        second_dir,
        scan_start(w, w.dirs[j].root as int),
        scan_start(once, once.dirs[j].root as int),
        second,
    );
    lemma_scan_of_listing_alone(
        walk_data,
        w.dirs[j].dir,
        w.dirs[j].depth,
        second_dir,
        scan_start(w, w.dirs[j].root as int),
        scan_start(ended, ended.dirs[j].root as int),
        second,
    );
    let n = once.dirs.len() as int;
    // what is found after the scan of the other directory ended
    lemma_listing_in_order(walk_data, ended, j, second_dir, second);
    let twice = listing_taken(walk_data, ended, j, second_dir, second);
    lemma_scan_ended_finals(walk_data, twice, j, false);
    lemma_branched_finals(
        walk_data,
        ended.dirs,
        j,
        t.nodes,
        t.dirs,
        ended.top_level,
    );
    // comes to the same as what is found before
    let more = Seq::new(
        marked.dirs.len(),
        |k: int|
            if k == j {
                y
            } else {
                Seq::empty()
            },
    );
    let v = WalkView { dirs: with_all(marked.dirs, more), ..marked };
    lemma_completed_with_all(walk_data, marked, i, None, false, more);
    let other = completed(walk_data, v, i, None, false);
    lemma_with_one(ended.dirs, j, y, more);
    lemma_with_one(marked.dirs, j, y, more);
    lemma_similar_finals(
        walk_data,
        other.dirs,
        with_more(ended.dirs, j, y),
        ended.top_level,
        n,
    );
    lemma_all_in_order(marked, i, more);
    lemma_completed_finals(walk_data, v, i, None, false);
    let a = with_brought(v.dirs, i, None);
    let b = with_more(once.dirs, j, y);
    assert forall|k: int| 0 <= k < n implies #[trigger] agree_at(a, b, k) by {}
    lemma_finals_agree(walk_data, a, b, once.top_level, n);
    lemma_listing_in_order(walk_data, once, j, second_dir, second);
    lemma_branched_finals(
        walk_data,
        once.dirs,
        j,
        t.nodes,
        t.dirs,
        once.top_level,
    );
}

/// Nodes found in directories that are yet to be scanned keep the directories in
/// order.
pub(crate) proof fn lemma_all_in_order(w: WalkView, i: int, more: Seq<Seq<NodeView>>)
    requires
        is_forest(w.dirs, w.followed.len() as int),
        waits(w.dirs, i),
        for_unscanned(w.dirs, more),
    ensures
        is_forest(with_all(w.dirs, more), w.followed.len() as int),
        waits(with_all(w.dirs, more), i),
{
    let roots = w.followed.len() as int;
    let now = with_all(w.dirs, more);
    assert forall|k: int| 0 <= k < now.len() implies (#[trigger] now[k]).pending == own_scan(now[k])
        + live_children(now, k) + (if k == i {
        1int
    } else {
        0
    }) by {
        lemma_total_same(w.dirs, now, |d: DirView| is_live_child(d, k));
        assert(w.dirs[k].pending == own_scan(w.dirs[k]) + live_children(w.dirs, k) + (if k == i {
            1int
        } else {
            0
        }));
    }
    assert forall|k: int| 0 <= k < now.len() implies #[trigger] is_placed(now, k, roots) by {
        assert(is_placed(w.dirs, k, roots));
        lemma_total_not_negative(w.dirs, |d: DirView| is_live_child(d, k));
        assert(w.dirs[k].pending >= own_scan(w.dirs[k]) + live_children(w.dirs, k));
    }
}

/// By apparent size, and where links are not followed, two directories can be
/// walked in either order, each listed and its scan ended in one step: the walk
/// ends with the same trees.
pub proof fn lemma_walks_commute(
    walk_data: &WalkData,
    w: WalkView,
    i: int,
    first_dir: Option<PathView>,
    first: Seq<ListedView>,
    j: int,
    second_dir: Option<PathView>,
    second: Seq<ListedView>,
)
    requires
        walk_data.use_apparent_size,
        !walk_data.follow_links,
        w.well_formed(walk_data),
        0 <= i < w.dirs.len(),
        0 <= j < w.dirs.len(),
        i != j,
        !w.dirs[i].scanned,
        !w.dirs[j].scanned,
        w.dirs.len() + scan_of(walk_data, w, i, first_dir, first).dirs.len() + scan_of(
            walk_data,
            w,
            j,
            second_dir,
            second,
        ).dirs.len() <= usize::MAX,
    ensures
        final_trees(
            walk_data,
            walked(
                walk_data,
                walked(walk_data, w, i, first_dir, first),
                j,
                second_dir,
                second,
            ),
        ) == final_trees(
            walk_data,
            walked(
                walk_data,
                walked(walk_data, w, j, second_dir, second),
                i,
                first_dir,
                first,
            ),
        ),
{
    lemma_walked_twice(walk_data, w, i, first_dir, first, j, second_dir, second);
    lemma_walked_twice(walk_data, w, j, second_dir, second, i, first_dir, first);
    lemma_listings_commute(walk_data, w, i, first_dir, first, j, second_dir, second);
}

} // verus!
