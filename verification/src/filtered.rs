//! Whole walks under filters: which files are in the trees that a walk ends with,
//! and what they measure together.

use vstd::prelude::*;

use crate::accounting::{
    dir_fits, dirs_inherit, files_in, is_inherited, lemma_handed_up_all,
    lemma_no_part_exceeds_the_whole, lemma_root_keeps_all, lemma_sizes_count_files, list_all,
    tree_capped, tree_counts_files, walk_all,
};
use crate::dir_walker::{
    leaf_node, listing_scanned, missing_recorded, passed_over, EntryKind, EntryView, ListedView,
    ScanView, WalkData,
};
use crate::exclusion::{lemma_expressions_hold, lemma_rejected_measures_nothing};
use crate::history::{
    in_order, leads, lemma_completed_len, lemma_history_in_order, Deed, Disk, History,
};
use crate::node::{own_size, NodeView};
use crate::path::{path_text, PathView};
use crate::pattern::found_in;
use crate::schedule::lemma_listing_in_order;
use crate::sums::{lemma_total_not_negative, lemma_total_push};
use crate::totals::fits;
use crate::walk::{
    attempt_failure, attempt_recorded, carried_size, class_recorded, completed, dir_node, is_forest,
    is_placed, lemma_branched, lemma_dir_node_size, lemma_marked_scanned, lemma_received,
    lemma_scan_weight, lemma_total_load_not_negative, listing_taken, load, marked_scanned,
    path_class, received, root_dir, scan_ended, scan_of, scan_start, total_load, total_size,
    tried_again, waits, DirView, PathClass, WalkView,
};

verus! {

// --------------------------------------------------------------------------
// What holds of every tree of a walk
// --------------------------------------------------------------------------

/// The walk passes an entry over.
pub open spec fn is_left_out(
    walk_data: &WalkData,
    canonical_dir: Option<PathView>,
    e: EntryView,
) -> bool {
    passed_over(
        walk_data,
        e.path,
        e.kind == Some(EntryKind::File),
        e.metadata,
        canonical_dir,
        e.resolved,
    )
}

/// Something holds of every leaf that the walk does not pass over.
pub open spec fn leaves_have(walk_data: &WalkData, p: spec_fn(NodeView) -> bool) -> bool {
    forall|depth: usize, e: EntryView, canonical_dir: Option<PathView>|
        #![trigger leaf_node(walk_data, depth, e), is_left_out(walk_data, canonical_dir, e)]
        !is_left_out(walk_data, canonical_dir, e) ==> (leaf_node(
            walk_data,
            depth,
            e,
        ) matches Some(node) ==> p(node))
}

proof fn lemma_leaves_have(
    walk_data: &WalkData,
    p: spec_fn(NodeView) -> bool,
    dir: PathView,
    depth: usize,
    canonical_dir: Option<PathView>,
    start: ScanView,
    listing: Seq<ListedView>,
)
    requires
        start.nodes.len() == 0,
        leaves_have(walk_data, p),
    ensures
        list_all(
            p,
            listing_scanned(walk_data, dir, depth, canonical_dir, start, listing).nodes,
        ),
    decreases listing.len(),
{
    if listing.len() > 0 {
        let rest = listing.drop_last();
        lemma_leaves_have(walk_data, p, dir, depth, canonical_dir, start, rest);
        let before = listing_scanned(walk_data, dir, depth, canonical_dir, start, rest);
        let now = listing_scanned(walk_data, dir, depth, canonical_dir, start, listing);
        assert forall|i: int| 0 <= i < now.nodes.len() implies p(#[trigger] now.nodes[i]) by {
            if i < before.nodes.len() {
                assert(now.nodes[i] == before.nodes[i]);
            } else {
                let e = listing.last()->Found_0;
                assert(leaf_node(walk_data, depth, e) == Some(now.nodes[i]));
                assert(!is_left_out(walk_data, canonical_dir, e));
            }
        }
    }
}

/// What the walk can come to can be held.
spec fn is_held(walk_data: &WalkData, w: WalkView) -> bool {
    *walk_data.by_filetime is None ==> total_load(walk_data.by_filecount, w.dirs) + total_size(
        w.top_level,
    ) <= w.ledger
}

proof fn lemma_handed_up_held(
    walk_data: &WalkData,
    w: WalkView,
    i: int,
    brought: Option<NodeView>,
    reported: bool,
)
    requires
        *walk_data.by_filetime is None,
        is_forest(w.dirs, w.followed.len() as int),
        waits(w.dirs, i),
        total_load(walk_data.by_filecount, w.dirs) + carried_size(brought) + total_size(
            w.top_level,
        ) <= u64::MAX,
        0 <= i < w.dirs.len(),
    ensures
        ({
            let now = completed(walk_data, w, i, brought, reported);
            &&& total_load(walk_data.by_filecount, now.dirs) + total_size(now.top_level)
                <= total_load(walk_data.by_filecount, w.dirs) + carried_size(brought) + total_size(
                w.top_level,
            )
            &&& now.ledger == w.ledger
        }),
    decreases i,
{
    let g = |n: NodeView| n.size as int;
    let roots = w.followed.len() as int;
    lemma_received(w.dirs, i, brought, roots, Seq::empty(), walk_data.by_filecount);
    let d = received(w.dirs[i], brought);
    if d.pending == 0 {
        let node = dir_node(walk_data, d);
        let now = WalkView {
            dirs: w.dirs.update(i, DirView { children: Seq::empty(), ..d }),
            errors: if node is None && !reported {
                missing_recorded(w.errors, d.dir)
            } else {
                w.errors
            },
            ..w
        };
        lemma_total_load_not_negative(now.dirs, walk_data.by_filecount);
        lemma_total_not_negative(w.top_level, g);
        lemma_total_not_negative(d.children, g);
        lemma_dir_node_size(walk_data, d);
        assert(is_placed(w.dirs, i, roots));
        match d.parent {
            None => {
                if node is Some {
                    lemma_total_push(w.top_level, node->Some_0, g);
                }
            },
            Some(p) => {
                lemma_handed_up_held(walk_data, now, p as int, node, false);
            },
        }
    }
}

proof fn lemma_scan_ended_has(
    walk_data: &WalkData,
    p: spec_fn(NodeView) -> bool,
    w: WalkView,
    i: int,
    reported: bool,
)
    requires
        dirs_inherit(walk_data, p),
        walk_all(p, w),
        in_order(w),
        is_held(walk_data, w),
        0 <= i < w.dirs.len(),
        !w.dirs[i].scanned,
    ensures
        walk_all(p, scan_ended(walk_data, w, i, reported)),
        is_held(walk_data, scan_ended(walk_data, w, i, reported)),
{
    let m = marked_scanned(w, i);
    lemma_marked_scanned(walk_data, w, i);
    assert forall|k: int| 0 <= k < m.dirs.len() implies list_all(
        p,
        (#[trigger] m.dirs[k]).children,
    ) by {
        assert(list_all(p, w.dirs[k].children));
    }
    lemma_handed_up_all(walk_data, p, m, i, None, reported);
    if *walk_data.by_filetime is None {
        lemma_handed_up_held(walk_data, m, i, None, reported);
    }
}

proof fn lemma_listing_has(
    walk_data: &WalkData,
    p: spec_fn(NodeView) -> bool,
    w: WalkView,
    i: int,
    canonical_dir: Option<PathView>,
    listing: Seq<ListedView>,
)
    requires
        leaves_have(walk_data, p),
        walk_all(p, w),
        0 <= i < w.dirs.len(),
    ensures
        walk_all(p, listing_taken(walk_data, w, i, canonical_dir, listing)),
{
    let s = scan_of(walk_data, w, i, canonical_dir, listing);
    let now = listing_taken(walk_data, w, i, canonical_dir, listing);
    let start = scan_start(w, w.dirs[i].root as int);
    lemma_leaves_have(
        walk_data,
        p,
        w.dirs[i].dir,
        w.dirs[i].depth,
        canonical_dir,
        start,
        listing,
    );
    assert forall|k: int| 0 <= k < now.dirs.len() implies list_all(
        p,
        (#[trigger] now.dirs[k]).children,
    ) by {
        if k == i {
            let (a, b) = (w.dirs[i].children, s.nodes);
            assert(now.dirs[k].children == a + b);
            assert(list_all(p, w.dirs[i].children));
            assert forall|j: int| 0 <= j < (a + b).len() implies p(#[trigger] (a + b)[j]) by {
                if j < a.len() {
                    assert((a + b)[j] == a[j]);
                } else {
                    assert((a + b)[j] == b[j - a.len()]);
                }
            }
        } else if k < w.dirs.len() {
            assert(now.dirs[k] == w.dirs[k]);
        } else {
            assert(now.dirs[k].children.len() == 0);
        }
    }
}

proof fn lemma_deed_has(
    walk_data: &WalkData,
    p: spec_fn(NodeView) -> bool,
    disk: Disk,
    w: WalkView,
    deed: Deed,
    now: WalkView,
)
    requires
        leaves_have(walk_data, p),
        dirs_inherit(walk_data, p),
        walk_all(p, w),
        in_order(w),
        is_held(walk_data, w),
        leads(walk_data, disk, w, deed, now),
        fits(walk_data, disk, w, deed),
        now.dirs.len() <= usize::MAX,
    ensures
        walk_all(p, now),
        is_held(walk_data, now),
{
    match deed {
        Deed::Root(d, metadata) => {
            lemma_root_keeps_all(walk_data, p, w, d, metadata);
            let root = root_dir(d, metadata, w.followed.len() as int);
            lemma_total_push(w.dirs, root, |x: DirView| load(walk_data.by_filecount, x));
            assert(total_size(root.children) == 0);
        },
        Deed::Looked(i, facts, action) => {
            let class = path_class(w.dirs[i].kind, facts);
            let seen = WalkView { errors: class_recorded(w.errors, class, w.dirs[i].dir), ..w };
            assert(walk_all(p, seen));
            if class != PathClass::Directory {
                lemma_scan_ended_has(walk_data, p, seen, i, class != PathClass::File);
            }
        },
        Deed::Read(i, reading, retries, action) => {
            match attempt_failure(reading) {
                Some((kind, message)) => {
                    let failed = WalkView {
                        errors: attempt_recorded(
                            w.errors,
                            kind,
                            message,
                            w.dirs[i].dir,
                            retries,
                        ),
                        ..w
                    };
                    assert(walk_all(p, failed));
                    if !tried_again(kind, retries) {
                        lemma_scan_ended_has(walk_data, p, failed, i, false);
                    }
                },
                None => {
                    let dir = w.dirs[i].dir;
                    let depth = w.dirs[i].depth;
                    let (canonical, listing) = ((disk.canonical)(dir), (disk.listing)(dir));
                    let s = scan_of(walk_data, w, i, canonical, listing);
                    let taken = listing_taken(walk_data, w, i, canonical, listing);
                    let start = scan_start(w, w.dirs[i].root as int);
                    lemma_completed_len(walk_data, marked_scanned(taken, i), i, None, false);
                    lemma_listing_in_order(walk_data, w, i, canonical, listing);
                    assert(is_placed(w.dirs, i, w.followed.len() as int));
                    lemma_scan_weight(walk_data, dir, depth, canonical, start, listing);
                    lemma_branched(
                        w.dirs,
                        i,
                        s.nodes,
                        s.dirs,
                        w.followed.len() as int,
                        walk_data.by_filecount,
                    );
                    lemma_listing_has(walk_data, p, w, i, canonical, listing);
                    lemma_scan_ended_has(walk_data, p, taken, i, false);
                },
            }
        },
        Deed::Ended => {
            assert(walk_all(p, now));
        },
    }
}

/// What holds of every leaf that is not passed over, and of a directory where it
/// holds of everything in it, holds of every tree of a walk at every moment.
pub proof fn lemma_every_tree_has(
    walk_data: &WalkData,
    p: spec_fn(NodeView) -> bool,
    disk: Disk,
    h: History,
    k: int,
)
    requires
        leaves_have(walk_data, p),
        dirs_inherit(walk_data, p),
        h.happened(walk_data, disk),
        forall|j: int|
            0 <= j < h.deeds.len() ==> fits(walk_data, disk, h.states[j], #[trigger] h.deeds[j]),
        0 <= k < h.states.len(),
    ensures
        walk_all(p, h.states[k]),
        list_all(p, h.states[k].top_level),
{
    lemma_every_state_has(walk_data, p, disk, h, k);
}

proof fn lemma_every_state_has(
    walk_data: &WalkData,
    p: spec_fn(NodeView) -> bool,
    disk: Disk,
    h: History,
    k: int,
)
    requires
        leaves_have(walk_data, p),
        dirs_inherit(walk_data, p),
        h.happened(walk_data, disk),
        forall|j: int|
            0 <= j < h.deeds.len() ==> fits(walk_data, disk, h.states[j], #[trigger] h.deeds[j]),
        0 <= k < h.states.len(),
    ensures
        walk_all(p, h.states[k]),
        is_held(walk_data, h.states[k]),
    decreases k,
{
    if k > 0 {
        let (w, deed, now) = (h.states[k - 1], h.deeds[k - 1], h.states[k]);
        assert(h.follows(walk_data, disk, k - 1));
        lemma_history_in_order(walk_data, disk, h, k - 1);
        lemma_every_state_has(walk_data, p, disk, h, k - 1);
        lemma_deed_has(walk_data, p, disk, w, deed, now);
    }
}

/// Whatever is inherited holds of every tree of a walk.
proof fn lemma_inherited_is_had(walk_data: &WalkData, p: spec_fn(NodeView) -> bool)
    requires
        is_inherited(walk_data, p),
    ensures
        leaves_have(walk_data, p),
        dirs_inherit(walk_data, p),
{
}

/// Where files are counted, every tree of a walk measures the number of files in
/// it.
pub proof fn lemma_files_are_counted(walk_data: &WalkData, disk: Disk, h: History, k: int, i: int)
    requires
        walk_data.by_filecount,
        *walk_data.by_filetime is None,
        h.happened(walk_data, disk),
        forall|j: int|
            0 <= j < h.deeds.len() ==> fits(walk_data, disk, h.states[j], #[trigger] h.deeds[j]),
        0 <= k < h.states.len(),
        0 <= i < h.states[k].top_level.len(),
    ensures
        h.states[k].top_level[i].size == files_in(h.states[k].top_level[i]),
{
    let p = |n: NodeView| tree_counts_files(n);
    lemma_sizes_count_files(walk_data);
    lemma_inherited_is_had(walk_data, p);
    lemma_every_tree_has(walk_data, p, disk, h, k);
    assert(p(h.states[k].top_level[i]));
}

/// In every tree of a walk nothing measures more than what it lies in.
pub proof fn lemma_trees_are_capped(walk_data: &WalkData, disk: Disk, h: History, k: int, i: int)
    requires
        h.happened(walk_data, disk),
        forall|j: int|
            0 <= j < h.deeds.len() ==> fits(walk_data, disk, h.states[j], #[trigger] h.deeds[j]),
        0 <= k < h.states.len(),
        0 <= i < h.states[k].top_level.len(),
    ensures
        tree_capped(h.states[k].top_level[i]),
{
    let p = |n: NodeView| tree_capped(n);
    lemma_no_part_exceeds_the_whole(walk_data);
    lemma_inherited_is_had(walk_data, p);
    lemma_every_tree_has(walk_data, p, disk, h, k);
    assert(p(h.states[k].top_level[i]));
}

// --------------------------------------------------------------------------
// Files
// --------------------------------------------------------------------------

/// Something holds of every file at or below a node.
pub open spec fn all_files(node: NodeView, p: spec_fn(NodeView) -> bool) -> bool
    decreases node,
{
    &&& node.is_file ==> p(node)
    &&& forall|i: int| 0 <= i < node.children.len() ==> all_files(#[trigger] node.children[i], p)
}

/// Something holds of everything at or below a node that is no file.
pub open spec fn all_others(node: NodeView, p: spec_fn(NodeView) -> bool) -> bool
    decreases node,
{
    &&& !node.is_file ==> p(node)
    &&& forall|i: int| 0 <= i < node.children.len() ==> all_others(#[trigger] node.children[i], p)
}

/// What the files at or below a node measure together.
pub open spec fn size_of_files(node: NodeView) -> int
    decreases node, 1nat,
{
    (if node.is_file {
        node.size as int
    } else {
        0
    }) + size_of_all_files(node.children)
}

/// What the files of a list of trees measure together.
pub open spec fn size_of_all_files(nodes: Seq<NodeView>) -> int
    decreases nodes, 0nat,
{
    if nodes.len() == 0 {
        0
    } else {
        size_of_all_files(nodes.drop_last()) + size_of_files(nodes.last())
    }
}

/// One of the expressions is found in the name of a node.
pub open spec fn is_matched_by(regexes: Seq<regex::Regex>, node: NodeView) -> bool {
    exists|k: int| 0 <= k < regexes.len() && found_in(#[trigger] regexes[k], path_text(node.name))
}

/// Where files are picked by expressions, every file in the trees of a walk is one
/// in whose path one of them is found.
pub proof fn lemma_only_matching_files(walk_data: &WalkData, disk: Disk, h: History, k: int, i: int)
    requires
        walk_data.filter_regex@.len() > 0,
        h.happened(walk_data, disk),
        forall|j: int|
            0 <= j < h.deeds.len() ==> fits(walk_data, disk, h.states[j], #[trigger] h.deeds[j]),
        0 <= k < h.states.len(),
        0 <= i < h.states[k].top_level.len(),
    ensures
        all_files(
            h.states[k].top_level[i],
            |n: NodeView| is_matched_by(walk_data.filter_regex@, n),
        ),
{
    let q = |n: NodeView| is_matched_by(walk_data.filter_regex@, n);
    let p = |n: NodeView| all_files(n, q);
    lemma_files_inherit(walk_data, q);
    assert(leaves_have(walk_data, p)) by {
        assert forall|depth: usize, e: EntryView, canonical_dir: Option<PathView>|
            #![trigger leaf_node(walk_data, depth, e), is_left_out(walk_data, canonical_dir, e)]
            !is_left_out(walk_data, canonical_dir, e) implies (leaf_node(
            walk_data,
            depth,
            e,
        ) matches Some(node) ==> p(node)) by {
            lemma_expressions_hold(walk_data, e.path, e.metadata, canonical_dir, e.resolved);
            if let Some(node) = leaf_node(walk_data, depth, e) {
                if node.is_file && !q(node) {
                    assert forall|k: int| 0 <= k < walk_data.filter_regex@.len() implies !found_in(
                        #[trigger] walk_data.filter_regex@[k],
                        path_text(e.path),
                    ) by {}
                }
            }
        }
    }
    lemma_every_tree_has(walk_data, p, disk, h, k);
    assert(p(h.states[k].top_level[i]));
}

/// No file in the trees of a walk is one in whose path an expression is found that
/// files are to be free of.
pub proof fn lemma_no_excluded_files(walk_data: &WalkData, disk: Disk, h: History, k: int, i: int)
    requires
        h.happened(walk_data, disk),
        forall|j: int|
            0 <= j < h.deeds.len() ==> fits(walk_data, disk, h.states[j], #[trigger] h.deeds[j]),
        0 <= k < h.states.len(),
        0 <= i < h.states[k].top_level.len(),
    ensures
        all_files(
            h.states[k].top_level[i],
            |n: NodeView| !is_matched_by(walk_data.invert_filter_regex@, n),
        ),
{
    let q = |n: NodeView| !is_matched_by(walk_data.invert_filter_regex@, n);
    let p = |n: NodeView| all_files(n, q);
    lemma_files_inherit(walk_data, q);
    assert(leaves_have(walk_data, p)) by {
        assert forall|depth: usize, e: EntryView, canonical_dir: Option<PathView>|
            #![trigger leaf_node(walk_data, depth, e), is_left_out(walk_data, canonical_dir, e)]
            !is_left_out(walk_data, canonical_dir, e) implies (leaf_node(
            walk_data,
            depth,
            e,
        ) matches Some(node) ==> p(node)) by {
            lemma_expressions_hold(walk_data, e.path, e.metadata, canonical_dir, e.resolved);
        }
    }
    lemma_every_tree_has(walk_data, p, disk, h, k);
    assert(p(h.states[k].top_level[i]));
}

/// A directory holds the files that are in it.
proof fn lemma_files_inherit(walk_data: &WalkData, q: spec_fn(NodeView) -> bool)
    ensures
        dirs_inherit(walk_data, |n: NodeView| all_files(n, q)),
{
    let p = |n: NodeView| all_files(n, q);
    assert forall|d: DirView| dir_fits(walk_data, d) && list_all(p, d.children) implies ((
    #[trigger] dir_node(walk_data, d)) matches Some(node) ==> p(node)) by {
        if d.metadata is Some {
            let n = dir_node(walk_data, d)->Some_0;
            assert forall|k: int| 0 <= k < n.children.len() implies all_files(
                #[trigger] n.children[k],
                q,
            ) by {
                assert(p(d.children[k]));
            }
        }
    }
}

proof fn lemma_sizes_of_files(nodes: Seq<NodeView>)
    requires
        forall|i: int|
            0 <= i < nodes.len() ==> (#[trigger] nodes[i]).size == size_of_files(nodes[i]),
    ensures
        total_size(nodes) == size_of_all_files(nodes),
    decreases nodes.len(),
{
    if nodes.len() > 0 {
        let rest = nodes.drop_last();
        assert forall|i: int| 0 <= i < rest.len() implies (#[trigger] rest[i]).size
            == size_of_files(rest[i]) by {
            assert(rest[i] == nodes[i]);
        }
        lemma_sizes_of_files(rest);
        assert(nodes.last() == nodes[nodes.len() - 1]);
    }
}

/// Where files are picked by expressions, and none of them is found in the path of
/// anything that is no file, a tree measures what the files in it measure together:
/// directories add nothing of their own.
pub proof fn lemma_matching_files_make_the_total(
    walk_data: &WalkData,
    disk: Disk,
    h: History,
    k: int,
    i: int,
)
    requires
        walk_data.filter_regex@.len() > 0,
        *walk_data.by_filetime is None,
        h.happened(walk_data, disk),
        forall|j: int|
            0 <= j < h.deeds.len() ==> fits(walk_data, disk, h.states[j], #[trigger] h.deeds[j]),
        0 <= k < h.states.len(),
        0 <= i < h.states[k].top_level.len(),
        all_others(
            h.states[k].top_level[i],
            |n: NodeView| !is_matched_by(walk_data.filter_regex@, n),
        ),
    ensures
        h.states[k].top_level[i].size == size_of_files(h.states[k].top_level[i]),
{
    let q = |n: NodeView| !is_matched_by(walk_data.filter_regex@, n);
    let p = |n: NodeView| all_others(n, q) ==> n.size == size_of_files(n);
    assert(leaves_have(walk_data, p)) by {
        assert forall|depth: usize, e: EntryView, canonical_dir: Option<PathView>|
            #![trigger leaf_node(walk_data, depth, e), is_left_out(walk_data, canonical_dir, e)]
            !is_left_out(walk_data, canonical_dir, e) implies (leaf_node(
            walk_data,
            depth,
            e,
        ) matches Some(node) ==> p(node)) by {
            if let Some(node) = leaf_node(walk_data, depth, e) {
                assert(size_of_all_files(node.children) == 0);
                if !node.is_file && all_others(node, q) {
                    lemma_unmatched_measures_nothing(
                        walk_data,
                        node,
                        e.metadata->Some_0,
                    );
                }
            }
        }
    }
    assert(dirs_inherit(walk_data, p)) by {
        assert forall|d: DirView| dir_fits(walk_data, d) && list_all(p, d.children) implies ((
        #[trigger] dir_node(walk_data, d)) matches Some(node) ==> p(node)) by {
            if d.metadata is Some {
                let n = dir_node(walk_data, d)->Some_0;
                if all_others(n, q) {
                    assert forall|j: int| 0 <= j < n.children.len() implies (
                    #[trigger] n.children[j]).size == size_of_files(n.children[j]) by {
                        assert(p(d.children[j]));
                    }
                    lemma_sizes_of_files(n.children);
                    lemma_unmatched_measures_nothing(walk_data, n, d.metadata->Some_0);
                    lemma_dir_node_size(walk_data, d);
                    lemma_total_not_negative(d.children, |c: NodeView| c.size as int);
                }
            }
        }
    }
    lemma_every_tree_has(walk_data, p, disk, h, k);
    assert(p(h.states[k].top_level[i]));
}

proof fn lemma_unmatched_measures_nothing(
    walk_data: &WalkData,
    node: NodeView,
    data: crate::node::EntryMetadata,
)
    requires
        walk_data.filter_regex@.len() > 0,
        !is_matched_by(walk_data.filter_regex@, node),
    ensures
        own_size(walk_data, node.name, false, false, data) == 0,
{
    lemma_rejected_measures_nothing(walk_data, node.name, false, data);
    assert forall|k: int| 0 <= k < walk_data.filter_regex@.len() implies !found_in(
        #[trigger] walk_data.filter_regex@[k],
        path_text(node.name),
    ) by {}
}

} // verus!
