//! No file is counted twice: where hard links are told apart by identity, every
//! identity occurs at most once in the trees of a walk.

use vstd::prelude::*;

use crate::accounting::lemma_scan_keeps_identities;
use crate::dir_walker::{
    id_of, leaf_node, listing_scanned, missing_recorded, subdirectory, ListedView, ScanView,
    SubdirectoryView, WalkData,
};
use crate::inode_set::FileId;
use crate::node::{EntryMetadata, NodeView};
use crate::path::PathView;
use crate::sums::{
    lemma_total_append, lemma_total_not_negative, lemma_total_push, lemma_total_update, total,
};
use crate::walk::{
    branch, completed, dir_node, is_forest, is_live_child, is_placed, lemma_marked_scanned,
    lemma_received, listing_taken, live_children, marked_scanned, own_scan, received, root_added,
    root_dir, scan_of, scan_start, waits, DirView, WalkView,
};

verus! {

/// One where an identity is this one, and else zero.
pub open spec fn is_id(found: Option<FileId>, id: FileId) -> int {
    if found == Some(id) {
        1
    } else {
        0
    }
}

/// How often an identity occurs in a tree.
pub open spec fn occurrences(id: FileId, node: NodeView) -> int
    decreases node, 1nat,
{
    is_id(node.inode_device, id) + list_occurrences(id, node.children)
}

/// How often an identity occurs in a list of trees.
pub open spec fn list_occurrences(id: FileId, nodes: Seq<NodeView>) -> int
    decreases nodes, 0nat,
{
    if nodes.len() == 0 {
        0
    } else {
        list_occurrences(id, nodes.drop_last()) + occurrences(id, nodes.last())
    }
}

/// How often an identity occurs at a directory under way and in what was found
/// in it.
pub open spec fn held_occurrences(id: FileId, d: DirView) -> int {
    if d.pending > 0 {
        is_id(id_of(d.metadata), id) + list_occurrences(id, d.children)
    } else {
        0
    }
}

/// How often an identity was counted in a walk.
pub open spec fn times_counted(id: FileId, w: WalkView) -> int {
    total(w.dirs, |d: DirView| held_occurrences(id, d)) + list_occurrences(id, w.top_level)
}

/// Every identity was counted at most once, and none that was not claimed.
pub open spec fn counted_once(w: WalkView) -> bool {
    forall|id: FileId| #[trigger]
        times_counted(id, w) <= (if w.inodes.contains(id) {
            1int
        } else {
            0
        })
}

/// How often an identity occurs among directories that were found.
pub open spec fn found_occurrences(id: FileId, dirs: Seq<SubdirectoryView>) -> int {
    total(dirs, |d: SubdirectoryView| is_id(id_of(d.metadata), id))
}

proof fn lemma_occurrences_not_negative(id: FileId, node: NodeView)
    ensures
        0 <= occurrences(id, node),
    decreases node, 1nat,
{
    lemma_list_occurrences_not_negative(id, node.children);
}

proof fn lemma_list_occurrences_not_negative(id: FileId, nodes: Seq<NodeView>)
    ensures
        0 <= list_occurrences(id, nodes),
    decreases nodes, 0nat,
{
    if nodes.len() > 0 {
        lemma_list_occurrences_not_negative(id, nodes.drop_last());
        lemma_occurrences_not_negative(id, nodes.last());
    }
}

proof fn lemma_list_occurrences_push(id: FileId, nodes: Seq<NodeView>, node: NodeView)
    ensures
        list_occurrences(id, nodes.push(node)) == list_occurrences(id, nodes) + occurrences(
            id,
            node,
        ),
{
    assert(nodes.push(node).drop_last() =~= nodes);
}

proof fn lemma_list_occurrences_append(id: FileId, s: Seq<NodeView>, t: Seq<NodeView>)
    ensures
        list_occurrences(id, s + t) == list_occurrences(id, s) + list_occurrences(id, t),
    decreases t.len(),
{
    if t.len() == 0 {
        assert(s + t =~= s);
    } else {
        assert((s + t).drop_last() =~= s + t.drop_last());
        lemma_list_occurrences_append(id, s, t.drop_last());
    }
}

/// A scan counts no identity that was claimed, and each other one at most once.
proof fn lemma_scan_counts_once(
    walk_data: &WalkData,
    dir: PathView,
    depth: usize,
    canonical_dir: Option<PathView>,
    start: ScanView,
    listing: Seq<ListedView>,
    id: FileId,
)
    requires
        !walk_data.use_apparent_size,
        start.nodes.len() == 0,
        start.dirs.len() == 0,
    ensures
        ({
            let s = listing_scanned(walk_data, dir, depth, canonical_dir, start, listing);
            list_occurrences(id, s.nodes) + found_occurrences(id, s.dirs) <= (if s.inodes.contains(
                id,
            ) && !start.inodes.contains(id) {
                1int
            } else {
                0
            })
        }),
    decreases listing.len(),
{
    if listing.len() > 0 {
        let rest = listing.drop_last();
        lemma_scan_counts_once(walk_data, dir, depth, canonical_dir, start, rest, id);
        lemma_scan_keeps_identities(walk_data, dir, depth, canonical_dir, start, rest);
        let before = listing_scanned(walk_data, dir, depth, canonical_dir, start, rest);
        match listing.last() {
            ListedView::Found(e) => {
                lemma_total_push(
                    before.dirs,
                    subdirectory(depth, e),
                    |d: SubdirectoryView| is_id(id_of(d.metadata), id),
                );
                if leaf_node(walk_data, depth, e) is Some {
                    let node = leaf_node(walk_data, depth, e)->Some_0;
                    lemma_list_occurrences_push(id, before.nodes, node);
                    assert(list_occurrences(id, node.children) == 0);
                    assert(occurrences(id, node) == is_id(id_of(e.metadata), id));
                }
            },
            ListedView::Failed(_, _) => {},
        }
    }
}

proof fn lemma_branches_counted(id: FileId, root: usize, i: int, dirs: Seq<SubdirectoryView>)
    ensures
        total(
            dirs.map_values(|d: SubdirectoryView| branch(root, i, d)),
            |d: DirView| held_occurrences(id, d),
        ) == found_occurrences(id, dirs),
    decreases dirs.len(),
{
    let make = |d: SubdirectoryView| branch(root, i, d);
    if dirs.len() > 0 {
        lemma_branches_counted(id, root, i, dirs.drop_last());
        assert(dirs.map_values(make).drop_last() =~= dirs.drop_last().map_values(make));
        assert(list_occurrences(id, make(dirs.last()).children) == 0);
    }
}

/// A walk without roots has counted nothing.
pub proof fn lemma_empty_walk_counts_once()
    ensures
        counted_once(crate::walk::empty_walk()),
{
}

/// Adding a root counts nothing twice.
pub proof fn lemma_root_counts_once(
    walk_data: &WalkData,
    w: WalkView,
    d: PathView,
    metadata: Option<EntryMetadata>,
)
    requires
        !walk_data.use_apparent_size,
        counted_once(w),
    ensures
        counted_once(root_added(walk_data, w, d, metadata)),
{
    let now = root_added(walk_data, w, d, metadata);
    assert forall|id: FileId| #[trigger] times_counted(id, now) <= (if now.inodes.contains(id) {
        1int
    } else {
        0
    }) by {
        assert(times_counted(id, w) <= (if w.inodes.contains(id) {
            1int
        } else {
            0
        }));
        let f = |x: DirView| held_occurrences(id, x);
        let root = root_dir(d, metadata, w.followed.len() as int);
        lemma_total_push(w.dirs, root, f);
        assert(list_occurrences(id, root.children) == 0);
    }
}

/// Taking a listing counts nothing twice.
pub proof fn lemma_listing_counts_once(
    walk_data: &WalkData,
    w: WalkView,
    i: int,
    canonical_dir: Option<PathView>,
    listing: Seq<ListedView>,
)
    requires
        !walk_data.use_apparent_size,
        is_forest(w.dirs, w.followed.len() as int),
        waits(w.dirs, -1),
        0 <= i < w.dirs.len(),
        !w.dirs[i].scanned,
        w.dirs[i].pending + scan_of(walk_data, w, i, canonical_dir, listing).dirs.len()
            <= usize::MAX,
        counted_once(w),
    ensures
        counted_once(listing_taken(walk_data, w, i, canonical_dir, listing)),
{
    let now = listing_taken(walk_data, w, i, canonical_dir, listing);
    let s = scan_of(walk_data, w, i, canonical_dir, listing);
    let start = scan_start(w, w.dirs[i].root as int);
    let grown = DirView {
        pending: (w.dirs[i].pending + s.dirs.len()) as usize,
        children: w.dirs[i].children + s.nodes,
        ..w.dirs[i]
    };
    let make = |d: SubdirectoryView| branch(w.dirs[i].root, i, d);
    assert(w.dirs[i].pending > 0) by {
        assert(w.dirs[i].pending == own_scan(w.dirs[i]) + live_children(w.dirs, i));
        lemma_total_not_negative(w.dirs, |d: DirView| is_live_child(d, i));
    }
    lemma_scan_keeps_identities(
        walk_data,
        w.dirs[i].dir,
        w.dirs[i].depth,
        canonical_dir,
        start,
        listing,
    );
    assert forall|id: FileId| #[trigger] times_counted(id, now) <= (if now.inodes.contains(id) {
        1int
    } else {
        0
    }) by {
        let f = |d: DirView| held_occurrences(id, d);
        assert(times_counted(id, w) <= (if w.inodes.contains(id) {
            1int
        } else {
            0
        }));
        lemma_scan_counts_once(
            walk_data,
            w.dirs[i].dir,
            w.dirs[i].depth,
            canonical_dir,
            start,
            listing,
            id,
        );
        lemma_total_update(w.dirs, i, grown, f);
        lemma_list_occurrences_append(id, w.dirs[i].children, s.nodes);
        lemma_total_append(w.dirs.update(i, grown), s.dirs.map_values(make), f);
        lemma_branches_counted(id, w.dirs[i].root, i, s.dirs);
        assert(now.dirs == w.dirs.update(i, grown) + s.dirs.map_values(make));
    }
}

/// How often an identity occurs in a node on its way up.
spec fn carried_occurrences(id: FileId, brought: Option<NodeView>) -> int {
    match brought {
        Some(node) => occurrences(id, node),
        None => 0,
    }
}

proof fn lemma_handed_up_counts(
    walk_data: &WalkData,
    w: WalkView,
    i: int,
    brought: Option<NodeView>,
    reported: bool,
    id: FileId,
)
    requires
        is_forest(w.dirs, w.followed.len() as int),
        waits(w.dirs, i),
        0 <= i < w.dirs.len(),
    ensures
        times_counted(id, completed(walk_data, w, i, brought, reported)) <= times_counted(id, w)
            + carried_occurrences(id, brought),
        completed(walk_data, w, i, brought, reported).inodes == w.inodes,
    decreases i,
{
    let f = |x: DirView| held_occurrences(id, x);
    let roots = w.followed.len() as int;
    lemma_received(w.dirs, i, brought, roots, Seq::empty(), false);
    let d = received(w.dirs[i], brought);
    if brought is Some {
        lemma_list_occurrences_push(id, w.dirs[i].children, brought->Some_0);
    }
    if d.pending > 0 {
        lemma_total_update(w.dirs, i, d, f);
    } else {
        let done = DirView { children: Seq::empty(), ..d };
        let node = dir_node(walk_data, d);
        lemma_total_update(w.dirs, i, done, f);
        lemma_list_occurrences_not_negative(id, d.children);
        let now = WalkView {
            dirs: w.dirs.update(i, done),
            errors: if node is None && !reported {
                missing_recorded(w.errors, d.dir)
            } else {
                w.errors
            },
            ..w
        };
        assert(carried_occurrences(id, node) <= is_id(id_of(d.metadata), id) + list_occurrences(
            id,
            d.children,
        ));
        assert(is_placed(w.dirs, i, roots));
        match d.parent {
            None => {
                if node is Some {
                    lemma_list_occurrences_push(id, w.top_level, node->Some_0);
                }
            },
            Some(p) => {
                lemma_handed_up_counts(walk_data, now, p as int, node, false, id);
            },
        }
    }
}

/// Handing up the nodes of finished directories counts nothing twice.
pub proof fn lemma_completed_counts_once(walk_data: &WalkData, w: WalkView, i: int, reported: bool)
    requires
        is_forest(w.dirs, w.followed.len() as int),
        waits(w.dirs, -1),
        0 <= i < w.dirs.len(),
        !w.dirs[i].scanned,
        counted_once(w),
    ensures
        counted_once(completed(walk_data, marked_scanned(w, i), i, None, reported)),
{
    let start = marked_scanned(w, i);
    let now = completed(walk_data, start, i, None, reported);
    let d = start.dirs[i];
    lemma_marked_scanned(walk_data, w, i);
    assert forall|id: FileId| #[trigger] times_counted(id, now) <= (if now.inodes.contains(id) {
        1int
    } else {
        0
    }) by {
        lemma_total_update(w.dirs, i, d, |x: DirView| held_occurrences(id, x));
        assert(times_counted(id, start) == times_counted(id, w));
        lemma_handed_up_counts(walk_data, start, i, None, reported, id);
        assert(times_counted(id, w) <= (if w.inodes.contains(id) {
            1int
        } else {
            0
        }));
    }
    lemma_handed_up_counts(walk_data, start, i, None, reported, (0, 0));
}

/// In the trees of a walk that counted nothing twice, every identity occurs at
/// most once.
pub proof fn lemma_identity_occurs_once(w: WalkView, id: FileId)
    requires
        counted_once(w),
    ensures
        list_occurrences(id, w.top_level) <= 1,
{
    lemma_held_not_negative(id, w.dirs);
    assert(times_counted(id, w) <= 1);
}

proof fn lemma_held_not_negative(id: FileId, dirs: Seq<DirView>)
    ensures
        0 <= total(dirs, |d: DirView| held_occurrences(id, d)),
    decreases dirs.len(),
{
    if dirs.len() > 0 {
        lemma_held_not_negative(id, dirs.drop_last());
        lemma_list_occurrences_not_negative(id, dirs.last().children);
    }
}

} // verus!
