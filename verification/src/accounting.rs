//! What a walk adds up to. Where hard links are told apart no file is counted
//! twice, and below one root no link is followed to where one before it led. Where
//! nodes are not measured by timestamps and the metadata of every directory is
//! known, what was counted is neither lost nor counted again on its way up. No
//! part measures more than the whole, and numbers of files are numbers of files.

use vstd::prelude::*;

use crate::dir_walker::{
    claimed_before, entry_scanned, fate, followed_link, id_of, leaf_node, listing_scanned,
    passed_over, EntryKind, EntryView, Fate, ListedView, ScanView, SubdirectoryView, WalkData,
};
use crate::inode_set::FileId;
use crate::node::{own_size, NodeView};
use crate::path::PathView;
use crate::sums::{
    lemma_total_append, lemma_total_at_least, lemma_total_not_negative, lemma_total_push,
    lemma_total_update, total,
};
use crate::walk::{
    carried_size, completed, dir_node, folded_size, is_forest, is_placed, lemma_dir_node_size,
    lemma_marked_scanned, lemma_received, lemma_total_load_not_negative, listing_taken,
    marked_scanned, received, root_added, root_dir, scan_of, total_load, total_size, waits, weight,
    DirView, WalkView,
};

verus! {

// --------------------------------------------------------------------------
// Identities
// --------------------------------------------------------------------------

/// What was claimed stays claimed, and where links led stays known.
pub proof fn lemma_scan_keeps_identities(
    walk_data: &WalkData,
    dir: PathView,
    depth: usize,
    canonical_dir: Option<PathView>,
    s: ScanView,
    listing: Seq<ListedView>,
)
    ensures
        s.inodes.subset_of(
            listing_scanned(walk_data, dir, depth, canonical_dir, s, listing).inodes,
        ),
        s.followed.subset_of(
            listing_scanned(walk_data, dir, depth, canonical_dir, s, listing).followed,
        ),
    decreases listing.len(),
{
    if listing.len() > 0 {
        lemma_scan_keeps_identities(
            walk_data,
            dir,
            depth,
            canonical_dir,
            s,
            listing.drop_last(),
        );
    }
}

/// Where hard links are told apart, no file is counted under two names: after one
/// of its names was counted, and whatever was listed since, another name of it
/// adds nothing.
pub proof fn lemma_counted_once(
    walk_data: &WalkData,
    dir: PathView,
    depth: usize,
    canonical_dir: Option<PathView>,
    s: ScanView,
    first: EntryView,
    between: Seq<ListedView>,
    second: EntryView,
)
    requires
        !walk_data.use_apparent_size,
        id_of(first.metadata) is Some,
        id_of(second.metadata) == id_of(first.metadata),
        fate(walk_data, canonical_dir, s.inodes, s.followed, first) != Fate::PassedOver,
    ensures
        ({
            let t = listing_scanned(
                walk_data,
                dir,
                depth,
                canonical_dir,
                entry_scanned(walk_data, depth, canonical_dir, s, first),
                between,
            );
            let u = entry_scanned(walk_data, depth, canonical_dir, t, second);
            u.nodes == t.nodes && u.dirs == t.dirs && u.num_files == t.num_files
                && u.total_file_size == t.total_file_size
        }),
{
    let after = entry_scanned(walk_data, depth, canonical_dir, s, first);
    let id = id_of(first.metadata)->Some_0;
    assert(after.inodes.contains(id));
    lemma_scan_keeps_identities(walk_data, dir, depth, canonical_dir, after, between);
}

/// By apparent size every name of a file counts: no entry is left out because
/// of its identity.
pub proof fn lemma_apparent_size_counts_every_name(
    walk_data: &WalkData,
    canonical_dir: Option<PathView>,
    inodes: Set<FileId>,
    followed: Set<FileId>,
    e: EntryView,
)
    requires
        walk_data.use_apparent_size,
    ensures
        fate(walk_data, canonical_dir, inodes, followed, e) != Fate::Duplicate,
        e.kind is Some && e.kind != Some(EntryKind::Directory) && !followed_link(
            walk_data,
            e.kind,
        ) && !passed_over(
            walk_data,
            e.path,
            e.kind == Some(EntryKind::File),
            e.metadata,
            canonical_dir,
            e.resolved,
        ) ==> fate(walk_data, canonical_dir, inodes, followed, e) == Fate::Leaf,
{
}

/// Below one root, no link is followed to where the root itself or a link
/// before it led.
pub proof fn lemma_link_followed_once(
    walk_data: &WalkData,
    dir: PathView,
    depth: usize,
    canonical_dir: Option<PathView>,
    s: ScanView,
    listing: Seq<ListedView>,
    e: EntryView,
)
    requires
        followed_link(walk_data, e.kind),
        id_of(e.metadata) matches Some(id) && s.followed.contains(id),
    ensures
        ({
            let t = listing_scanned(walk_data, dir, depth, canonical_dir, s, listing);
            entry_scanned(walk_data, depth, canonical_dir, t, e).dirs == t.dirs
        }),
{
    lemma_scan_keeps_identities(walk_data, dir, depth, canonical_dir, s, listing);
}

/// A link whose target has no known identity is never left out because of it.
pub proof fn lemma_unidentified_link_is_followed(
    walk_data: &WalkData,
    canonical_dir: Option<PathView>,
    inodes: Set<FileId>,
    followed: Set<FileId>,
    e: EntryView,
)
    requires
        followed_link(walk_data, e.kind),
        id_of(e.metadata) is None,
        fate(walk_data, canonical_dir, inodes, followed, e) != Fate::PassedOver,
    ensures
        fate(walk_data, canonical_dir, inodes, followed, e) == Fate::Descend,
{
}

// --------------------------------------------------------------------------
// Sizes
// --------------------------------------------------------------------------

/// What a directory measures by itself.
pub open spec fn dir_own_size(
    walk_data: &WalkData,
    dir: PathView,
    metadata: Option<crate::node::EntryMetadata>,
) -> int {
    match metadata {
        Some(data) => own_size(walk_data, dir, false, false, data) as int,
        None => 0,
    }
}

/// What was counted at a directory and has not gone up from it.
pub open spec fn held_size(walk_data: &WalkData, d: DirView) -> int {
    if d.pending > 0 {
        dir_own_size(walk_data, d.dir, d.metadata) + total_size(d.children)
    } else {
        0
    }
}

/// What was counted in a walk, wherever it has gone by now.
pub open spec fn measured(walk_data: &WalkData, w: WalkView) -> int {
    total(w.dirs, |d: DirView| held_size(walk_data, d)) + total_size(w.top_level)
}

/// What directories that were found measure by themselves.
pub open spec fn total_own_size(walk_data: &WalkData, dirs: Seq<SubdirectoryView>) -> int {
    total(dirs, |d: SubdirectoryView| dir_own_size(walk_data, d.dir, d.metadata))
}

/// The metadata of every directory is known.
pub open spec fn all_known(dirs: Seq<DirView>) -> bool {
    forall|i: int| 0 <= i < dirs.len() ==> (#[trigger] dirs[i]).metadata is Some
}

/// Adding a root adds what it measures by itself, unless it was counted before.
pub proof fn lemma_root_measured(
    walk_data: &WalkData,
    w: WalkView,
    d: PathView,
    metadata: Option<crate::node::EntryMetadata>,
)
    ensures
        measured(walk_data, root_added(walk_data, w, d, metadata)) == measured(walk_data, w) + (
        if claimed_before(walk_data, metadata, w.inodes) {
            0
        } else {
            dir_own_size(walk_data, d, metadata)
        }),
{
    let root = root_dir(d, metadata, w.followed.len() as int);
    lemma_total_push(w.dirs, root, |x: DirView| held_size(walk_data, x));
    assert(total_size(root.children) == 0);
}

/// Taking a listing adds what its leaves and its directories measure by
/// themselves, and nothing else.
pub proof fn lemma_listing_measured(
    walk_data: &WalkData,
    w: WalkView,
    i: int,
    canonical_dir: Option<PathView>,
    listing: Seq<ListedView>,
)
    requires
        is_forest(w.dirs, w.followed.len() as int),
        waits(w.dirs, -1),
        0 <= i < w.dirs.len(),
        !w.dirs[i].scanned,
        w.dirs[i].pending + scan_of(walk_data, w, i, canonical_dir, listing).dirs.len()
            <= usize::MAX,
    ensures
        measured(walk_data, listing_taken(walk_data, w, i, canonical_dir, listing)) == measured(
            walk_data,
            w,
        ) + total_size(scan_of(walk_data, w, i, canonical_dir, listing).nodes) + total_own_size(
            walk_data,
            scan_of(walk_data, w, i, canonical_dir, listing).dirs,
        ),
{
    let s = scan_of(walk_data, w, i, canonical_dir, listing);
    let f = |d: DirView| held_size(walk_data, d);
    let grown = DirView {
        pending: (w.dirs[i].pending + s.dirs.len()) as usize,
        children: w.dirs[i].children + s.nodes,
        ..w.dirs[i]
    };
    let branch = |d: SubdirectoryView| crate::walk::branch(w.dirs[i].root, i, d);
    assert(w.dirs[i].pending > 0) by {
        assert(w.dirs[i].pending == crate::walk::own_scan(w.dirs[i]) + crate::walk::live_children(
            w.dirs,
            i,
        ));
        lemma_total_not_negative(w.dirs, |d: DirView| crate::walk::is_live_child(d, i));
    }
    lemma_total_update(w.dirs, i, grown, f);
    lemma_total_append(w.dirs[i].children, s.nodes, |n: NodeView| n.size as int);
    lemma_total_append(w.dirs.update(i, grown), s.dirs.map_values(branch), f);
    lemma_branches_measured(walk_data, w.dirs[i].root, i, s.dirs);
    assert(listing_taken(walk_data, w, i, canonical_dir, listing).dirs == w.dirs.update(i, grown)
        + s.dirs.map_values(branch));
}

proof fn lemma_branches_measured(
    walk_data: &WalkData,
    root: usize,
    i: int,
    dirs: Seq<SubdirectoryView>,
)
    ensures
        total(
            dirs.map_values(|d: SubdirectoryView| crate::walk::branch(root, i, d)),
            |d: DirView| held_size(walk_data, d),
        ) == total_own_size(walk_data, dirs),
    decreases dirs.len(),
{
    let branch = |d: SubdirectoryView| crate::walk::branch(root, i, d);
    if dirs.len() > 0 {
        lemma_branches_measured(walk_data, root, i, dirs.drop_last());
        assert(dirs.map_values(branch).drop_last() =~= dirs.drop_last().map_values(branch));
        assert(total_size(branch(dirs.last()).children) == 0);
    }
}

/// Handing up the nodes of finished directories neither loses nor adds anything,
/// where nodes are not measured by timestamps and the metadata of every directory
/// is known.
pub proof fn lemma_completed_measured(walk_data: &WalkData, w: WalkView, i: int, reported: bool)
    requires
        w.well_formed(walk_data),
        *walk_data.by_filetime is None,
        all_known(w.dirs),
        0 <= i < w.dirs.len(),
        !w.dirs[i].scanned,
    ensures
        measured(
            walk_data,
            completed(walk_data, marked_scanned(w, i), i, None, reported),
        ) == measured(walk_data, w),
{
    let now = marked_scanned(w, i);
    let d = now.dirs[i];
    lemma_marked_scanned(walk_data, w, i);
    lemma_total_update(w.dirs, i, d, |x: DirView| held_size(walk_data, x));
    lemma_handed_up_measured(walk_data, now, i, None, reported);
}

pub(crate) proof fn lemma_handed_up_measured(
    walk_data: &WalkData,
    w: WalkView,
    i: int,
    brought: Option<NodeView>,
    reported: bool,
)
    requires
        is_forest(w.dirs, w.followed.len() as int),
        waits(w.dirs, i),
        total_load(walk_data.by_filecount, w.dirs) + carried_size(brought) + total_size(
            w.top_level,
        ) <= u64::MAX,
        *walk_data.by_filetime is None,
        all_known(w.dirs),
        0 <= i < w.dirs.len(),
    ensures
        measured(walk_data, completed(walk_data, w, i, brought, reported)) == measured(
            walk_data,
            w,
        ) + carried_size(brought),
        ({
            let now = completed(walk_data, w, i, brought, reported);
            total_load(walk_data.by_filecount, now.dirs) + total_size(now.top_level) <= total_load(
                walk_data.by_filecount,
                w.dirs,
            ) + carried_size(brought) + total_size(w.top_level)
        }),
    decreases i,
{
    let f = |x: DirView| held_size(walk_data, x);
    let g = |n: NodeView| n.size as int;
    let roots = w.followed.len() as int;
    lemma_received(w.dirs, i, brought, roots, Seq::empty(), walk_data.by_filecount);
    let d = received(w.dirs[i], brought);
    if brought is Some {
        lemma_total_push(w.dirs[i].children, brought->Some_0, g);
    }
    if d.pending > 0 {
        lemma_total_update(w.dirs, i, d, f);
    } else {
        let done = DirView { children: Seq::empty(), ..d };
        let node = dir_node(walk_data, d);
        lemma_total_update(w.dirs, i, done, f);
        let now = WalkView {
            dirs: w.dirs.update(i, done),
            errors: if node is None && !reported {
                crate::dir_walker::missing_recorded(w.errors, d.dir)
            } else {
                w.errors
            },
            ..w
        };
        lemma_total_load_not_negative(now.dirs, walk_data.by_filecount);
        lemma_total_not_negative(w.top_level, g);
        lemma_total_not_negative(d.children, g);
        lemma_dir_node_size(walk_data, d);
        assert(w.dirs[i].metadata is Some);
        assert(carried_size(node) == dir_own_size(walk_data, d.dir, d.metadata) + total_size(
            d.children,
        ));
        assert(is_placed(w.dirs, i, roots));
        match d.parent {
            None => {
                lemma_total_push(w.top_level, node->Some_0, g);
            },
            Some(p) => {
                assert forall|k: int| 0 <= k < now.dirs.len() implies (
                #[trigger] now.dirs[k]).metadata is Some by {
                    assert(w.dirs[k].metadata is Some);
                }
                lemma_handed_up_measured(walk_data, now, p as int, node, false);
            },
        }
    }
}

/// Once a walk is finished, all that its state measures is in the finished trees.
pub proof fn lemma_finished_measured(walk_data: &WalkData, w: WalkView)
    requires
        w.all_finished(),
    ensures
        measured(walk_data, w) == total_size(w.top_level),
{
    lemma_held_zero(walk_data, w.dirs);
}

proof fn lemma_held_zero(walk_data: &WalkData, dirs: Seq<DirView>)
    requires
        forall|i: int| 0 <= i < dirs.len() ==> (#[trigger] dirs[i]).pending == 0,
    ensures
        total(dirs, |d: DirView| held_size(walk_data, d)) == 0,
    decreases dirs.len(),
{
    if dirs.len() > 0 {
        assert forall|i: int| 0 <= i < dirs.len() - 1 implies (
        #[trigger] dirs.drop_last()[i]).pending == 0 by {
            assert(dirs.drop_last()[i] == dirs[i]);
        }
        lemma_held_zero(walk_data, dirs.drop_last());
        assert(dirs[dirs.len() - 1].pending == 0);
    }
}

/// Ending the scan of a directory ends that scan and no other, and finds no
/// directories: with each scan that ends, one fewer is left.
pub proof fn lemma_completed_ends_one_scan(
    walk_data: &WalkData,
    w: WalkView,
    i: int,
    brought: Option<NodeView>,
    reported: bool,
)
    requires
        0 <= i < w.dirs.len(),
    ensures
        completed(walk_data, w, i, brought, reported).dirs.len() == w.dirs.len(),
        forall|j: int|
            0 <= j < w.dirs.len() ==> (#[trigger] completed(
                walk_data,
                w,
                i,
                brought,
                reported,
            ).dirs[j]).scanned == w.dirs[j].scanned,
    decreases i,
{
    let d = received(w.dirs[i], brought);
    if d.pending == 0 {
        let node = dir_node(walk_data, d);
        let now = WalkView {
            dirs: w.dirs.update(i, DirView { children: Seq::empty(), ..d }),
            errors: if node is None && !reported {
                crate::dir_walker::missing_recorded(w.errors, d.dir)
            } else {
                w.errors
            },
            ..w
        };
        match d.parent {
            Some(p) => if 0 <= p < i {
                lemma_completed_ends_one_scan(walk_data, now, p as int, node, false);
            },
            None => {},
        }
    }
}

// --------------------------------------------------------------------------
// What holds of every tree
// --------------------------------------------------------------------------

/// Something holds of each of these trees.
pub open spec fn list_all(p: spec_fn(NodeView) -> bool, nodes: Seq<NodeView>) -> bool {
    forall|i: int| 0 <= i < nodes.len() ==> p(#[trigger] nodes[i])
}

/// Something holds of each tree that was found in a walk.
pub open spec fn walk_all(p: spec_fn(NodeView) -> bool, w: WalkView) -> bool {
    &&& forall|i: int| 0 <= i < w.dirs.len() ==> list_all(p, (#[trigger] w.dirs[i]).children)
    &&& list_all(p, w.top_level)
}

/// What a directory comes to fits in a size.
pub open spec fn dir_fits(walk_data: &WalkData, d: DirView) -> bool {
    *walk_data.by_filetime is None ==> weight(walk_data.by_filecount, d.metadata) + total_size(
        d.children,
    ) <= u64::MAX
}

/// Something holds of every leaf, and of every directory that holds nothing but
/// trees of which it holds.
pub open spec fn is_inherited(walk_data: &WalkData, p: spec_fn(NodeView) -> bool) -> bool {
    &&& forall|depth: usize, e: EntryView|
        (#[trigger] leaf_node(walk_data, depth, e)) matches Some(node) ==> p(node)
    &&& dirs_inherit(walk_data, p)
}

/// Something holds of every directory that holds nothing but trees of which it
/// holds.
pub open spec fn dirs_inherit(walk_data: &WalkData, p: spec_fn(NodeView) -> bool) -> bool {
    forall|d: DirView|
        dir_fits(walk_data, d) && list_all(p, d.children) ==> ((#[trigger] dir_node(
            walk_data,
            d,
        )) matches Some(node) ==> p(node))
}

/// In a walk without roots there is nothing, and adding a root adds nothing below
/// it.
pub proof fn lemma_root_keeps_all(
    walk_data: &WalkData,
    p: spec_fn(NodeView) -> bool,
    w: WalkView,
    d: PathView,
    metadata: Option<crate::node::EntryMetadata>,
)
    requires
        walk_all(p, w),
    ensures
        walk_all(p, crate::walk::empty_walk()),
        walk_all(p, root_added(walk_data, w, d, metadata)),
{
    let now = root_added(walk_data, w, d, metadata);
    assert forall|k: int| 0 <= k < now.dirs.len() implies list_all(
        p,
        (#[trigger] now.dirs[k]).children,
    ) by {
        if k < w.dirs.len() {
            assert(now.dirs[k] == w.dirs[k]);
        }
    }
}

proof fn lemma_leaves_all(
    walk_data: &WalkData,
    p: spec_fn(NodeView) -> bool,
    dir: PathView,
    depth: usize,
    canonical_dir: Option<PathView>,
    start: ScanView,
    listing: Seq<ListedView>,
)
    requires
        start.nodes.len() == 0,
        is_inherited(walk_data, p),
    ensures
        list_all(
            p,
            listing_scanned(walk_data, dir, depth, canonical_dir, start, listing).nodes,
        ),
    decreases listing.len(),
{
    if listing.len() > 0 {
        let rest = listing.drop_last();
        lemma_leaves_all(walk_data, p, dir, depth, canonical_dir, start, rest);
        let before = listing_scanned(walk_data, dir, depth, canonical_dir, start, rest);
        let now = listing_scanned(walk_data, dir, depth, canonical_dir, start, listing);
        assert forall|i: int| 0 <= i < now.nodes.len() implies p(#[trigger] now.nodes[i]) by {
            if i < before.nodes.len() {
                assert(now.nodes[i] == before.nodes[i]);
            } else {
                let e = listing.last()->Found_0;
                assert(leaf_node(walk_data, depth, e) == Some(now.nodes[i]));
            }
        }
    }
}

/// Taking a listing finds nothing but trees of which it holds.
pub proof fn lemma_listing_keeps_all(
    walk_data: &WalkData,
    p: spec_fn(NodeView) -> bool,
    w: WalkView,
    i: int,
    canonical_dir: Option<PathView>,
    listing: Seq<ListedView>,
)
    requires
        is_inherited(walk_data, p),
        walk_all(p, w),
        0 <= i < w.dirs.len(),
    ensures
        walk_all(p, listing_taken(walk_data, w, i, canonical_dir, listing)),
{
    let s = scan_of(walk_data, w, i, canonical_dir, listing);
    let now = listing_taken(walk_data, w, i, canonical_dir, listing);
    lemma_leaves_all(
        walk_data,
        p,
        w.dirs[i].dir,
        w.dirs[i].depth,
        canonical_dir,
        crate::walk::scan_start(w, w.dirs[i].root as int),
        listing,
    );
    assert forall|k: int| 0 <= k < now.dirs.len() implies list_all(
        p,
        (#[trigger] now.dirs[k]).children,
    ) by {
        if k == i {
            let (a, b) = (w.dirs[i].children, s.nodes);
            assert(now.dirs[k].children == a + b);
            assert(list_all(p, w.dirs[i].children));
            assert forall|j: int| 0 <= j < (a + b).len() implies p(#[trigger] (a + b)[j]) by {
                if j < a.len() {
                    assert((a + b)[j] == a[j]);
                } else {
                    assert((a + b)[j] == b[j - a.len()]);
                }
            }
        } else if k < w.dirs.len() {
            assert(now.dirs[k] == w.dirs[k]);
        } else {
            assert(now.dirs[k].children.len() == 0);
        }
    }
}

pub(crate) proof fn lemma_handed_up_all(
    walk_data: &WalkData,
    p: spec_fn(NodeView) -> bool,
    w: WalkView,
    i: int,
    brought: Option<NodeView>,
    reported: bool,
)
    requires
        dirs_inherit(walk_data, p),
        is_forest(w.dirs, w.followed.len() as int),
        waits(w.dirs, i),
        *walk_data.by_filetime is None ==> total_load(walk_data.by_filecount, w.dirs)
            + carried_size(brought) + total_size(w.top_level) <= u64::MAX,
        walk_all(p, w),
        brought matches Some(node) ==> p(node),
        0 <= i < w.dirs.len(),
    ensures
        walk_all(p, completed(walk_data, w, i, brought, reported)),
    decreases i,
{
    let g = |n: NodeView| n.size as int;
    let roots = w.followed.len() as int;
    lemma_received(w.dirs, i, brought, roots, Seq::empty(), walk_data.by_filecount);
    let d = received(w.dirs[i], brought);
    assert(list_all(p, w.dirs[i].children));
    assert(list_all(p, d.children)) by {
        assert forall|k: int| 0 <= k < d.children.len() implies p(#[trigger] d.children[k]) by {
            if k < w.dirs[i].children.len() {
                assert(d.children[k] == w.dirs[i].children[k]);
            }
        }
    }
    if d.pending > 0 {
        let now = w.dirs.update(i, d);
        assert forall|k: int| 0 <= k < now.len() implies list_all(
            p,
            (#[trigger] now[k]).children,
        ) by {
            if k != i {
                assert(now[k] == w.dirs[k]);
            }
        }
    } else {
        let done = DirView { children: Seq::empty(), ..d };
        let node = dir_node(walk_data, d);
        let now = WalkView {
            dirs: w.dirs.update(i, done),
            errors: if node is None && !reported {
                crate::dir_walker::missing_recorded(w.errors, d.dir)
            } else {
                w.errors
            },
            ..w
        };
        assert forall|k: int| 0 <= k < now.dirs.len() implies list_all(
            p,
            (#[trigger] now.dirs[k]).children,
        ) by {
            if k != i {
                assert(now.dirs[k] == w.dirs[k]);
            }
        }
        lemma_total_load_not_negative(now.dirs, walk_data.by_filecount);
        lemma_total_not_negative(w.top_level, g);
        lemma_total_not_negative(d.children, g);
        assert(dir_fits(walk_data, d));
        if *walk_data.by_filetime is None {
            lemma_dir_node_size(walk_data, d);
        }
        assert(node matches Some(n) ==> p(n));
        assert(is_placed(w.dirs, i, roots));
        match d.parent {
            None => {
                let tops = crate::walk::with_maybe(w.top_level, node);
                assert forall|k: int| 0 <= k < tops.len() implies p(#[trigger] tops[k]) by {
                    if k < w.top_level.len() {
                        assert(tops[k] == w.top_level[k]);
                    }
                }
            },
            Some(parent) => {
                lemma_handed_up_all(walk_data, p, now, parent as int, node, false);
            },
        }
    }
}

/// Handing up the nodes of finished directories makes nothing but trees of which
/// it holds.
pub proof fn lemma_completed_keeps_all(
    walk_data: &WalkData,
    p: spec_fn(NodeView) -> bool,
    w: WalkView,
    i: int,
    reported: bool,
)
    requires
        is_inherited(walk_data, p),
        w.well_formed(walk_data),
        walk_all(p, w),
        0 <= i < w.dirs.len(),
        !w.dirs[i].scanned,
    ensures
        walk_all(p, completed(walk_data, marked_scanned(w, i), i, None, reported)),
{
    let now = marked_scanned(w, i);
    lemma_marked_scanned(walk_data, w, i);
    assert forall|k: int| 0 <= k < now.dirs.len() implies list_all(
        p,
        (#[trigger] now.dirs[k]).children,
    ) by {
        assert(list_all(p, w.dirs[k].children));
    }
    lemma_handed_up_all(walk_data, p, now, i, None, reported);
}

// --------------------------------------------------------------------------
// Parts and wholes
// --------------------------------------------------------------------------

/// No node of a tree measures more than the one that it was found in.
pub open spec fn tree_capped(node: NodeView) -> bool
    decreases node,
{
    forall|i: int|
        0 <= i < node.children.len() ==> (#[trigger] node.children[i]).size <= node.size
            && tree_capped(node.children[i])
}

/// What a directory measures is no less than what each of its children does.
proof fn lemma_folded_size_caps(
    by_filetime: Option<crate::node::FileTime>,
    own: u64,
    children: Seq<NodeView>,
    i: int,
)
    requires
        0 <= i < children.len(),
    ensures
        children[i].size <= folded_size(by_filetime, own, children),
    decreases children.len(),
{
    let f = |n: NodeView| n.size as int;
    lemma_total_at_least(children, i, f);
    if i < children.len() - 1 {
        lemma_folded_size_caps(by_filetime, own, children.drop_last(), i);
    }
}

/// A directory measures no less than anything in it, by size, by number of files
/// and by timestamp: this holds of every tree of a walk, from its first root on.
pub proof fn lemma_no_part_exceeds_the_whole(walk_data: &WalkData)
    ensures
        is_inherited(walk_data, |n: NodeView| tree_capped(n)),
{
    let p = |n: NodeView| tree_capped(n);
    assert forall|depth: usize, e: EntryView|
        (#[trigger] leaf_node(walk_data, depth, e)) matches Some(node) implies p(
        leaf_node(walk_data, depth, e)->Some_0,
    ) by {
        assert(leaf_node(walk_data, depth, e)->Some_0.children.len() == 0);
    }
    assert forall|d: DirView| dir_fits(walk_data, d) && list_all(p, d.children) implies ((
    #[trigger] dir_node(walk_data, d)) matches Some(node) ==> p(node)) by {
        if d.metadata is Some {
            let n = dir_node(walk_data, d)->Some_0;
            let own = own_size(walk_data, d.dir, false, false, d.metadata->Some_0);
            if *walk_data.by_filetime is None {
                lemma_dir_node_size(walk_data, d);
            }
            lemma_total_not_negative(d.children, |c: NodeView| c.size as int);
            assert forall|k: int| 0 <= k < n.children.len() implies (#[trigger] n.children[k]).size
                <= n.size && tree_capped(n.children[k]) by {
                lemma_folded_size_caps(*walk_data.by_filetime, own, d.children, k);
                assert(p(d.children[k]));
            }
        }
    }
}

// --------------------------------------------------------------------------
// Numbers of files
// --------------------------------------------------------------------------

/// The number of files at or below a node.
pub open spec fn files_in(node: NodeView) -> int
    decreases node, 1nat,
{
    (if node.is_file {
        1int
    } else {
        0
    }) + list_files(node.children)
}

/// The number of files in a list of trees.
pub open spec fn list_files(nodes: Seq<NodeView>) -> int
    decreases nodes, 0nat,
{
    if nodes.len() == 0 {
        0
    } else {
        list_files(nodes.drop_last()) + files_in(nodes.last())
    }
}

/// Every node of a tree measures the number of files at or below it.
pub open spec fn tree_counts_files(node: NodeView) -> bool
    decreases node,
{
    &&& node.size == files_in(node)
    &&& forall|i: int|
        0 <= i < node.children.len() ==> tree_counts_files(#[trigger] node.children[i])
}

proof fn lemma_sizes_are_files(nodes: Seq<NodeView>)
    requires
        list_all(|n: NodeView| tree_counts_files(n), nodes),
    ensures
        total_size(nodes) == list_files(nodes),
    decreases nodes.len(),
{
    if nodes.len() > 0 {
        let p = |n: NodeView| tree_counts_files(n);
        let rest = nodes.drop_last();
        assert forall|i: int| 0 <= i < rest.len() implies p(#[trigger] rest[i]) by {
            assert(rest[i] == nodes[i]);
            assert(p(nodes[i]));
        }
        lemma_sizes_are_files(rest);
        assert(p(nodes[nodes.len() - 1]));
    }
}

/// Where files are counted, every node measures the number of files at or below
/// it: this holds of every tree of a walk, from its first root on.
pub proof fn lemma_sizes_count_files(walk_data: &WalkData)
    requires
        walk_data.by_filecount,
        *walk_data.by_filetime is None,
    ensures
        is_inherited(walk_data, |n: NodeView| tree_counts_files(n)),
{
    let p = |n: NodeView| tree_counts_files(n);
    assert forall|depth: usize, e: EntryView|
        (#[trigger] leaf_node(walk_data, depth, e)) matches Some(node) implies p(
        leaf_node(walk_data, depth, e)->Some_0,
    ) by {
        let n = leaf_node(walk_data, depth, e)->Some_0;
        assert(n.children.len() == 0);
        assert(list_files(n.children) == 0);
    }
    assert forall|d: DirView| dir_fits(walk_data, d) && list_all(p, d.children) implies ((
    #[trigger] dir_node(walk_data, d)) matches Some(node) ==> p(node)) by {
        if d.metadata is Some {
            let n = dir_node(walk_data, d)->Some_0;
            lemma_dir_node_size(walk_data, d);
            lemma_total_not_negative(d.children, |c: NodeView| c.size as int);
            lemma_sizes_are_files(d.children);
            assert forall|k: int| 0 <= k < n.children.len() implies tree_counts_files(
                #[trigger] n.children[k],
            ) by {
                assert(p(d.children[k]));
            }
        }
    }
}

} // verus!
