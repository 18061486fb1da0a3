//! Whole walks. By apparent size, and where links are not followed, the trees that
//! a walk ends with depend on its roots and on what is found in the directories,
//! and not on the order in which they are walked. Where hard links are told apart,
//! no file occurs twice in them.

use vstd::multiset::Multiset;
use vstd::prelude::*;

use crate::dir_walker::{
    listing_scanned, missing_recorded, ListedView, ScanView, SubdirectoryView, WalkData,
};
use crate::identity::{
    counted_once, lemma_completed_counts_once, lemma_empty_walk_counts_once,
    lemma_identity_occurs_once, lemma_listing_counts_once, lemma_root_counts_once, list_occurrences,
    times_counted,
};
use crate::inode_set::FileId;
use crate::node::{EntryMetadata, NodeView};
use crate::path::PathView;
use crate::progress::Operation;
use crate::schedule::{
    agree_at, can_sprout, dir_nodes, final_list, for_unscanned, is_live_kid, kids,
    lemma_all_in_order, lemma_completed_finals, lemma_completed_in_order, lemma_completed_with_all,
    lemma_finals_agree, lemma_finished_has_final_trees, lemma_listing_in_order, lemma_no_kids,
    lemma_scan_of_listing_alone, lemma_shapes_with_maybe, lemma_similar_finals,
    lemma_sprouted_finals, maybe_shape, outcome, sprouted, with_all, with_brought, with_more,
};
use crate::shape::{lemma_shapes_push, shapes, Shape};
use crate::sums::{lemma_total_not_negative, lemma_total_of_permutation, total};
use crate::walk::{
    attempt_failure, attempt_recorded, branch, class_recorded, completed, dir_node, empty_walk,
    is_forest, is_live_child, is_placed, lemma_dir_pushed, lemma_marked_scanned, lemma_scan_weight,
    listed, listing_taken, live_children, looked, marked_scanned, own_scan, path_class, received,
    root_added, root_dir, scan_ended, scan_of, scan_start, tried_again, waits, with_maybe,
    DirAction, DirView, PathClass, PathFacts, ReadingView, WalkView,
};

verus! {

// --------------------------------------------------------------------------
// Histories
// --------------------------------------------------------------------------

/// What a walk comes upon: what is found in each directory, and what its path
/// resolves to. Nothing is found in what is no directory or is given up.
pub struct Disk {
    pub listing: spec_fn(PathView) -> Seq<ListedView>,
    pub canonical: spec_fn(PathView) -> Option<PathView>,
}

/// What is done in a walk.
pub enum Deed {
    /// A root is added.
    Root(PathView, Option<EntryMetadata>),
    /// The directory with this number is looked at, with this answer.
    Looked(int, PathFacts, DirAction),
    /// An attempt to list the directory with this number is made, after so many
    /// retries, with this answer.
    Read(int, ReadingView, u32, DirAction),
    /// A root is ended.
    Ended,
}

/// A deed that finds what is on the disk leads from one state to another.
pub open spec fn leads(
    walk_data: &WalkData,
    disk: Disk,
    w: WalkView,
    deed: Deed,
    now: WalkView,
) -> bool {
    match deed {
        Deed::Root(d, metadata) => now == root_added(walk_data, w, d, metadata),
        Deed::Looked(i, facts, action) => {
            &&& 0 <= i < w.dirs.len()
            &&& !w.dirs[i].scanned
            &&& path_class(w.dirs[i].kind, facts) != PathClass::Directory ==> (disk.listing)(
                w.dirs[i].dir,
            ).len() == 0
            &&& looked(walk_data, w, i, facts, now, action)
        },
        Deed::Read(i, reading, retries, action) => {
            &&& 0 <= i < w.dirs.len()
            &&& !w.dirs[i].scanned
            &&& match attempt_failure(reading) {
                Some((kind, _)) => tried_again(kind, retries) || (disk.listing)(
                    w.dirs[i].dir,
                ).len() == 0,
                None => reading->Items_0 == (disk.listing)(w.dirs[i].dir),
            }
            &&& listed(
                walk_data,
                w,
                i,
                reading,
                (disk.canonical)(w.dirs[i].dir),
                retries,
                now,
                action,
            )
        },
        Deed::Ended => now == (WalkView { state: Operation::PREPARING, ..w }),
    }
}

/// What was done in a walk, and the states that it went through.
pub struct History {
    pub deeds: Seq<Deed>,
    pub states: Seq<WalkView>,
}

impl History {
    /// The deed with the number `k` led from one state to the next, which a
    /// machine can hold.
    pub open spec fn follows(self, walk_data: &WalkData, disk: Disk, k: int) -> bool {
        &&& leads(walk_data, disk, self.states[k], self.deeds[k], self.states[k + 1])
        &&& self.states[k + 1].dirs.len() <= usize::MAX
    }

    /// The deeds led from the empty walk through these states.
    pub open spec fn happened(self, walk_data: &WalkData, disk: Disk) -> bool {
        &&& self.states.len() == self.deeds.len() + 1
        &&& self.states[0] == empty_walk()
        &&& forall|k: int|
            0 <= k < self.deeds.len() ==> #[trigger] self.follows(walk_data, disk, k)
    }

    /// The state that the walk came to.
    pub open spec fn end(self) -> WalkView {
        self.states.last()
    }
}

/// The roots that were added.
pub open spec fn roots_of(deeds: Seq<Deed>) -> Seq<(PathView, Option<EntryMetadata>)>
    decreases deeds.len(),
{
    if deeds.len() == 0 {
        Seq::empty()
    } else {
        let before = roots_of(deeds.drop_last());
        match deeds.last() {
            Deed::Root(d, metadata) => before.push((d, metadata)),
            _ => before,
        }
    }
}

// --------------------------------------------------------------------------
// What is on the disk, as trees
// --------------------------------------------------------------------------

spec fn no_scan() -> ScanView {
    ScanView {
        inodes: Set::empty(),
        followed: Set::empty(),
        errors: empty_walk().errors,
        num_files: 0,
        total_file_size: 0,
        nodes: Seq::empty(),
        dirs: Seq::empty(),
    }
}

/// What the listing of a directory brings.
spec fn brings(walk_data: &WalkData, disk: Disk, dir: PathView, depth: usize) -> ScanView {
    listing_scanned(
        walk_data,
        dir,
        depth,
        (disk.canonical)(dir),
        no_scan(),
        (disk.listing)(dir),
    )
}

/// All that a directory comes to hold, down to so many levels.
spec fn contents(
    walk_data: &WalkData,
    disk: Disk,
    levels: nat,
    dir: PathView,
    depth: usize,
) -> Seq<NodeView>
    decreases levels, 0nat,
{
    if levels == 0 {
        Seq::empty()
    } else {
        let s = brings(walk_data, disk, dir, depth);
        s.nodes + trees(walk_data, disk, (levels - 1) as nat, s.dirs)
    }
}

/// The nodes that directories become, with what they hold down to so many levels.
spec fn trees(
    walk_data: &WalkData,
    disk: Disk,
    levels: nat,
    found: Seq<SubdirectoryView>,
) -> Seq<NodeView>
    decreases levels, found.len() + 1,
{
    if found.len() == 0 {
        Seq::empty()
    } else {
        let d = found.last();
        with_maybe(
            trees(walk_data, disk, levels, found.drop_last()),
            dir_node(
                walk_data,
                DirView {
                    children: contents(walk_data, disk, levels, d.dir, d.depth),
                    ..branch(0, 0, d)
                },
            ),
        )
    }
}

/// The tree that a root becomes.
spec fn root_tree(
    walk_data: &WalkData,
    disk: Disk,
    levels: nat,
    root: (PathView, Option<EntryMetadata>),
) -> Option<NodeView> {
    dir_node(
        walk_data,
        DirView {
            children: contents(walk_data, disk, levels, root.0, 0),
            ..root_dir(root.0, root.1, 0)
        },
    )
}

spec fn root_trees(
    walk_data: &WalkData,
    disk: Disk,
    levels: nat,
    roots: Seq<(PathView, Option<EntryMetadata>)>,
) -> Seq<NodeView>
    decreases roots.len(),
{
    if roots.len() == 0 {
        Seq::empty()
    } else {
        with_maybe(
            root_trees(walk_data, disk, levels, roots.drop_last()),
            root_tree(walk_data, disk, levels, roots.last()),
        )
    }
}

/// What each directory will yet be found to hold.
spec fn outstanding(
    walk_data: &WalkData,
    disk: Disk,
    levels: nat,
    dirs: Seq<DirView>,
) -> Seq<Seq<NodeView>> {
    Seq::new(
        dirs.len(),
        |k: int|
            if dirs[k].scanned {
                Seq::empty()
            } else {
                contents(
                    walk_data,
                    disk,
                    (levels - dirs[k].depth) as nat,
                    dirs[k].dir,
                    dirs[k].depth,
                )
            },
    )
}

/// The directories with all that they will be found to hold.
spec fn complete(
    walk_data: &WalkData,
    disk: Disk,
    levels: nat,
    dirs: Seq<DirView>,
) -> Seq<DirView> {
    with_all(dirs, outstanding(walk_data, disk, levels, dirs))
}

/// The trees that a walk will end with.
spec fn promised(
    walk_data: &WalkData,
    disk: Disk,
    levels: nat,
    w: WalkView,
) -> Multiset<Shape> {
    shapes(
        final_list(
            walk_data,
            complete(walk_data, disk, levels, w.dirs),
            w.top_level,
            w.dirs.len() as int,
        ),
    )
}

/// The directories of a walk are in order.
pub(crate) open spec fn in_order(w: WalkView) -> bool {
    &&& is_forest(w.dirs, w.followed.len() as int)
    &&& waits(w.dirs, -1)
    &&& w.dirs.len() <= usize::MAX
}

// --------------------------------------------------------------------------
// Adding a root
// --------------------------------------------------------------------------

proof fn lemma_root_outcome(walk_data: &WalkData, dirs: Seq<DirView>, d: DirView, k: int)
    requires
        d.parent is None,
        0 <= k < dirs.len(),
    ensures
        outcome(walk_data, dirs.push(d), k) == outcome(walk_data, dirs, k),
    decreases dirs.len() - k, dirs.len() + 1,
{
    let n = dirs.len() as int;
    lemma_root_kids(walk_data, dirs, d, k, n);
    assert(!is_live_kid(dirs.push(d), k, n));
    assert(kids(walk_data, dirs.push(d), k, n + 1) == kids(walk_data, dirs, k, n));
}

proof fn lemma_root_kids(walk_data: &WalkData, dirs: Seq<DirView>, d: DirView, k: int, t: int)
    requires
        d.parent is None,
        0 <= k < dirs.len(),
        t <= dirs.len(),
    ensures
        kids(walk_data, dirs.push(d), k, t) == kids(walk_data, dirs, k, t),
    decreases dirs.len() - k, t,
{
    if t > k + 1 {
        lemma_root_kids(walk_data, dirs, d, k, t - 1);
        lemma_root_outcome(walk_data, dirs, d, t - 1);
    }
}

proof fn lemma_root_finals(
    walk_data: &WalkData,
    dirs: Seq<DirView>,
    d: DirView,
    top_level: Seq<NodeView>,
    t: int,
)
    requires
        d.parent is None,
        0 <= t <= dirs.len(),
    ensures
        final_list(walk_data, dirs.push(d), top_level, t) == final_list(
            walk_data,
            dirs,
            top_level,
            t,
        ),
    decreases t,
{
    if t > 0 {
        lemma_root_finals(walk_data, dirs, d, top_level, t - 1);
        lemma_root_outcome(walk_data, dirs, d, t - 1);
    }
}

proof fn lemma_root_in_order(
    walk_data: &WalkData,
    w: WalkView,
    d: PathView,
    metadata: Option<EntryMetadata>,
)
    requires
        in_order(w),
        root_added(walk_data, w, d, metadata).dirs.len() <= usize::MAX,
    ensures
        in_order(root_added(walk_data, w, d, metadata)),
{
    let n = w.dirs.len() as int;
    let roots = w.followed.len() as int;
    assert(is_forest(w.dirs, roots + 1)) by {
        assert forall|j: int| 0 <= j < n implies #[trigger] is_placed(w.dirs, j, roots + 1) by {
            assert(is_placed(w.dirs, j, roots));
        }
    }
    lemma_dir_pushed(w.dirs, root_dir(d, metadata, roots), roots + 1, walk_data.by_filecount);
}

/// Adding a root adds its tree to those that the walk ends with.
proof fn lemma_root_step(
    walk_data: &WalkData,
    disk: Disk,
    levels: nat,
    w: WalkView,
    root: (PathView, Option<EntryMetadata>),
)
    requires
        walk_data.use_apparent_size,
        in_order(w),
        root_added(walk_data, w, root.0, root.1).dirs.len() <= usize::MAX,
    ensures
        ({
            let now = root_added(walk_data, w, root.0, root.1);
            &&& in_order(now)
            &&& now.dirs.len() == w.dirs.len() + 1
            &&& promised(walk_data, disk, levels, now) == shapes(
                with_maybe(
                    final_list(
                        walk_data,
                        complete(walk_data, disk, levels, w.dirs),
                        w.top_level,
                        w.dirs.len() as int,
                    ),
                    root_tree(walk_data, disk, levels, root),
                ),
            )
        }),
{
    let now = root_added(walk_data, w, root.0, root.1);
    let n = w.dirs.len() as int;
    let roots = w.followed.len() as int;
    let d = root_dir(root.0, root.1, roots);
    lemma_root_in_order(walk_data, w, root.0, root.1);
    let a = complete(walk_data, disk, levels, w.dirs);
    let b = complete(walk_data, disk, levels, now.dirs);
    let whole = DirView { children: contents(walk_data, disk, levels, root.0, 0), ..d };
    assert(b =~= a.push(whole)) by {
        assert(b[n].children =~= whole.children);
    }
    lemma_root_finals(walk_data, a, whole, w.top_level, n);
    assert forall|j: int| 0 <= j < b.len() implies !#[trigger] is_live_kid(b, n, j) by {
        if j < n {
            assert(is_placed(w.dirs, j, roots));
        }
    }
    lemma_no_kids(walk_data, b, n, n + 1);
    assert(DirView { children: b[n].children, ..b[n] } == b[n]);
    assert(outcome(walk_data, b, n) == root_tree(walk_data, disk, levels, root));
}

// --------------------------------------------------------------------------
// Walking a directory
// --------------------------------------------------------------------------

pub(crate) proof fn lemma_completed_len(
    walk_data: &WalkData,
    w: WalkView,
    i: int,
    brought: Option<NodeView>,
    reported: bool,
)
    requires
        0 <= i < w.dirs.len(),
    ensures
        completed(walk_data, w, i, brought, reported).dirs.len() == w.dirs.len(),
    decreases i,
{
    let d = received(w.dirs[i], brought);
    if d.pending == 0 {
        let node = dir_node(walk_data, d);
        let now = WalkView {
            dirs: w.dirs.update(i, DirView { children: Seq::empty(), ..d }),
            errors: if node is None && !reported {
                missing_recorded(w.errors, d.dir)
            } else {
                w.errors
            },
            ..w
        };
        match d.parent {
            Some(p) => if 0 <= p < i {
                lemma_completed_len(walk_data, now, p as int, node, false);
            },
            None => {},
        }
    }
}

/// Directories that were just found become the trees that they are on the disk.
proof fn lemma_found_trees(
    walk_data: &WalkData,
    disk: Disk,
    levels: nat,
    found: Seq<SubdirectoryView>,
    new: Seq<DirView>,
)
    requires
        new.len() == found.len(),
        forall|x: int|
            0 <= x < found.len() ==> {
                let d = found[x];
                &&& (#[trigger] new[x]).dir == d.dir
                &&& new[x].depth == d.depth
                &&& new[x].metadata == d.metadata
                &&& new[x].children == contents(walk_data, disk, levels, d.dir, d.depth)
            },
    ensures
        dir_nodes(walk_data, new) == trees(walk_data, disk, levels, found),
    decreases found.len(),
{
    if found.len() > 0 {
        let (a, b) = (found.drop_last(), new.drop_last());
        assert forall|x: int| 0 <= x < a.len() implies {
            let d = a[x];
            &&& (#[trigger] b[x]).dir == d.dir
            &&& b[x].depth == d.depth
            &&& b[x].metadata == d.metadata
            &&& b[x].children == contents(walk_data, disk, levels, d.dir, d.depth)
        } by {
            assert(b[x] == new[x]);
        }
        lemma_found_trees(walk_data, disk, levels, a, b);
        assert(new.last() == new[found.len() - 1]);
    }
}

/// The state of a walk after the directory `i` was listed, and its scan ended.
spec fn walked_on(
    walk_data: &WalkData,
    disk: Disk,
    w: WalkView,
    i: int,
    reported: bool,
) -> WalkView {
    let dir = w.dirs[i].dir;
    scan_ended(
        walk_data,
        listing_taken(walk_data, w, i, (disk.canonical)(dir), (disk.listing)(dir)),
        i,
        reported,
    )
}

/// What a listing finds, with all that will yet be found below it.
proof fn lemma_sprouting(
    walk_data: &WalkData,
    disk: Disk,
    levels: nat,
    w: WalkView,
    i: int,
    s: ScanView,
    taken: WalkView,
    new: Seq<DirView>,
)
    requires
        in_order(w),
        0 <= i < w.dirs.len(),
        !w.dirs[i].scanned,
        s == scan_of(
            walk_data,
            w,
            i,
            (disk.canonical)(w.dirs[i].dir),
            (disk.listing)(w.dirs[i].dir),
        ),
        taken == listing_taken(
            walk_data,
            w,
            i,
            (disk.canonical)(w.dirs[i].dir),
            (disk.listing)(w.dirs[i].dir),
        ),
        w.dirs.len() + s.dirs.len() <= usize::MAX,
        w.dirs.len() + s.dirs.len() <= levels,
        new == complete(walk_data, disk, levels, marked_scanned(taken, i).dirs).skip(
            w.dirs.len() as int,
        ),
    ensures
        ({
            let x = complete(walk_data, disk, levels, marked_scanned(w, i).dirs);
            &&& complete(walk_data, disk, levels, marked_scanned(taken, i).dirs) == sprouted(
                x,
                i,
                s.nodes,
                new,
            )
            &&& can_sprout(x, i, new)
            &&& new.len() == s.dirs.len()
            &&& dir_nodes(walk_data, new) == trees(
                walk_data,
                disk,
                (levels - w.dirs[i].depth - 1) as nat,
                s.dirs,
            )
        }),
{
    let n = w.dirs.len() as int;
    let roots = w.followed.len() as int;
    let (dir, depth) = (w.dirs[i].dir, w.dirs[i].depth);
    let canonical = (disk.canonical)(dir);
    let listing = (disk.listing)(dir);
    let start = scan_start(w, w.dirs[i].root as int);
    assert(is_placed(w.dirs, i, roots));
    lemma_scan_weight(walk_data, dir, depth, canonical, start, listing);
    lemma_listing_in_order(walk_data, w, i, canonical, listing);
    let m = marked_scanned(taken, i).dirs;
    let x = complete(walk_data, disk, levels, marked_scanned(w, i).dirs);
    let y = complete(walk_data, disk, levels, m);
    let z = sprouted(x, i, s.nodes, new);
    assert forall|k: int| 0 <= k < s.dirs.len() implies {
        let d = s.dirs[k];
        &&& (#[trigger] new[k]).dir == d.dir
        &&& new[k].depth == d.depth
        &&& new[k].metadata == d.metadata
        &&& new[k].children == contents(
            walk_data,
            disk,
            (levels - depth - 1) as nat,
            d.dir,
            d.depth,
        )
        &&& new[k].pending > 0
        &&& new[k].parent == Some(i as usize)
    } by {
        assert(new[k] == y[n + k]);
        assert(m[n + k] == branch(w.dirs[i].root, i, s.dirs[k]));
        assert(s.dirs[k].depth == depth + 1);
        assert(new[k].children =~= contents(
            walk_data,
            disk,
            (levels - depth - 1) as nat,
            s.dirs[k].dir,
            s.dirs[k].depth,
        ));
    }
    lemma_found_trees(walk_data, disk, (levels - depth - 1) as nat, s.dirs, new);
    assert forall|k: int| 0 <= k < y.len() implies y[k] == z[k] by {
        if k < n {
            assert(y[k].children =~= z[k].children);
        } else {
            assert(z[k] == new[k - n]);
        }
    }
    assert(y =~= z);
    assert forall|j: int| 0 <= j < x.len() implies ((#[trigger] x[j]).parent matches Some(p) ==> p
        < j) by {
        assert(is_placed(w.dirs, j, roots));
    }
}

/// Walking a directory finds in it what it was known to hold.
proof fn lemma_directory_step(
    walk_data: &WalkData,
    disk: Disk,
    levels: nat,
    w: WalkView,
    i: int,
    reported: bool,
)
    requires
        walk_data.use_apparent_size,
        !walk_data.follow_links,
        in_order(w),
        0 <= i < w.dirs.len(),
        !w.dirs[i].scanned,
        ({
            let now = walked_on(walk_data, disk, w, i, reported);
            now.dirs.len() <= usize::MAX && now.dirs.len() <= levels
        }),
    ensures
        ({
            let now = walked_on(walk_data, disk, w, i, reported);
            &&& in_order(now)
            &&& w.dirs.len() <= now.dirs.len()
            &&& promised(walk_data, disk, levels, now) == promised(walk_data, disk, levels, w)
        }),
{
    let n = w.dirs.len() as int;
    let roots = w.followed.len() as int;
    let (dir, depth) = (w.dirs[i].dir, w.dirs[i].depth);
    let canonical = (disk.canonical)(dir);
    let listing = (disk.listing)(dir);
    let s = scan_of(walk_data, w, i, canonical, listing);
    let start = scan_start(w, w.dirs[i].root as int);
    let now = walked_on(walk_data, disk, w, i, reported);
    assert(is_placed(w.dirs, i, roots));
    lemma_scan_of_listing_alone(walk_data, dir, depth, canonical, start, no_scan(), listing);
    lemma_scan_weight(walk_data, dir, depth, canonical, start, listing);
    // the state between the listing and the end of the scan
    let taken = listing_taken(walk_data, w, i, canonical, listing);
    let m = marked_scanned(taken, i);
    lemma_completed_len(walk_data, m, i, None, reported);
    lemma_listing_in_order(walk_data, w, i, canonical, listing);
    lemma_marked_scanned(walk_data, taken, i);
    lemma_completed_in_order(walk_data, m, i, None, reported);
    let more = outstanding(walk_data, disk, levels, m.dirs);
    assert(more =~= outstanding(walk_data, disk, levels, now.dirs)) by {
        assert forall|k: int| 0 <= k < m.dirs.len() implies more[k] == outstanding(
            walk_data,
            disk,
            levels,
            now.dirs,
        )[k] by {
            assert(now.dirs[k].scanned == m.dirs[k].scanned);
        }
    }
    assert(for_unscanned(m.dirs, more));
    lemma_completed_with_all(walk_data, m, i, None, reported, more);
    let v = WalkView { dirs: with_all(m.dirs, more), ..m };
    let end = completed(walk_data, v, i, None, reported);
    lemma_completed_len(walk_data, v, i, None, reported);
    lemma_similar_finals(
        walk_data,
        end.dirs,
        with_all(now.dirs, more),
        now.top_level,
        m.dirs.len() as int,
    );
    lemma_all_in_order(m, i, more);
    lemma_completed_finals(walk_data, v, i, None, reported);
    assert(with_brought(v.dirs, i, None) =~= v.dirs);
    // is the state before, with the directory's contents found
    let begun = marked_scanned(w, i).dirs;
    let x = complete(walk_data, disk, levels, begun);
    let new = v.dirs.skip(n);
    lemma_sprouting(walk_data, disk, levels, w, i, s, taken, new);
    lemma_sprouted_finals(
        walk_data,
        x,
        i,
        s.nodes,
        new,
        w.top_level,
        (x.len() + new.len()) as int,
    );
    let a = with_more(x, i, s.nodes + dir_nodes(walk_data, new));
    let b = complete(walk_data, disk, levels, w.dirs);
    assert forall|k: int| 0 <= k < n implies #[trigger] agree_at(a, b, k) by {
        assert(a[k].children =~= b[k].children);
    }
    lemma_finals_agree(walk_data, a, b, w.top_level, n);
}

// --------------------------------------------------------------------------
// Whole walks
// --------------------------------------------------------------------------

/// A directory in which nothing is found is listed with an empty listing.
proof fn lemma_empty_listing(walk_data: &WalkData, disk: Disk, w: WalkView, i: int)
    requires
        in_order(w),
        0 <= i < w.dirs.len(),
        (disk.listing)(w.dirs[i].dir).len() == 0,
    ensures
        listing_taken(
            walk_data,
            w,
            i,
            (disk.canonical)(w.dirs[i].dir),
            (disk.listing)(w.dirs[i].dir),
        ) == w,
{
    let canonical = (disk.canonical)(w.dirs[i].dir);
    let listing = (disk.listing)(w.dirs[i].dir);
    let s = scan_of(walk_data, w, i, canonical, listing);
    assert(s == scan_start(w, w.dirs[i].root as int));
    assert(is_placed(w.dirs, i, w.followed.len() as int));
    let now = listing_taken(walk_data, w, i, canonical, listing);
    assert(now.dirs =~= w.dirs) by {
        assert(now.dirs[i].children =~= w.dirs[i].children);
    }
    assert(now.followed =~= w.followed);
    assert(now =~= w);
}

/// A deed adds the tree of a root to those that the walk ends with, or changes
/// nothing of them.
proof fn lemma_deed(
    walk_data: &WalkData,
    disk: Disk,
    levels: nat,
    w: WalkView,
    deed: Deed,
    now: WalkView,
)
    requires
        walk_data.use_apparent_size,
        !walk_data.follow_links,
        in_order(w),
        leads(walk_data, disk, w, deed, now),
        now.dirs.len() <= usize::MAX,
        now.dirs.len() <= levels,
    ensures
        in_order(now),
        w.dirs.len() <= now.dirs.len(),
        promised(walk_data, disk, levels, now) == (match deed {
            Deed::Root(d, metadata) => shapes(
                with_maybe(
                    final_list(
                        walk_data,
                        complete(walk_data, disk, levels, w.dirs),
                        w.top_level,
                        w.dirs.len() as int,
                    ),
                    root_tree(walk_data, disk, levels, (d, metadata)),
                ),
            ),
            _ => promised(walk_data, disk, levels, w),
        }),
{
    match deed {
        Deed::Root(d, metadata) => {
            lemma_root_step(walk_data, disk, levels, w, (d, metadata));
        },
        Deed::Looked(i, facts, action) => {
            let class = path_class(w.dirs[i].kind, facts);
            let seen = WalkView { errors: class_recorded(w.errors, class, w.dirs[i].dir), ..w };
            if class != PathClass::Directory {
                lemma_empty_listing(walk_data, disk, seen, i);
                lemma_directory_step(
                    walk_data,
                    disk,
                    levels,
                    seen,
                    i,
                    class != PathClass::File,
                );
            }
        },
        Deed::Read(i, reading, retries, action) => {
            match attempt_failure(reading) {
                Some((kind, message)) => {
                    let failed = WalkView {
                        errors: attempt_recorded(
                            w.errors,
                            kind,
                            message,
                            w.dirs[i].dir,
                            retries,
                        ),
                        ..w
                    };
                    if !tried_again(kind, retries) {
                        lemma_empty_listing(walk_data, disk, failed, i);
                        lemma_directory_step(walk_data, disk, levels, failed, i, false);
                    }
                },
                None => {
                    lemma_directory_step(walk_data, disk, levels, w, i, false);
                },
            }
        },
        Deed::Ended => {},
    }
}

/// A walk never forgets a directory.
proof fn lemma_grows(walk_data: &WalkData, disk: Disk, h: History, k: int)
    requires
        h.happened(walk_data, disk),
        0 < k < h.states.len(),
    ensures
        in_order(h.states[k - 1]),
        h.states[k - 1].dirs.len() <= h.states[k].dirs.len(),
{
    assert(h.follows(walk_data, disk, k - 1));
    lemma_history_in_order(walk_data, disk, h, k - 1);
    lemma_deed_in_order(walk_data, disk, h.states[k - 1], h.deeds[k - 1], h.states[k]);
}

/// At every moment a walk will end with the trees of the roots that were added.
proof fn lemma_promise(walk_data: &WalkData, disk: Disk, levels: nat, h: History, k: int)
    requires
        walk_data.use_apparent_size,
        !walk_data.follow_links,
        h.happened(walk_data, disk),
        0 <= k < h.states.len(),
        h.states[k].dirs.len() <= levels,
    ensures
        promised(walk_data, disk, levels, h.states[k]) == shapes(
            root_trees(walk_data, disk, levels, roots_of(h.deeds.take(k))),
        ),
    decreases k,
{
    if k == 0 {
        assert(h.deeds.take(0) =~= Seq::empty());
        assert(final_list(
            walk_data,
            complete(walk_data, disk, levels, empty_walk().dirs),
            empty_walk().top_level,
            0,
        ) == Seq::<NodeView>::empty());
    } else {
        let (w, now) = (h.states[k - 1], h.states[k]);
        assert(h.follows(walk_data, disk, k - 1));
        lemma_grows(walk_data, disk, h, k);
        lemma_promise(walk_data, disk, levels, h, k - 1);
        let deed = h.deeds[k - 1];
        lemma_deed(walk_data, disk, levels, w, deed, now);
        let before = roots_of(h.deeds.take(k - 1));
        assert(h.deeds.take(k).drop_last() =~= h.deeds.take(k - 1));
        if let Deed::Root(d, metadata) = deed {
            let tree = root_tree(walk_data, disk, levels, (d, metadata));
            assert(before.push((d, metadata)).drop_last() =~= before);
            lemma_shapes_with_maybe(
                final_list(
                    walk_data,
                    complete(walk_data, disk, levels, w.dirs),
                    w.top_level,
                    w.dirs.len() as int,
                ),
                root_trees(walk_data, disk, levels, before),
                tree,
                tree,
            );
        }
    }
}

/// One where a root becomes a tree of this shape, and else zero.
spec fn is_of_shape(
    walk_data: &WalkData,
    disk: Disk,
    levels: nat,
    root: (PathView, Option<EntryMetadata>),
    h: Shape,
) -> int {
    if maybe_shape(root_tree(walk_data, disk, levels, root)) == Some(h) {
        1
    } else {
        0
    }
}

proof fn lemma_count_of_shape(
    walk_data: &WalkData,
    disk: Disk,
    levels: nat,
    roots: Seq<(PathView, Option<EntryMetadata>)>,
    h: Shape,
)
    ensures
        shapes(root_trees(walk_data, disk, levels, roots)).count(h) == total(
            roots,
            |root: (PathView, Option<EntryMetadata>)|
                is_of_shape(walk_data, disk, levels, root, h),
        ),
    decreases roots.len(),
{
    if roots.len() > 0 {
        let rest = roots.drop_last();
        lemma_count_of_shape(walk_data, disk, levels, rest, h);
        if let Some(node) = root_tree(walk_data, disk, levels, roots.last()) {
            lemma_shapes_push(root_trees(walk_data, disk, levels, rest), node);
        }
    }
}

/// The trees that a finished walk ends with are those of its roots.
proof fn lemma_finished_history(walk_data: &WalkData, disk: Disk, levels: nat, h: History)
    requires
        walk_data.use_apparent_size,
        !walk_data.follow_links,
        h.happened(walk_data, disk),
        h.end().all_finished(),
        h.end().dirs.len() <= levels,
    ensures
        shapes(h.end().top_level) == shapes(
            root_trees(walk_data, disk, levels, roots_of(h.deeds)),
        ),
{
    let w = h.end();
    let k = h.deeds.len() as int;
    lemma_history_in_order(walk_data, disk, h, k);
    lemma_promise(walk_data, disk, levels, h, k);
    assert(h.deeds.take(k) =~= h.deeds);
    let a = complete(walk_data, disk, levels, w.dirs);
    assert forall|j: int| 0 <= j < w.dirs.len() implies a[j] == w.dirs[j] by {
        assert(w.dirs[j].pending == own_scan(w.dirs[j]) + live_children(w.dirs, j));
        lemma_total_not_negative(w.dirs, |d: DirView| is_live_child(d, j));
        assert(w.dirs[j].scanned);
        assert(a[j].children =~= w.dirs[j].children);
    }
    assert(a =~= w.dirs);
    lemma_finished_has_final_trees(walk_data, w);
}

/// By apparent size, and where links are not followed, a walk ends with the same
/// trees in whatever order roots are added and directories are looked at, listed
/// and listed again: they depend on the roots and on what is found in each
/// directory, and on nothing else.
pub proof fn lemma_order_does_not_matter(walk_data: &WalkData, disk: Disk, a: History, b: History)
    requires
        walk_data.use_apparent_size,
        !walk_data.follow_links,
        a.happened(walk_data, disk),
        b.happened(walk_data, disk),
        roots_of(a.deeds).to_multiset() == roots_of(b.deeds).to_multiset(),
        a.end().all_finished(),
        b.end().all_finished(),
    ensures
        shapes(a.end().top_level) == shapes(b.end().top_level),
{
    let levels = a.end().dirs.len() + b.end().dirs.len();
    lemma_finished_history(walk_data, disk, levels, a);
    lemma_finished_history(walk_data, disk, levels, b);
    let (x, y) = (
        shapes(root_trees(walk_data, disk, levels, roots_of(a.deeds))),
        shapes(root_trees(walk_data, disk, levels, roots_of(b.deeds))),
    );
    assert forall|h: Shape| x.count(h) == y.count(h) by {
        lemma_count_of_shape(walk_data, disk, levels, roots_of(a.deeds), h);
        lemma_count_of_shape(walk_data, disk, levels, roots_of(b.deeds), h);
        lemma_total_of_permutation(
            roots_of(a.deeds),
            roots_of(b.deeds),
            |root: (PathView, Option<EntryMetadata>)|
                is_of_shape(walk_data, disk, levels, root, h),
        );
    }
    assert(x =~= y);
}

/// Whatever the options, a deed keeps the directories in order, and forgets none.
pub(crate) proof fn lemma_deed_in_order(
    walk_data: &WalkData,
    disk: Disk,
    w: WalkView,
    deed: Deed,
    now: WalkView,
)
    requires
        in_order(w),
        leads(walk_data, disk, w, deed, now),
        now.dirs.len() <= usize::MAX,
    ensures
        in_order(now),
        w.dirs.len() <= now.dirs.len(),
        forall|k: int|
            0 <= k < w.dirs.len() ==> (#[trigger] now.dirs[k]).metadata == w.dirs[k].metadata,
        !walk_data.use_apparent_size && counted_once(w) ==> counted_once(now),
{
    let counts = !walk_data.use_apparent_size && counted_once(w);
    match deed {
        Deed::Root(d, metadata) => {
            lemma_root_in_order(walk_data, w, d, metadata);
            if counts {
                lemma_root_counts_once(walk_data, w, d, metadata);
            }
        },
        Deed::Looked(i, facts, action) => {
            let class = path_class(w.dirs[i].kind, facts);
            let seen = WalkView { errors: class_recorded(w.errors, class, w.dirs[i].dir), ..w };
            assert(counts ==> counted_once(seen)) by {
                lemma_counted_alike(w, seen);
            }
            if class != PathClass::Directory {
                lemma_scan_ended_in_order(walk_data, seen, i, class != PathClass::File);
            }
        },
        Deed::Read(i, reading, retries, action) => {
            match attempt_failure(reading) {
                Some((kind, message)) => {
                    let failed = WalkView {
                        errors: attempt_recorded(
                            w.errors,
                            kind,
                            message,
                            w.dirs[i].dir,
                            retries,
                        ),
                        ..w
                    };
                    assert(counts ==> counted_once(failed)) by {
                        lemma_counted_alike(w, failed);
                    }
                    if !tried_again(kind, retries) {
                        lemma_scan_ended_in_order(walk_data, failed, i, false);
                    }
                },
                None => {
                    let dir = w.dirs[i].dir;
                    let (canonical, listing) = ((disk.canonical)(dir), (disk.listing)(dir));
                    let taken = listing_taken(walk_data, w, i, canonical, listing);
                    lemma_completed_len(walk_data, marked_scanned(taken, i), i, None, false);
                    lemma_listing_in_order(walk_data, w, i, canonical, listing);
                    if counts {
                        lemma_listing_counts_once(walk_data, w, i, canonical, listing);
                    }
                    lemma_scan_ended_in_order(walk_data, taken, i, false);
                },
            }
        },
        Deed::Ended => {
            lemma_counted_alike(w, now);
        },
    }
}

/// Messages and progress make no difference to what was counted.
proof fn lemma_counted_alike(w: WalkView, now: WalkView)
    requires
        now.dirs == w.dirs,
        now.top_level == w.top_level,
        now.inodes == w.inodes,
    ensures
        counted_once(w) ==> counted_once(now),
{
    if counted_once(w) {
        assert forall|id: FileId| #[trigger] times_counted(id, now) <= (if now.inodes.contains(id) {
            1int
        } else {
            0
        }) by {
            assert(times_counted(id, now) == times_counted(id, w));
        }
    }
}

pub(crate) proof fn lemma_scan_ended_in_order(walk_data: &WalkData, w: WalkView, i: int, reported: bool)
    requires
        is_forest(w.dirs, w.followed.len() as int),
        waits(w.dirs, -1),
        0 <= i < w.dirs.len(),
        !w.dirs[i].scanned,
    ensures
        ({
            let now = scan_ended(walk_data, w, i, reported);
            &&& is_forest(now.dirs, now.followed.len() as int)
            &&& waits(now.dirs, -1)
            &&& now.dirs.len() == w.dirs.len()
            &&& forall|k: int|
                0 <= k < w.dirs.len() ==> (#[trigger] now.dirs[k]).metadata == w.dirs[k].metadata
            &&& counted_once(w) ==> counted_once(now)
        }),
{
    lemma_marked_scanned(walk_data, w, i);
    lemma_completed_in_order(walk_data, marked_scanned(w, i), i, None, reported);
    if counted_once(w) {
        lemma_completed_counts_once(walk_data, w, i, reported);
    }
}

pub(crate) proof fn lemma_history_in_order(walk_data: &WalkData, disk: Disk, h: History, k: int)
    requires
        h.happened(walk_data, disk),
        0 <= k < h.states.len(),
    ensures
        in_order(h.states[k]),
        !walk_data.use_apparent_size ==> counted_once(h.states[k]),
    decreases k,
{
    if k == 0 {
        lemma_empty_walk_counts_once();
    } else {
        assert(h.follows(walk_data, disk, k - 1));
        lemma_history_in_order(walk_data, disk, h, k - 1);
        lemma_deed_in_order(walk_data, disk, h.states[k - 1], h.deeds[k - 1], h.states[k]);
    }
}

/// Where hard links are told apart, no file is counted twice: at every moment of
/// every walk, an identity occurs at most once in the finished trees.
pub proof fn lemma_no_file_counted_twice(
    walk_data: &WalkData,
    disk: Disk,
    h: History,
    k: int,
    id: FileId,
)
    requires
        !walk_data.use_apparent_size,
        h.happened(walk_data, disk),
        0 <= k < h.states.len(),
    ensures
        list_occurrences(id, h.states[k].top_level) <= 1,
{
    lemma_history_in_order(walk_data, disk, h, k);
    lemma_identity_occurs_once(h.states[k], id);
}

} // verus!
