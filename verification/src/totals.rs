//! Whole walks: what the finished trees measure together is what was counted.

use vstd::prelude::*;

use crate::accounting::{
    all_known, dir_own_size, held_size, lemma_finished_measured, lemma_handed_up_measured,
    lemma_listing_measured, lemma_root_measured, measured, total_own_size,
};
use crate::dir_walker::{claimed_before, WalkData};
use crate::history::{
    in_order, leads, lemma_completed_len, lemma_deed_in_order, lemma_history_in_order, Deed, Disk,
    History,
};
use crate::schedule::{lemma_completed_in_order, lemma_listing_in_order};
use crate::sums::{lemma_total_push, lemma_total_update};
use crate::walk::{
    attempt_failure, attempt_recorded, class_recorded, fits_reading, has_room, is_placed,
    lemma_branched, lemma_marked_scanned, lemma_scan_weight, listing_taken, load, marked_scanned,
    path_class, root_dir, scan_ended, scan_of, scan_start, total_load, total_size, tried_again,
    weight, DirView, PathClass, WalkView,
};

verus! {

/// There is room for what a deed brings.
pub open spec fn fits(walk_data: &WalkData, disk: Disk, w: WalkView, deed: Deed) -> bool {
    match deed {
        Deed::Root(_, metadata) => claimed_before(walk_data, metadata, w.inodes) || has_room(
            walk_data,
            w,
            weight(walk_data.by_filecount, metadata),
        ),
        Deed::Read(i, reading, _, _) => fits_reading(
            walk_data,
            w,
            i,
            (disk.canonical)(w.dirs[i].dir),
            reading,
        ),
        _ => true,
    }
}

/// What a deed counts: a root that was not counted before, or the leaves and
/// the directories of a listing, each by what it measures by itself.
pub open spec fn added(walk_data: &WalkData, disk: Disk, w: WalkView, deed: Deed) -> int {
    match deed {
        Deed::Root(d, metadata) => if claimed_before(walk_data, metadata, w.inodes) {
            0
        } else {
            dir_own_size(walk_data, d, metadata)
        },
        Deed::Read(i, reading, _, _) => if attempt_failure(reading) is None {
            let dir = w.dirs[i].dir;
            let s = scan_of(walk_data, w, i, (disk.canonical)(dir), (disk.listing)(dir));
            total_size(s.nodes) + total_own_size(walk_data, s.dirs)
        } else {
            0
        },
        _ => 0,
    }
}

/// What the first `k` deeds of a walk count.
pub open spec fn added_before(walk_data: &WalkData, disk: Disk, h: History, k: int) -> int
    decreases k,
{
    if k <= 0 {
        0
    } else {
        added_before(walk_data, disk, h, k - 1) + added(
            walk_data,
            disk,
            h.states[k - 1],
            h.deeds[k - 1],
        )
    }
}

/// What the walk can come to can be held.
spec fn is_bounded(walk_data: &WalkData, w: WalkView) -> bool {
    total_load(walk_data.by_filecount, w.dirs) + total_size(w.top_level) <= w.ledger
}

/// Ending a scan keeps what was counted.
proof fn lemma_scan_ended_measured(walk_data: &WalkData, w: WalkView, i: int, reported: bool)
    requires
        *walk_data.by_filetime is None,
        in_order(w),
        is_bounded(walk_data, w),
        0 <= i < w.dirs.len(),
        !w.dirs[i].scanned,
        all_known(scan_ended(walk_data, w, i, reported).dirs),
    ensures
        ({
            let now = scan_ended(walk_data, w, i, reported);
            &&& measured(walk_data, now) == measured(walk_data, w)
            &&& is_bounded(walk_data, now)
            &&& all_known(w.dirs)
        }),
{
    let m = marked_scanned(w, i);
    let now = scan_ended(walk_data, w, i, reported);
    lemma_marked_scanned(walk_data, w, i);
    lemma_completed_in_order(walk_data, m, i, None, reported);
    assert forall|k: int| 0 <= k < w.dirs.len() implies (#[trigger] w.dirs[k]).metadata is Some by {
        assert(now.dirs[k].metadata == m.dirs[k].metadata);
    }
    assert(all_known(m.dirs)) by {
        assert forall|k: int| 0 <= k < m.dirs.len() implies (#[trigger] m.dirs[k]).metadata is Some by {
            assert(w.dirs[k].metadata is Some);
        }
    }
    lemma_total_update(w.dirs, i, m.dirs[i], |d: DirView| held_size(walk_data, d));
    lemma_handed_up_measured(walk_data, m, i, None, reported);
}

/// Messages and progress make no difference to what was counted.
proof fn lemma_measured_alike(walk_data: &WalkData, w: WalkView, now: WalkView)
    requires
        now.dirs == w.dirs,
        now.top_level == w.top_level,
        now.ledger == w.ledger,
    ensures
        measured(walk_data, now) == measured(walk_data, w),
        is_bounded(walk_data, now) == is_bounded(walk_data, w),
{
}

/// A deed counts what it adds, and loses nothing.
proof fn lemma_deed_measured(
    walk_data: &WalkData,
    disk: Disk,
    w: WalkView,
    deed: Deed,
    now: WalkView,
)
    requires
        *walk_data.by_filetime is None,
        in_order(w),
        is_bounded(walk_data, w),
        leads(walk_data, disk, w, deed, now),
        fits(walk_data, disk, w, deed),
        now.dirs.len() <= usize::MAX,
        all_known(now.dirs),
    ensures
        is_bounded(walk_data, now),
        measured(walk_data, now) == measured(walk_data, w) + added(walk_data, disk, w, deed),
{
    match deed {
        Deed::Root(d, metadata) => {
            lemma_root_measured(walk_data, w, d, metadata);
            if !claimed_before(walk_data, metadata, w.inodes) {
                let root = root_dir(d, metadata, w.followed.len() as int);
                lemma_total_push(w.dirs, root, |x: DirView| load(walk_data.by_filecount, x));
                assert(total_size(root.children) == 0);
            }
        },
        Deed::Looked(i, facts, action) => {
            let class = path_class(w.dirs[i].kind, facts);
            let seen = WalkView { errors: class_recorded(w.errors, class, w.dirs[i].dir), ..w };
            lemma_measured_alike(walk_data, w, seen);
            if class != PathClass::Directory {
                lemma_scan_ended_measured(walk_data, seen, i, class != PathClass::File);
            }
        },
        Deed::Read(i, reading, retries, action) => {
            match attempt_failure(reading) {
                Some((kind, message)) => {
                    let failed = WalkView {
                        errors: attempt_recorded(
                            w.errors,
                            kind,
                            message,
                            w.dirs[i].dir,
                            retries,
                        ),
                        ..w
                    };
                    lemma_measured_alike(walk_data, w, failed);
                    if !tried_again(kind, retries) {
                        lemma_scan_ended_measured(walk_data, failed, i, false);
                    }
                },
                None => {
                    let dir = w.dirs[i].dir;
                    let depth = w.dirs[i].depth;
                    let (canonical, listing) = ((disk.canonical)(dir), (disk.listing)(dir));
                    let s = scan_of(walk_data, w, i, canonical, listing);
                    let taken = listing_taken(walk_data, w, i, canonical, listing);
                    let start = scan_start(w, w.dirs[i].root as int);
                    lemma_completed_len(walk_data, marked_scanned(taken, i), i, None, false);
                    lemma_listing_in_order(walk_data, w, i, canonical, listing);
                    assert(is_placed(w.dirs, i, w.followed.len() as int));
                    lemma_scan_weight(walk_data, dir, depth, canonical, start, listing);
                    lemma_branched(
                        w.dirs,
                        i,
                        s.nodes,
                        s.dirs,
                        w.followed.len() as int,
                        walk_data.by_filecount,
                    );
                    lemma_listing_measured(walk_data, w, i, canonical, listing);
                    assert(is_bounded(walk_data, taken));
                    lemma_scan_ended_measured(walk_data, taken, i, false);
                },
            }
        },
        Deed::Ended => {
            lemma_measured_alike(walk_data, w, now);
        },
    }
}

/// A directory whose metadata is known after a deed was known before it.
proof fn lemma_known_before(
    walk_data: &WalkData,
    disk: Disk,
    w: WalkView,
    deed: Deed,
    now: WalkView,
)
    requires
        in_order(w),
        leads(walk_data, disk, w, deed, now),
        now.dirs.len() <= usize::MAX,
        all_known(now.dirs),
    ensures
        all_known(w.dirs),
{
    lemma_deed_in_order(walk_data, disk, w, deed, now);
    assert forall|k: int| 0 <= k < w.dirs.len() implies (#[trigger] w.dirs[k]).metadata is Some by {
        assert(now.dirs[k].metadata is Some);
    }
}

/// Where nodes are not measured by timestamps and the metadata of every directory
/// is known, nothing is lost of what a walk counted: while it is under way its
/// state measures what was counted so far, and once it is finished its trees
/// measure that together.
pub proof fn lemma_nothing_lost(walk_data: &WalkData, disk: Disk, h: History, k: int)
    requires
        *walk_data.by_filetime is None,
        h.happened(walk_data, disk),
        forall|j: int|
            0 <= j < h.deeds.len() ==> fits(walk_data, disk, h.states[j], #[trigger] h.deeds[j]),
        0 <= k < h.states.len(),
        all_known(h.states[k].dirs),
    ensures
        measured(walk_data, h.states[k]) == added_before(walk_data, disk, h, k),
        h.states[k].all_finished() ==> total_size(h.states[k].top_level) == added_before(
            walk_data,
            disk,
            h,
            k,
        ),
{
    lemma_measured_so_far(walk_data, disk, h, k);
    if h.states[k].all_finished() {
        lemma_finished_measured(walk_data, h.states[k]);
    }
}

proof fn lemma_measured_so_far(walk_data: &WalkData, disk: Disk, h: History, k: int)
    requires
        *walk_data.by_filetime is None,
        h.happened(walk_data, disk),
        forall|j: int|
            0 <= j < h.deeds.len() ==> fits(walk_data, disk, h.states[j], #[trigger] h.deeds[j]),
        0 <= k < h.states.len(),
        all_known(h.states[k].dirs),
    ensures
        measured(walk_data, h.states[k]) == added_before(walk_data, disk, h, k),
        is_bounded(walk_data, h.states[k]),
    decreases k,
{
    if k > 0 {
        let (w, deed, now) = (h.states[k - 1], h.deeds[k - 1], h.states[k]);
        assert(h.follows(walk_data, disk, k - 1));
        lemma_history_in_order(walk_data, disk, h, k - 1);
        lemma_known_before(walk_data, disk, w, deed, now);
        lemma_measured_so_far(walk_data, disk, h, k - 1);
        lemma_deed_measured(walk_data, disk, w, deed, now);
    }
}

} // verus!
