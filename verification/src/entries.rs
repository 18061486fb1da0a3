//! What becomes of each entry of a directory, and of the directory once all of it
//! is known.

use vstd::prelude::*;

use crate::dir_walker::{
    entry_scanned, failure_recorded, first_retryable, listing_scanned, missing_recorded, DirKind,
    EntryKind, EntryView, FailureKind, ListedView, ScanView, SubdirectoryView, WalkData,
};
use crate::exclusion::lemma_accepted_measures_all;
use crate::filtered::is_left_out;
use crate::inode_set::FileId;
use crate::node::{own_size, EntryMetadata, NodeView};
use crate::path::{path_text, PathView};
use crate::progress::{recorded, ErrorsView, Operation};
use crate::walk::{
    attempt_failure, attempt_recorded, class_recorded, completed, dir_node, greatest_size, has_room,
    lemma_greatest_size, listed, listing_taken, looked, path_class, received, root_added,
    scan_ended, scan_of, scan_start, scan_weight, total_size, tried_again, weight, DirAction,
    DirView, PathClass, PathFacts, ReadingView, WalkView,
};

verus! {

// --------------------------------------------------------------------------
// Entries
// --------------------------------------------------------------------------

/// A file that is not left out, and of which no other name was counted, is counted
/// under its path: for its size, or for one where files are counted. By apparent
/// size every name counts.
pub proof fn lemma_file_is_counted(
    walk_data: &WalkData,
    depth: usize,
    canonical_dir: Option<PathView>,
    s: ScanView,
    e: EntryView,
    data: EntryMetadata,
)
    requires
        e.kind == Some(EntryKind::File),
        e.metadata == Some(data),
        !is_left_out(walk_data, canonical_dir, e),
        walk_data.use_apparent_size || (data.1 matches Some(id) ==> !s.inodes.contains(id)),
    ensures
        ({
            let now = entry_scanned(walk_data, depth, canonical_dir, s, e);
            let node = now.nodes.last();
            &&& now.nodes == s.nodes.push(node)
            &&& node.name == e.path
            &&& node.is_file
            &&& node.children.len() == 0
            &&& node.depth == depth
            &&& walk_data.by_filecount ==> node.size == 1
            &&& !walk_data.by_filecount && *walk_data.by_filetime is None ==> node.size == data.0
            &&& now.dirs == s.dirs
            &&& now.followed == s.followed
            &&& now.errors == s.errors
            &&& s.num_files < usize::MAX ==> now.num_files == s.num_files + 1
            &&& *walk_data.by_filetime is None && s.total_file_size + node.size <= u64::MAX
                ==> now.total_file_size == s.total_file_size + node.size
            &&& *walk_data.by_filetime is Some ==> now.total_file_size == s.total_file_size
            &&& node.inode_device == data.1
        }),
{
    lemma_accepted_measures_all(walk_data, e.path, true, true, data);
    let now = entry_scanned(walk_data, depth, canonical_dir, s, e);
    assert(now.nodes.drop_last() =~= s.nodes);
}

/// A directory that is not left out, and was not counted before, is walked one
/// level deeper.
pub proof fn lemma_directory_is_walked(
    walk_data: &WalkData,
    depth: usize,
    canonical_dir: Option<PathView>,
    s: ScanView,
    e: EntryView,
)
    requires
        e.kind == Some(EntryKind::Directory),
        !is_left_out(walk_data, canonical_dir, e),
        walk_data.use_apparent_size || (e.metadata matches Some((_, Some(id), _))
            ==> !s.inodes.contains(id)),
        depth < usize::MAX,
    ensures
        ({
            let now = entry_scanned(walk_data, depth, canonical_dir, s, e);
            let dir = now.dirs.last();
            &&& now.dirs == s.dirs.push(dir)
            &&& dir.dir == e.path
            &&& dir.depth == depth + 1
            &&& dir.kind == DirKind::TypedDir
            &&& dir.metadata == e.metadata
            &&& now.nodes == s.nodes
            &&& now.followed == s.followed
            &&& now.errors == s.errors
            &&& now.num_files == s.num_files
            &&& now.total_file_size == s.total_file_size
        }),
{
    let now = entry_scanned(walk_data, depth, canonical_dir, s, e);
    assert(now.dirs.drop_last() =~= s.dirs);
}

/// A link that is not followed, and what is neither a file, a directory nor a link,
/// is counted as something that is no file, and not entered.
pub proof fn lemma_link_is_not_entered(
    walk_data: &WalkData,
    depth: usize,
    canonical_dir: Option<PathView>,
    s: ScanView,
    e: EntryView,
    data: EntryMetadata,
)
    requires
        (e.kind == Some(EntryKind::Symlink) && !walk_data.follow_links) || e.kind == Some(
            EntryKind::Other,
        ),
        e.metadata == Some(data),
        !is_left_out(walk_data, canonical_dir, e),
        walk_data.use_apparent_size || (data.1 matches Some(id) ==> !s.inodes.contains(id)),
    ensures
        ({
            let now = entry_scanned(walk_data, depth, canonical_dir, s, e);
            let node = now.nodes.last();
            &&& now.nodes == s.nodes.push(node)
            &&& node.name == e.path
            &&& !node.is_file
            &&& node.children.len() == 0
            &&& node.depth == depth
            &&& node.size == own_size(walk_data, e.path, false, false, data)
            &&& now.dirs == s.dirs
            &&& now.followed == s.followed
            &&& now.errors == s.errors
        }),
{
    let now = entry_scanned(walk_data, depth, canonical_dir, s, e);
    assert(now.nodes.drop_last() =~= s.nodes);
}

/// A link that is followed is walked as a directory that has yet to be looked at,
/// unless it leaves the file systems of the walk or leads where a link of this root
/// has led. Where it leads is then known.
pub proof fn lemma_link_is_followed(
    walk_data: &WalkData,
    depth: usize,
    canonical_dir: Option<PathView>,
    s: ScanView,
    e: EntryView,
    id: FileId,
)
    requires
        walk_data.follow_links,
        e.kind == Some(EntryKind::Symlink),
        e.metadata matches Some(data) && data.1 == Some(id),
        !is_left_out(walk_data, canonical_dir, e),
        walk_data.use_apparent_size || !s.inodes.contains(id),
        depth < usize::MAX,
    ensures
        ({
            let now = entry_scanned(walk_data, depth, canonical_dir, s, e);
            let dir = now.dirs.last();
            &&& now.nodes == s.nodes
            &&& s.followed.contains(id) ==> now.dirs == s.dirs
            &&& !s.followed.contains(id) ==> {
                &&& now.dirs == s.dirs.push(dir)
                &&& dir.dir == e.path
                &&& dir.depth == depth + 1
                &&& dir.kind == DirKind::StatClassified
                &&& dir.metadata == e.metadata
                &&& now.followed == s.followed.insert(id)
            }
        }),
{
    let now = entry_scanned(walk_data, depth, canonical_dir, s, e);
    assert(now.dirs.len() > 0 ==> now.dirs.drop_last() =~= now.dirs.take(now.dirs.len() - 1));
    assert(!s.followed.contains(id) ==> now.dirs.drop_last() =~= s.dirs);
}

/// Where hard links are told apart, an entry that is not left out claims its
/// identity, and no other; by apparent size nothing is claimed.
pub proof fn lemma_identity_is_claimed(
    walk_data: &WalkData,
    depth: usize,
    canonical_dir: Option<PathView>,
    s: ScanView,
    e: EntryView,
    other: FileId,
)
    requires
        e.kind is Some,
        !is_left_out(walk_data, canonical_dir, e),
    ensures
        ({
            let now = entry_scanned(walk_data, depth, canonical_dir, s, e);
            &&& walk_data.use_apparent_size ==> now.inodes == s.inodes
            &&& !walk_data.use_apparent_size ==> (e.metadata matches Some((_, Some(id), _))
                ==> now.inodes.contains(id))
            &&& now.inodes.contains(other) ==> s.inodes.contains(other) || (e.metadata matches Some(
                (_, Some(id), _),
            ) && id == other)
            &&& s.inodes.contains(other) ==> now.inodes.contains(other)
        }),
{
}

/// An entry of a file whose identity was claimed before is not counted again: no
/// node and no directory comes of it, and no counter moves.
pub proof fn lemma_claimed_is_not_counted(
    walk_data: &WalkData,
    depth: usize,
    canonical_dir: Option<PathView>,
    s: ScanView,
    e: EntryView,
    id: FileId,
)
    requires
        !walk_data.use_apparent_size,
        e.metadata matches Some(data) && data.1 == Some(id),
        s.inodes.contains(id),
    ensures
        entry_scanned(walk_data, depth, canonical_dir, s, e) == s,
{
    let now = entry_scanned(walk_data, depth, canonical_dir, s, e);
    assert(s.inodes.insert(id) =~= s.inodes);
    assert(now =~= s);
}

/// What has no metadata is no node, and its path is among the messages; it was
/// counted among the files all the same.
pub proof fn lemma_missing_metadata_is_told(
    walk_data: &WalkData,
    depth: usize,
    canonical_dir: Option<PathView>,
    s: ScanView,
    e: EntryView,
)
    requires
        e.kind == Some(EntryKind::File) || e.kind == Some(EntryKind::Other) || (e.kind == Some(
            EntryKind::Symlink,
        ) && !walk_data.follow_links),
        e.metadata is None,
        !is_left_out(walk_data, canonical_dir, e),
    ensures
        ({
            let now = entry_scanned(walk_data, depth, canonical_dir, s, e);
            &&& now.nodes == s.nodes
            &&& now.dirs == s.dirs
            &&& now.inodes == s.inodes
            &&& now.followed == s.followed
            &&& s.num_files < usize::MAX ==> now.num_files == s.num_files + 1
            &&& now.total_file_size == s.total_file_size
            &&& now.errors.metadata_unavailable.contains(path_text(e.path))
            &&& now.errors.file_not_found == s.errors.file_not_found
            &&& now.errors.no_permissions == s.errors.no_permissions
        }),
{
    lemma_recorded(s.errors.metadata_unavailable, path_text(e.path), path_text(e.path));
}

/// A listing is taken entry by entry: what one part of it brings is what the next
/// part starts from.
pub proof fn lemma_listing_in_parts(
    walk_data: &WalkData,
    dir: PathView,
    depth: usize,
    canonical_dir: Option<PathView>,
    s: ScanView,
    first: Seq<ListedView>,
    second: Seq<ListedView>,
)
    ensures
        listing_scanned(walk_data, dir, depth, canonical_dir, s, first + second)
            == listing_scanned(
            walk_data,
            dir,
            depth,
            canonical_dir,
            listing_scanned(walk_data, dir, depth, canonical_dir, s, first),
            second,
        ),
    decreases second.len(),
{
    if second.len() == 0 {
        assert(first + second =~= first);
    } else {
        assert((first + second).drop_last() =~= first + second.drop_last());
        lemma_listing_in_parts(
            walk_data,
            dir,
            depth,
            canonical_dir,
            s,
            first,
            second.drop_last(),
        );
    }
}

/// One entry of a listing does what that entry does, and a failed one is recorded
/// as a failure at the directory.
pub proof fn lemma_listing_of_one(
    walk_data: &WalkData,
    dir: PathView,
    depth: usize,
    canonical_dir: Option<PathView>,
    s: ScanView,
    e: EntryView,
    kind: FailureKind,
    message: Seq<char>,
)
    ensures
        listing_scanned(walk_data, dir, depth, canonical_dir, s, seq![ListedView::Found(e)])
            == entry_scanned(walk_data, depth, canonical_dir, s, e),
        listing_scanned(
            walk_data,
            dir,
            depth,
            canonical_dir,
            s,
            seq![ListedView::Failed(kind, message)],
        ) == (ScanView {
            errors: failure_recorded(s.errors, kind, message, path_text(dir)),
            ..s
        }),
{
    let found = seq![ListedView::Found(e)];
    let failed = seq![ListedView::Failed(kind, message)];
    assert(found.drop_last() =~= Seq::empty());
    assert(failed.drop_last() =~= Seq::empty());
    assert(listing_scanned(walk_data, dir, depth, canonical_dir, s, found.drop_last()) == s);
    assert(listing_scanned(walk_data, dir, depth, canonical_dir, s, failed.drop_last()) == s);
}

// --------------------------------------------------------------------------
// Directories
// --------------------------------------------------------------------------

/// A directory is shown under its path with everything in it. It measures what it
/// does by itself and all that is in it together, or, by timestamps, the latest of
/// them.
pub proof fn lemma_directory_measures_its_contents(walk_data: &WalkData, d: DirView, i: int)
    requires
        d.metadata is Some,
        *walk_data.by_filetime is None ==> own_size(
            walk_data,
            d.dir,
            false,
            false,
            d.metadata->Some_0,
        ) + total_size(d.children) <= u64::MAX,
    ensures
        ({
            let own = own_size(walk_data, d.dir, false, false, d.metadata->Some_0);
            dir_node(walk_data, d) matches Some(node) && {
                &&& node.name == d.dir
                &&& node.depth == d.depth
                &&& node.children == d.children
                &&& !node.is_file
                &&& node.inode_device == d.metadata->Some_0.1
                &&& *walk_data.by_filetime is None ==> node.size == own + total_size(d.children)
                &&& *walk_data.by_filetime is Some ==> node.size >= own
                &&& *walk_data.by_filetime is Some && 0 <= i < d.children.len() ==> node.size
                    >= d.children[i].size
                &&& *walk_data.by_filetime is Some ==> node.size == own || exists|k: int|
                    0 <= k < d.children.len() && (#[trigger] d.children[k]).size == node.size
            }
        }),
{
    let own = own_size(walk_data, d.dir, false, false, d.metadata->Some_0);
    crate::sums::lemma_total_not_negative(d.children, |n: NodeView| n.size as int);
    lemma_greatest_size(own, d.children);
    let most = greatest_size(own, d.children);
    if 0 <= i < d.children.len() {
        assert(d.children.contains(d.children[i]));
    }
    if most != own {
        let n = choose|n: NodeView| #[trigger] d.children.contains(n) && n.size == most;
        let k = choose|k: int| 0 <= k < d.children.len() && d.children[k] == n;
        assert(d.children[k].size == most);
    }
}

/// The sizes of trees add up, one by one and list by list.
pub proof fn lemma_sizes_add_up(a: Seq<NodeView>, b: Seq<NodeView>, n: NodeView)
    ensures
        total_size(Seq::empty()) == 0,
        total_size(seq![n]) == n.size,
        total_size(a + b) == total_size(a) + total_size(b),
{
    let f = |n: NodeView| n.size as int;
    crate::sums::lemma_total_append(a, b, f);
    let one = seq![n];
    assert(one.drop_last() =~= Seq::empty());
    assert(total_size(one.drop_last()) == 0);
}

/// A directory without metadata is lost.
pub proof fn lemma_unknown_directory_is_lost(walk_data: &WalkData, d: DirView)
    requires
        d.metadata is None,
    ensures
        dir_node(walk_data, d) is None,
{
}

/// A root is walked from depth zero, unless hard links are told apart and it was
/// counted before.
pub proof fn lemma_root_is_walked(
    walk_data: &WalkData,
    w: WalkView,
    d: PathView,
    metadata: Option<EntryMetadata>,
)
    ensures
        ({
            let now = root_added(walk_data, w, d, metadata);
            let is_known = !walk_data.use_apparent_size && (metadata matches Some((_, Some(id), _))
                && w.inodes.contains(id));
            let root = now.dirs.last();
            &&& is_known ==> now.dirs == w.dirs
            &&& !is_known ==> {
                &&& now.dirs == w.dirs.push(root)
                &&& root.dir == d
                &&& root.depth == 0
                &&& root.metadata == metadata
                &&& root.parent is None
                &&& !root.scanned
                &&& root.kind == DirKind::StatClassified
                &&& root.children.len() == 0
            }
            &&& now.num_files == 0
            &&& now.total_file_size == 0
            &&& now.state == Operation::INDEXING
            &&& now.current_path == path_text(d)
            &&& now.top_level == w.top_level
            &&& now.errors == w.errors
            &&& now.followed.len() == w.followed.len() + 1
            &&& now.followed.drop_last() == w.followed
            &&& metadata matches Some((_, Some(id), _)) ==> now.followed.last()
                == Set::<FileId>::empty().insert(id)
            &&& !(metadata matches Some((_, Some(_), _))) ==> now.followed.last()
                == Set::<FileId>::empty()
        }),
{
    let now = root_added(walk_data, w, d, metadata);
    assert(now.followed.drop_last() =~= w.followed);
    if now.dirs != w.dirs {
        assert(now.dirs.drop_last() =~= w.dirs);
    }
}

// --------------------------------------------------------------------------
// What goes wrong
// --------------------------------------------------------------------------

/// A message that is recorded is there, once, and no other comes or goes.
pub proof fn lemma_recorded(messages: Seq<Seq<char>>, message: Seq<char>, other: Seq<char>)
    ensures
        recorded(messages, message).contains(message),
        other != message ==> recorded(messages, message).contains(other) == messages.contains(
            other,
        ),
        messages.no_duplicates() ==> recorded(messages, message).no_duplicates(),
        messages.contains(message) ==> recorded(messages, message) == messages,
        messages.is_prefix_of(recorded(messages, message)),
{
    let now = recorded(messages, message);
    if !messages.contains(message) {
        assert(now[messages.len() as int] == message);
        if messages.contains(other) {
            let k = choose|k: int| 0 <= k < messages.len() && messages[k] == other;
            assert(now[k] == other);
        }
        if now.contains(other) && other != message {
            let k = choose|k: int| 0 <= k < now.len() && now[k] == other;
            assert(messages[k] == other);
        }
        if messages.no_duplicates() {
            assert forall|i: int, j: int|
                0 <= i < now.len() && 0 <= j < now.len() && i != j implies now[i] != now[j] by {
                if i == messages.len() {
                    assert(messages[j] == now[j]);
                    assert(messages.contains(messages[j]));
                } else if j == messages.len() {
                    assert(messages[i] == now[i]);
                    assert(messages.contains(messages[i]));
                }
            }
        }
    }
    assert(messages.is_prefix_of(now));
}

/// Each kind of failure has its own list: a directory that may not be read is named
/// among those without permission, and what is not found and what is unknown is
/// told by its message. An interruption is only counted.
pub proof fn lemma_failures_are_told(errors: ErrorsView, message: Seq<char>, dir: Seq<char>)
    ensures
        ({
            let now = failure_recorded(errors, FailureKind::PermissionDenied, message, dir);
            now == (ErrorsView { no_permissions: now.no_permissions, ..errors })
                && now.no_permissions.contains(dir)
        }),
        ({
            let now = failure_recorded(errors, FailureKind::InvalidInput, message, dir);
            now == (ErrorsView { no_permissions: now.no_permissions, ..errors })
                && now.no_permissions.contains(dir)
        }),
        ({
            let now = failure_recorded(errors, FailureKind::NotFound, message, dir);
            now == (ErrorsView { file_not_found: now.file_not_found, ..errors })
                && now.file_not_found.contains(message)
        }),
        ({
            let now = failure_recorded(errors, FailureKind::Other, message, dir);
            now == (ErrorsView { unknown_error: now.unknown_error, ..errors })
                && now.unknown_error.contains(message)
        }),
        errors.interrupted_error < i32::MAX ==> failure_recorded(
            errors,
            FailureKind::Interrupted,
            message,
            dir,
        ) == (ErrorsView { interrupted_error: (errors.interrupted_error + 1) as i32, ..errors }),
{
    lemma_recorded(errors.no_permissions, dir, dir);
    lemma_recorded(errors.file_not_found, message, message);
    lemma_recorded(errors.unknown_error, message, message);
}

/// An interrupted listing is tried again, up to 999 times, and is named among those
/// given up after that; no other failure is tried again.
pub proof fn lemma_interruptions_are_retried(
    errors: ErrorsView,
    kind: FailureKind,
    message: Seq<char>,
    dir: PathView,
    retries: u32,
)
    ensures
        tried_again(kind, retries) <==> kind == FailureKind::Interrupted && retries < 999,
        kind == FailureKind::Interrupted && retries >= 999 ==> attempt_recorded(
            errors,
            kind,
            message,
            dir,
            retries,
        ).eintr_exhausted.contains(path_text(dir)),
        kind != FailureKind::Interrupted || retries < 999 ==> attempt_recorded(
            errors,
            kind,
            message,
            dir,
            retries,
        ).eintr_exhausted == errors.eintr_exhausted,
{
    lemma_recorded(errors.eintr_exhausted, path_text(dir), path_text(dir));
}

/// A listing is taken as a whole or not at all: it fails if the directory cannot be
/// read, or if one of its items was interrupted, and then with that failure.
pub proof fn lemma_listing_fails_as_a_whole(
    listing: Seq<ListedView>,
    kind: FailureKind,
    message: Seq<char>,
)
    ensures
        attempt_failure(ReadingView::Unreadable(kind, message)) == Some((kind, message)),
        attempt_failure(ReadingView::Items(listing)) is None <==> forall|i: int|
            0 <= i < listing.len() ==> !((#[trigger] listing[i]) matches ListedView::Failed(k, _)
                && k == FailureKind::Interrupted),
        attempt_failure(ReadingView::Items(listing)) matches Some((k, m)) ==> k
            == FailureKind::Interrupted && listing.contains(ListedView::Failed(k, m)),
{
    lemma_first_interruption(listing);
}

proof fn lemma_first_interruption(listing: Seq<ListedView>)
    ensures
        match first_retryable(listing) {
            None => forall|i: int|
                0 <= i < listing.len() ==> !((#[trigger] listing[i]) matches ListedView::Failed(
                    k,
                    _,
                ) && k == FailureKind::Interrupted),
            Some(i) => 0 <= i < listing.len() && listing[i] is Failed && listing[i]->Failed_0
                == FailureKind::Interrupted,
        },
    decreases listing.len(),
{
    if listing.len() > 0 {
        lemma_first_interruption(listing.drop_last());
        assert forall|i: int|
            0 <= i < listing.len() && first_retryable(listing) is None implies !((
        #[trigger] listing[i]) matches ListedView::Failed(k, _) && k == FailureKind::Interrupted) by {
            if i < listing.len() - 1 {
                assert(listing.drop_last()[i] == listing[i]);
            }
        }
    }
}

/// A path that a listing calls a directory is one; any other is what it leads to,
/// and is missed where it leads nowhere. What is there but neither a file nor a
/// directory is told apart from what is not there.
pub proof fn lemma_paths_are_classified(
    kind: DirKind,
    facts: PathFacts,
    errors: ErrorsView,
    path: PathView,
)
    ensures
        kind == DirKind::TypedDir ==> path_class(kind, facts) == PathClass::Directory,
        facts.is_dir ==> path_class(kind, facts) == PathClass::Directory,
        kind == DirKind::StatClassified && !facts.is_dir && facts.is_file ==> path_class(kind, facts)
            == PathClass::File,
        kind == DirKind::StatClassified && !facts.is_dir && !facts.is_file ==> path_class(
            kind,
            facts,
        ) == (if facts.link == Some(false) {
            PathClass::NotADirectory
        } else {
            PathClass::NotFound
        }),
        class_recorded(errors, PathClass::NotADirectory, path).not_a_directory.contains(
            path_text(path),
        ),
        class_recorded(errors, PathClass::NotFound, path).file_not_found.contains(path_text(path)),
        class_recorded(errors, PathClass::Directory, path) == errors,
        class_recorded(errors, PathClass::File, path) == errors,
{
    lemma_recorded(errors.not_a_directory, path_text(path), path_text(path));
    lemma_recorded(errors.file_not_found, path_text(path), path_text(path));
}

// --------------------------------------------------------------------------
// Room
// --------------------------------------------------------------------------

/// An entry takes up no more room than it can measure: its size, or one where files
/// are counted, and nothing where its metadata is missing. A listing takes up what
/// its leaves measure and its directories can.
pub proof fn lemma_room_is_what_is_measured(
    walk_data: &WalkData,
    counting: bool,
    data: EntryMetadata,
    s: ScanView,
    dir: SubdirectoryView,
    leaf: NodeView,
)
    ensures
        weight(counting, None) == 0,
        weight(true, Some(data)) == 1,
        weight(false, Some(data)) == data.0,
        scan_weight(walk_data, ScanView { nodes: s.nodes.push(leaf), ..s }) == scan_weight(
            walk_data,
            s,
        ) + leaf.size,
        scan_weight(walk_data, ScanView { dirs: s.dirs.push(dir), ..s }) == scan_weight(walk_data, s)
            + weight(walk_data.by_filecount, dir.metadata),
        scan_weight(
            walk_data,
            ScanView { nodes: Seq::empty(), dirs: Seq::empty(), ..s },
        ) == 0,
{
    crate::sums::lemma_total_push(s.nodes, leaf, |n: NodeView| n.size as int);
    crate::sums::lemma_total_push(
        s.dirs,
        dir,
        |d: SubdirectoryView| weight(walk_data.by_filecount, d.metadata),
    );
}

// --------------------------------------------------------------------------
// Steps
// --------------------------------------------------------------------------

/// What a listing finds goes to its directory: leaves become its children, and each
/// subdirectory becomes a directory of the walk that is yet to be scanned, found in
/// it and below the same root. Nothing else changes among the directories.
pub proof fn lemma_found_goes_to_its_directory(
    walk_data: &WalkData,
    w: WalkView,
    i: int,
    canonical_dir: Option<PathView>,
    listing: Seq<ListedView>,
    k: int,
)
    requires
        0 <= i < w.dirs.len(),
        w.dirs.len() <= usize::MAX,
        w.dirs[i].pending + scan_of(walk_data, w, i, canonical_dir, listing).dirs.len()
            <= usize::MAX,
    ensures
        ({
            let s = scan_of(walk_data, w, i, canonical_dir, listing);
            let now = listing_taken(walk_data, w, i, canonical_dir, listing);
            let n = w.dirs.len() as int;
            &&& now.dirs.len() == n + s.dirs.len()
            &&& now.dirs[i].children == w.dirs[i].children + s.nodes
            &&& now.dirs[i].pending == w.dirs[i].pending + s.dirs.len()
            &&& 0 <= k < n && k != i ==> now.dirs[k] == w.dirs[k]
            &&& 0 <= k < s.dirs.len() ==> {
                let d = now.dirs[n + k];
                &&& d.dir == s.dirs[k].dir
                &&& d.depth == s.dirs[k].depth
                &&& d.kind == s.dirs[k].kind
                &&& d.metadata == s.dirs[k].metadata
                &&& d.root == w.dirs[i].root
                &&& d.parent == Some(i as usize)
                &&& !d.scanned
                &&& d.children.len() == 0
            }
            &&& now.inodes == s.inodes
            &&& now.followed == w.followed.update(w.dirs[i].root as int, s.followed)
            &&& now.errors == s.errors
            &&& now.num_files == s.num_files
            &&& now.total_file_size == s.total_file_size
            &&& now.top_level == w.top_level
        }),
{
}

/// A scan starts from what the walk knows: the identities that were claimed, those
/// that links of its root led to, the messages and the counters. It has found
/// nothing yet.
pub proof fn lemma_scan_starts_from_the_walk(w: WalkView, root: int)
    ensures
        scan_start(w, root).inodes == w.inodes,
        scan_start(w, root).followed == w.followed[root],
        scan_start(w, root).errors == w.errors,
        scan_start(w, root).num_files == w.num_files,
        scan_start(w, root).total_file_size == w.total_file_size,
        scan_start(w, root).nodes.len() == 0,
        scan_start(w, root).dirs.len() == 0,
{
}

/// What is a directory is listed next; anything else is done with, and nothing was
/// found in it.
pub proof fn lemma_looking_leads_on(
    walk_data: &WalkData,
    w: WalkView,
    i: int,
    facts: PathFacts,
    now: WalkView,
    action: DirAction,
)
    requires
        looked(walk_data, w, i, facts, now, action),
    ensures
        w.dirs[i].kind == DirKind::TypedDir || facts.is_dir ==> action == DirAction::List(0)
            && now == w,
        w.dirs[i].kind == DirKind::StatClassified && !facts.is_dir ==> action == (
        DirAction::Finished { first: w.dirs.len() as usize, count: 0 }),
        w.dirs[i].kind == DirKind::StatClassified && !facts.is_dir && facts.is_file ==> now
            == scan_ended(walk_data, w, i, false),
        w.dirs[i].kind == DirKind::StatClassified && !facts.is_dir && !facts.is_file ==> now
            == scan_ended(
            walk_data,
            WalkView {
                errors: class_recorded(
                    w.errors,
                    if facts.link == Some(false) {
                        PathClass::NotADirectory
                    } else {
                        PathClass::NotFound
                    },
                    w.dirs[i].dir,
                ),
                ..w
            },
            i,
            true,
        ),
{
}

/// An interrupted listing changes nothing but messages while it is tried again, once
/// more each time; a directory that is given up is done with, and nothing was found
/// in it; a listing that is taken is followed by what was found in it.
pub proof fn lemma_listing_leads_on(
    walk_data: &WalkData,
    w: WalkView,
    i: int,
    reading: ReadingView,
    canonical_dir: Option<PathView>,
    retries: u32,
    now: WalkView,
    action: DirAction,
)
    requires
        listed(walk_data, w, i, reading, canonical_dir, retries, now, action),
    ensures
        attempt_failure(reading) matches Some((kind, _)) ==> kind == FailureKind::Interrupted
            && retries < 999 ==> {
            &&& action == DirAction::List((retries + 1) as u32)
            &&& now == (WalkView { errors: now.errors, ..w })
        },
        attempt_failure(reading) matches Some((kind, message)) ==> kind != FailureKind::Interrupted
            || retries >= 999 ==> {
            &&& action == (DirAction::Finished { first: w.dirs.len() as usize, count: 0 })
            &&& now == scan_ended(
                walk_data,
                WalkView {
                    errors: attempt_recorded(w.errors, kind, message, w.dirs[i].dir, retries),
                    ..w
                },
                i,
                false,
            )
        },
        attempt_failure(reading) is None ==> {
            let taken = listing_taken(walk_data, w, i, canonical_dir, reading->Items_0);
            &&& action == (DirAction::Finished {
                first: w.dirs.len() as usize,
                count: (taken.dirs.len() - w.dirs.len()) as usize,
            })
            &&& now == scan_ended(walk_data, taken, i, false)
        },
{
}

/// Handing up nodes loses no message, and names no directory twice.
proof fn lemma_messages_stay(
    walk_data: &WalkData,
    w: WalkView,
    i: int,
    brought: Option<NodeView>,
    reported: bool,
    message: Seq<char>,
)
    ensures
        w.errors.metadata_unavailable.contains(message) ==> completed(
            walk_data,
            w,
            i,
            brought,
            reported,
        ).errors.metadata_unavailable.contains(message),
    decreases i,
{
    let d = received(w.dirs[i], brought);
    if d.pending == 0 {
        let node = dir_node(walk_data, d);
        let now = WalkView {
            dirs: w.dirs.update(i, DirView { children: Seq::empty(), ..d }),
            errors: if node is None && !reported {
                missing_recorded(w.errors, d.dir)
            } else {
                w.errors
            },
            ..w
        };
        lemma_recorded(w.errors.metadata_unavailable, path_text(d.dir), message);
        match d.parent {
            Some(p) => if 0 <= p < i {
                lemma_messages_stay(walk_data, now, p as int, node, false, message);
            },
            None => {},
        }
    }
}

/// A directory without metadata that is finished is named among the messages, unless
/// it was reported already; one with metadata is not. A root becomes one of the
/// finished trees.
pub proof fn lemma_finished_directory(
    walk_data: &WalkData,
    w: WalkView,
    i: int,
    brought: Option<NodeView>,
    reported: bool,
)
    requires
        0 <= i < w.dirs.len(),
        w.dirs[i].pending == 1,
    ensures
        ({
            let now = completed(walk_data, w, i, brought, reported);
            let all = match brought {
                Some(node) => w.dirs[i].children.push(node),
                None => w.dirs[i].children,
            };
            let node = dir_node(walk_data, DirView { children: all, ..w.dirs[i] });
            &&& w.dirs[i].metadata is None && !reported
                ==> now.errors.metadata_unavailable.contains(path_text(w.dirs[i].dir))
            &&& w.dirs[i].parent is None && (w.dirs[i].metadata is Some || reported) ==> now.errors
                == w.errors
            &&& w.dirs[i].parent is None && w.dirs[i].metadata is Some ==> now.top_level
                == w.top_level.push(node->Some_0)
            &&& w.dirs[i].parent is None && w.dirs[i].metadata is None ==> now.top_level
                == w.top_level
        }),
{
    let d = received(w.dirs[i], brought);
    let node = dir_node(walk_data, d);
    let now = WalkView {
        dirs: w.dirs.update(i, DirView { children: Seq::empty(), ..d }),
        errors: if node is None && !reported {
            missing_recorded(w.errors, d.dir)
        } else {
            w.errors
        },
        ..w
    };
    lemma_recorded(w.errors.metadata_unavailable, path_text(d.dir), path_text(d.dir));
    match d.parent {
        Some(p) => if 0 <= p < i {
            lemma_messages_stay(walk_data, now, p as int, node, false, path_text(d.dir));
        },
        None => {},
    }
}

/// The ledger holds what the entries of a walk can measure together: adding a root
/// adds what it can measure, and taking a listing what that brings, unless nodes are
/// measured by timestamps.
pub proof fn lemma_ledger_is_kept(
    walk_data: &WalkData,
    w: WalkView,
    d: PathView,
    metadata: Option<EntryMetadata>,
    i: int,
    canonical_dir: Option<PathView>,
    listing: Seq<ListedView>,
)
    requires
        walk_data.use_apparent_size,
    ensures
        *walk_data.by_filetime is Some ==> root_added(walk_data, w, d, metadata).ledger == w.ledger,
        *walk_data.by_filetime is Some ==> listing_taken(
            walk_data,
            w,
            i,
            canonical_dir,
            listing,
        ).ledger == w.ledger,
        *walk_data.by_filetime is None && w.ledger + weight(walk_data.by_filecount, metadata)
            <= u64::MAX ==> root_added(walk_data, w, d, metadata).ledger == w.ledger + weight(
            walk_data.by_filecount,
            metadata,
        ),
        ({
            let s = scan_of(walk_data, w, i, canonical_dir, listing);
            *walk_data.by_filetime is None && 0 <= scan_weight(walk_data, s) && w.ledger
                + scan_weight(walk_data, s) <= u64::MAX ==> listing_taken(
                walk_data,
                w,
                i,
                canonical_dir,
                listing,
            ).ledger == w.ledger + scan_weight(walk_data, s)
        }),
        // there is room as long as that can be held
        *walk_data.by_filetime is Some ==> has_room(walk_data, w, u64::MAX as int),
        *walk_data.by_filetime is None ==> (has_room(
            walk_data,
            w,
            weight(walk_data.by_filecount, metadata),
        ) <==> w.ledger + weight(walk_data.by_filecount, metadata) <= u64::MAX),
{
}

/// A directory that waits for more keeps what was brought; one that waits for
/// nothing more hands its node to the directory that it was found in, and to no
/// other, which then waits for one thing less.
pub proof fn lemma_node_goes_to_its_directory(
    walk_data: &WalkData,
    w: WalkView,
    i: int,
    p: usize,
    brought: Option<NodeView>,
    reported: bool,
    k: int,
)
    requires
        0 <= i < w.dirs.len(),
        w.dirs[i].pending > 0,
        w.dirs[i].parent == Some(p),
        p < i,
        w.dirs[p as int].pending > 1,
    ensures
        ({
            let now = completed(walk_data, w, i, brought, reported);
            let all = match brought {
                Some(node) => w.dirs[i].children.push(node),
                None => w.dirs[i].children,
            };
            let node = dir_node(walk_data, DirView { children: all, ..w.dirs[i] });
            let above = w.dirs[p as int];
            &&& now.top_level == w.top_level
            &&& now.dirs.len() == w.dirs.len()
            &&& 0 <= k < w.dirs.len() && k != i && k != p ==> now.dirs[k] == w.dirs[k]
            &&& w.dirs[i].pending > 1 ==> {
                &&& now.dirs[i].children == all
                &&& now.dirs[i].pending == w.dirs[i].pending - 1
                &&& now.dirs[p as int] == above
                &&& now.errors == w.errors
            }
            &&& w.dirs[i].pending == 1 ==> {
                &&& now.dirs[i].children.len() == 0
                &&& now.dirs[i].pending == 0
                &&& now.dirs[p as int].pending == above.pending - 1
                &&& now.dirs[p as int].children == (match node {
                    Some(node) => above.children.push(node),
                    None => above.children,
                })
            }
        }),
{
    let d = received(w.dirs[i], brought);
    if d.pending == 0 {
        let node = dir_node(walk_data, d);
        let same = DirView { children: d.children, ..w.dirs[i] };
        assert(dir_node(walk_data, same) == node);
        let now = WalkView {
            dirs: w.dirs.update(i, DirView { children: Seq::empty(), ..d }),
            errors: if node is None && !reported {
                missing_recorded(w.errors, d.dir)
            } else {
                w.errors
            },
            ..w
        };
        assert(completed(walk_data, w, i, brought, reported) == completed(
            walk_data,
            now,
            p as int,
            node,
            false,
        ));
        assert(received(now.dirs[p as int], node).pending > 0);
    }
}

} // verus!
