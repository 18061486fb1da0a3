//! The walk over directory trees.

use std::collections::HashSet;

use vstd::prelude::*;
use vstd::utf8::valid_utf8;

use crate::config::DAY_SECONDS;
use crate::exclusion::{is_asked_for, lemma_each_time_filter_holds, lemma_expressions_hold};
use crate::inode_set::{FileId, IdSet, InodeSet};
use crate::lists::reverse;
use crate::node::{
    build_node, is_filtered_out_due_to_times, lemma_node_view, own_size, times_reject,
    EntryMetadata, FileTime, Node, NodeView,
};
use crate::path::{components_of, copy_bytes, file_name_of, path_text, PathBuf, PathView};
use crate::path_join::joined;
use crate::pattern::{found_in, matches_of};
use crate::progress::{recorded, wrapped_u64, wrapped_usize, ErrorsView, PAtomicInfo, RuntimeErrors};
use crate::text::from_utf8;
use crate::utils::{
    is_filtered_out_due_to_invert_regex, is_filtered_out_due_to_regex, names_one_of, none_found,
    parts_start_with, path_set_contains, path_starts_with,
};

verus! {

/// How a timestamp is held against a bound.
#[derive(Debug, Clone, Copy, PartialEq, Eq, Structural)]
pub enum Operator {
    /// On the day that starts at the bound.
    Equal,
    /// At the bound or before it.
    LessThan,
    /// At the bound or after it.
    GreaterThan,
}

/// The options of a walk.
pub struct WalkData<'a> {
    pub ignore_directories: Vec<PathBuf>,
    pub absolute_ignore_directories: Vec<PathBuf>,
    pub filter_regex: &'a [regex::Regex],
    pub invert_filter_regex: &'a [regex::Regex],
    pub allowed_filesystems: HashSet<u64>,
    pub filter_modified_time: Option<(Operator, i64)>,
    pub filter_accessed_time: Option<(Operator, i64)>,
    pub filter_changed_time: Option<(Operator, i64)>,
    pub use_apparent_size: bool,
    pub by_filecount: bool,
    pub by_filetime: &'a Option<FileTime>,
    pub ignore_hidden: bool,
    pub follow_links: bool,
}

/// The day that a filter names ends within the range of timestamps.
pub open spec fn filter_in_range(filter_time: Option<(Operator, i64)>) -> bool {
    filter_time matches Some((Operator::Equal, bound)) ==> bound + DAY_SECONDS <= i64::MAX
}

impl<'a> WalkData<'a> {
    /// The time filters name days within the range of timestamps.
    pub open spec fn in_range(&self) -> bool {
        &&& filter_in_range(self.filter_modified_time)
        &&& filter_in_range(self.filter_accessed_time)
        &&& filter_in_range(self.filter_changed_time)
    }
}

// --------------------------------------------------------------------------
// What went wrong
// --------------------------------------------------------------------------

/// The kind of a failed operation on a directory.
#[derive(Debug, Clone, Copy, PartialEq, Eq, Structural)]
pub enum FailureKind {
    PermissionDenied,
    InvalidInput,
    NotFound,
    Interrupted,
    Other,
}

/// A failed operation on a directory: its kind, and what the system says of it.
#[derive(Debug)]
pub struct Failure {
    pub kind: FailureKind,
    pub message: String,
}

/// The failure goes away when the operation is tried again.
pub open spec fn retryable(kind: FailureKind) -> bool {
    kind == FailureKind::Interrupted
}

/// Tells whether a failure goes away when the operation is tried again.
pub fn is_retryable(failed: &Failure) -> (r: bool)
    ensures
        r == retryable(failed.kind),
{
    failed.kind == FailureKind::Interrupted
}

/// The messages after a failure at the directory with the text `dir`.
pub open spec fn failure_recorded(
    errors: ErrorsView,
    kind: FailureKind,
    message: Seq<char>,
    dir: Seq<char>,
) -> ErrorsView {
    match kind {
        FailureKind::PermissionDenied | FailureKind::InvalidInput => ErrorsView {
            no_permissions: recorded(errors.no_permissions, dir),
            ..errors
        },
        FailureKind::NotFound => ErrorsView {
            file_not_found: recorded(errors.file_not_found, message),
            ..errors
        },
        FailureKind::Interrupted => ErrorsView {
            interrupted_error: (errors.interrupted_error + 1) as i32,
            ..errors
        },
        FailureKind::Other => ErrorsView {
            unknown_error: recorded(errors.unknown_error, message),
            ..errors
        },
    }
}

/// Records a failure at a directory.
pub fn record_error(failed: &Failure, dir: &PathBuf, errors: &mut RuntimeErrors)
    requires
        retryable(failed.kind) ==> old(errors).interrupted_error < i32::MAX,
    ensures
        final(errors)@ == failure_recorded(
            old(errors)@,
            failed.kind,
            failed.message@,
            path_text(dir@),
        ),
{
    match failed.kind {
        FailureKind::PermissionDenied | FailureKind::InvalidInput => {
            errors.no_permissions.insert(dir.to_lossy());
        },
        FailureKind::NotFound => {
            errors.file_not_found.insert(failed.message.clone());
        },
        FailureKind::Interrupted => {
            errors.interrupted_error = errors.interrupted_error + 1;
        },
        FailureKind::Other => {
            errors.unknown_error.insert(failed.message.clone());
        },
    }
}

/// The messages after the metadata of a path was missing.
pub open spec fn missing_recorded(errors: ErrorsView, path: PathView) -> ErrorsView {
    ErrorsView {
        metadata_unavailable: recorded(errors.metadata_unavailable, path_text(path)),
        ..errors
    }
}

/// Records that the metadata of a path was missing.
pub fn record_metadata_unavailable(path: &PathBuf, errors: &mut RuntimeErrors)
    ensures
        final(errors)@ == missing_recorded(old(errors)@, path@),
{
    errors.metadata_unavailable.insert(path.to_lossy());
}

/// The messages after a directory was given up.
pub open spec fn exhausted_recorded(errors: ErrorsView, dir: PathView) -> ErrorsView {
    ErrorsView {
        eintr_exhausted: recorded(errors.eintr_exhausted, path_text(dir)),
        ..errors
    }
}

/// Records that a directory was given up because its listing was interrupted
/// too often.
pub fn record_eintr_exhausted(dir: &PathBuf, errors: &mut RuntimeErrors)
    ensures
        final(errors)@ == exhausted_recorded(old(errors)@, dir@),
{
    errors.eintr_exhausted.insert(dir.to_lossy());
}

// --------------------------------------------------------------------------
// What is ignored
// --------------------------------------------------------------------------

/// Where the entry at `path` lies once links are resolved: its name behind the
/// resolved directory that holds it, or else where it was itself resolved to.
pub open spec fn resolved_parts(
    path: PathView,
    canonical_dir: Option<PathView>,
    resolved: Option<PathView>,
) -> Seq<crate::path::ComponentView> {
    match canonical_dir {
        Some(dir) => components_of(
            joined(
                dir,
                PathView {
                    platform: dir.platform,
                    text: match file_name_of(components_of(path)) {
                        Some(name) => name,
                        None => Seq::empty(),
                    },
                },
            ),
        ),
        None => match resolved {
            Some(place) => components_of(place),
            None => Seq::empty(),
        },
    }
}

/// A path lies in an ignored directory.
pub open spec fn in_ignored(
    walk_data: &WalkData,
    path: PathView,
    canonical_dir: Option<PathView>,
    resolved: Option<PathView>,
) -> bool {
    ||| names_one_of(walk_data.ignore_directories@, path)
    ||| exists|k: int|
        0 <= k < walk_data.absolute_ignore_directories.len() && parts_start_with(
            (#[trigger] walk_data.absolute_ignore_directories@[k])@.platform,
            components_of(walk_data.absolute_ignore_directories@[k]@),
            resolved_parts(path, canonical_dir, resolved),
        )
}

/// The view of a path that may be missing.
pub open spec fn maybe_path(path: Option<&PathBuf>) -> Option<PathView> {
    match path {
        Some(path) => Some(path@),
        None => None,
    }
}

/// Tells whether a path lies in an ignored directory. `canonical_dir` is the
/// resolved form of the directory that holds the entry, and `resolved` that of
/// the entry itself, which is looked at where the first is missing.
pub fn is_ignored_path(
    path: &PathBuf,
    canonical_dir: Option<&PathBuf>,
    resolved: Option<&PathBuf>,
    walk_data: &WalkData,
) -> (r: bool)
    ensures
        r == in_ignored(walk_data, path@, maybe_path(canonical_dir), maybe_path(resolved)),
{
    if path_set_contains(&walk_data.ignore_directories, path) {
        return true;
    }
    let ghost parts = resolved_parts(path@, maybe_path(canonical_dir), maybe_path(resolved));
    let absolute_ignores = &walk_data.absolute_ignore_directories;
    if absolute_ignores.len() == 0 {
        return false;
    }
    let place = match canonical_dir {
        Some(dir) => {
            let name = match path.file_name() {
                Some(name) => copy_bytes(name),
                None => {
                    let empty: Vec<u8> = Vec::new();
                    assert(empty@ =~= Seq::empty());
                    empty
                },
            };
            dir.join(&PathBuf::new(dir.platform(), name))
        },
        None => match resolved {
            Some(place) => place.clone(),
            None => {
                let nowhere = PathBuf::new(path.platform(), Vec::new());
                proof {
                    crate::path::lemma_empty_path(nowhere@);
                    assert(components_of(nowhere@) =~= parts);
                }
                nowhere
            },
        },
    };
    assert(components_of(place@) == parts);
    let mut i: usize = 0;
    while i < absolute_ignores.len()
        invariant
            i <= absolute_ignores.len(),
            absolute_ignores == walk_data.absolute_ignore_directories,
            parts == resolved_parts(path@, maybe_path(canonical_dir), maybe_path(resolved)),
            components_of(place@) == parts,
            forall|k: int|
                0 <= k < i ==> !parts_start_with(
                    (#[trigger] walk_data.absolute_ignore_directories@[k])@.platform,
                    components_of(walk_data.absolute_ignore_directories@[k]@),
                    parts,
                ),
        decreases absolute_ignores.len() - i,
    {
        if path_starts_with(&absolute_ignores[i], &place) {
            assert(parts_start_with(
                walk_data.absolute_ignore_directories@[i as int]@.platform,
                components_of(walk_data.absolute_ignore_directories@[i as int]@),
                parts,
            ));
            return true;
        }
        i += 1;
    }
    false
}

/// Tells whether entries have to be resolved one by one to know whether they
/// are ignored.
pub fn needs_resolving(canonical_dir: Option<&PathBuf>, walk_data: &WalkData) -> (r: bool)
    ensures
        r == (walk_data.absolute_ignore_directories.len() > 0 && canonical_dir is None),
{
    walk_data.absolute_ignore_directories.len() > 0 && canonical_dir.is_none()
}

/// The name of a path starts with a dot. A name that is not UTF-8 does not.
pub open spec fn is_dot_path(path: PathView) -> bool {
    file_name_of(components_of(path)) matches Some(name) && valid_utf8(name) && name.len() > 0
        && name[0] == 0x2e
}

/// An entry lies on a file system that the walk keeps out of.
pub open spec fn foreign(walk_data: &WalkData, metadata: Option<EntryMetadata>) -> bool {
    walk_data.allowed_filesystems@.len() > 0 && (id_of(metadata) matches Some(id)
        && !walk_data.allowed_filesystems@.contains(id.1))
}

/// The identity of an entry, where it is known.
pub open spec fn id_of(metadata: Option<EntryMetadata>) -> Option<FileId> {
    match metadata {
        Some((_, Some(id), _)) => Some(id),
        _ => None,
    }
}

/// The walk passes an entry over. The filters by time and by expression hold
/// for files alone.
pub open spec fn passed_over(
    walk_data: &WalkData,
    path: PathView,
    is_file: bool,
    metadata: Option<EntryMetadata>,
    canonical_dir: Option<PathView>,
    resolved: Option<PathView>,
) -> bool {
    ||| in_ignored(walk_data, path, canonical_dir, resolved)
    ||| foreign(walk_data, metadata)
    ||| is_file && (metadata matches Some(data) && times_reject(walk_data, data.2))
    ||| is_file && none_found(matches_of(walk_data.filter_regex@, path_text(path)))
    ||| is_file && matches_of(walk_data.invert_filter_regex@, path_text(path)).contains(true)
    ||| walk_data.ignore_hidden && is_dot_path(path)
}

/// Tells whether an entry lies on a file system that the walk keeps out of.
pub(crate) fn is_foreign(walk_data: &WalkData, metadata: Option<&EntryMetadata>) -> (r: bool)
    ensures
        r == foreign(
            walk_data,
            match metadata {
                Some(data) => Some(*data),
                None => None,
            },
        ),
{
    if walk_data.allowed_filesystems.len() == 0 {
        return false;
    }
    match metadata {
        Some((_, Some((_, device)), _)) => !walk_data.allowed_filesystems.contains(device),
        _ => false,
    }
}

/// Tells whether the walk passes an entry over.
pub fn ignore_file(
    path: &PathBuf,
    is_file: bool,
    metadata: Option<&EntryMetadata>,
    canonical_dir: Option<&PathBuf>,
    resolved: Option<&PathBuf>,
    walk_data: &WalkData,
) -> (r: bool)
    requires
        walk_data.in_range(),
    ensures
        r == passed_over(
            walk_data,
            path@,
            is_file,
            match metadata {
                Some(data) => Some(*data),
                None => None,
            },
            maybe_path(canonical_dir),
            maybe_path(resolved),
        ),
        // each filter holds by itself
        is_file ==> (metadata matches Some(data) ==> {
            &&& !is_asked_for(walk_data.filter_modified_time, data.2.0) ==> r
            &&& !is_asked_for(walk_data.filter_accessed_time, data.2.1) ==> r
            &&& !is_asked_for(walk_data.filter_changed_time, data.2.2) ==> r
        }),
        is_file && walk_data.filter_regex@.len() > 0 && (forall|k: int|
            0 <= k < walk_data.filter_regex@.len() ==> !found_in(
                #[trigger] walk_data.filter_regex@[k],
                path_text(path@),
            )) ==> r,
        is_file && (exists|k: int|
            0 <= k < walk_data.invert_filter_regex@.len() && found_in(
                #[trigger] walk_data.invert_filter_regex@[k],
                path_text(path@),
            )) ==> r,
{
    proof {
        let (dir, place) = (maybe_path(canonical_dir), maybe_path(resolved));
        let data = match metadata {
            Some(data) => Some(*data),
            None => None,
        };
        lemma_expressions_hold(walk_data, path@, data, dir, place);
        if metadata is Some {
            lemma_each_time_filter_holds(walk_data, path@, data->Some_0, dir, place);
        }
    }
    if is_ignored_path(path, canonical_dir, resolved, walk_data) {
        return true;
    }
    let is_dot_file = match path.file_name() {
        Some(name) => from_utf8(name.as_slice()).is_some() && name.len() > 0 && name[0] == 0x2e,
        None => false,
    };
    if is_foreign(walk_data, metadata) {
        return true;
    }
    if is_file {
        if let Some(data) = metadata {
            if is_filtered_out_due_to_times(walk_data, data.2) {
                return true;
            }
        }
        if is_filtered_out_due_to_regex(walk_data.filter_regex, path) {
            return true;
        }
        if is_filtered_out_due_to_invert_regex(walk_data.invert_filter_regex, path) {
            return true;
        }
    }
    is_dot_file && walk_data.ignore_hidden
}

// --------------------------------------------------------------------------
// Identities
// --------------------------------------------------------------------------

/// The identity of an entry was claimed before. By apparent size every link
/// counts, and nothing is claimed.
pub open spec fn claimed_before(
    walk_data: &WalkData,
    metadata: Option<EntryMetadata>,
    inodes: Set<FileId>,
) -> bool {
    !walk_data.use_apparent_size && (id_of(metadata) matches Some(id) && inodes.contains(id))
}

/// The identities that are claimed once an entry was seen.
pub open spec fn claimed_after(
    walk_data: &WalkData,
    metadata: Option<EntryMetadata>,
    inodes: Set<FileId>,
) -> Set<FileId> {
    match id_of(metadata) {
        Some(id) => if walk_data.use_apparent_size {
            inodes
        } else {
            inodes.insert(id)
        },
        None => inodes,
    }
}

/// Claims the identity of an entry, and tells whether it was claimed before.
pub fn is_duplicate_inode(
    metadata: Option<&EntryMetadata>,
    walk_data: &WalkData,
    inodes: &mut InodeSet,
) -> (r: bool)
    ensures
        r == claimed_before(
            walk_data,
            match metadata {
                Some(data) => Some(*data),
                None => None,
            },
            old(inodes)@,
        ),
        final(inodes)@ == claimed_after(
            walk_data,
            match metadata {
                Some(data) => Some(*data),
                None => None,
            },
            old(inodes)@,
        ),
{
    if walk_data.use_apparent_size {
        return false;
    }
    match metadata {
        Some((_, Some(id), _)) => !inodes.insert(*id),
        _ => false,
    }
}

// --------------------------------------------------------------------------
// Entries of a directory
// --------------------------------------------------------------------------

/// What an entry of a directory is, by the listing alone.
#[derive(Debug, Clone, Copy, PartialEq, Eq, Structural)]
pub enum EntryKind {
    Directory,
    File,
    Symlink,
    Other,
}

/// An entry of a directory. `metadata` is that of what a followed link points
/// to, and `resolved` the resolved path where that was looked up.
pub struct Entry {
    pub path: PathBuf,
    pub kind: Option<EntryKind>,
    pub metadata: Option<EntryMetadata>,
    pub resolved: Option<PathBuf>,
}

/// An entry of a directory, as a value.
pub struct EntryView {
    pub path: PathView,
    pub kind: Option<EntryKind>,
    pub metadata: Option<EntryMetadata>,
    pub resolved: Option<PathView>,
}

impl View for Entry {
    type V = EntryView;

    open spec fn view(&self) -> EntryView {
        EntryView {
            path: self.path@,
            kind: self.kind,
            metadata: self.metadata,
            resolved: match self.resolved {
                Some(place) => Some(place@),
                None => None,
            },
        }
    }
}

/// How a directory is known to be one.
#[derive(Debug, Clone, Copy, PartialEq, Eq, Structural)]
pub enum DirKind {
    /// The listing that it came from says so.
    TypedDir,
    /// It has yet to be looked at: a root, or a link that is followed.
    StatClassified,
}

/// A directory that is to be walked.
pub struct Subdirectory {
    pub dir: PathBuf,
    pub depth: usize,
    pub kind: DirKind,
    pub metadata: Option<EntryMetadata>,
}

/// A directory that is to be walked, as a value.
pub struct SubdirectoryView {
    pub dir: PathView,
    pub depth: usize,
    pub kind: DirKind,
    pub metadata: Option<EntryMetadata>,
}

impl View for Subdirectory {
    type V = SubdirectoryView;

    open spec fn view(&self) -> SubdirectoryView {
        SubdirectoryView {
            dir: self.dir@,
            depth: self.depth,
            kind: self.kind,
            metadata: self.metadata,
        }
    }
}

/// What becomes of an entry.
pub enum Outcome {
    /// The entry is left out.
    Dropped,
    /// The entry is a leaf; it has no node where its metadata is missing.
    Leaf(Option<Node>),
    /// The entry is a directory to walk.
    Descend(Subdirectory),
}

/// What is decided of an entry.
#[derive(Debug, Clone, Copy, PartialEq, Eq, Structural)]
pub enum Fate {
    /// It is of no known type, or the walk passes it over.
    PassedOver,
    /// Another name of the same file was counted before.
    Duplicate,
    /// A followed link leaves the file systems of the walk.
    Foreign,
    /// A followed link leads to where the walk has been.
    Visited,
    /// It is a directory to walk.
    Descend,
    /// It is a leaf.
    Leaf,
}

/// The walk follows an entry of this kind.
pub open spec fn followed_link(walk_data: &WalkData, kind: Option<EntryKind>) -> bool {
    walk_data.follow_links && kind == Some(EntryKind::Symlink)
}

/// Tells whether the metadata of an entry is that of what it points to.
pub fn follows(walk_data: &WalkData, kind: Option<EntryKind>) -> (r: bool)
    ensures
        r == followed_link(walk_data, kind),
{
    match kind {
        Some(EntryKind::Symlink) => walk_data.follow_links,
        _ => false,
    }
}

/// What is decided of an entry, given what is known of it: that the walk passes
/// it over, that its identity was claimed, that the walk follows it, that it
/// lies on a file system that the walk keeps out of, and that a link led to
/// where it leads.
pub open spec fn fate_of(
    kind: Option<EntryKind>,
    is_passed_over: bool,
    is_claimed: bool,
    follow: bool,
    is_foreign: bool,
    is_visited: bool,
) -> Fate {
    if kind is None || is_passed_over {
        Fate::PassedOver
    } else if is_claimed {
        Fate::Duplicate
    } else if kind == Some(EntryKind::Directory) || follow {
        if follow && is_foreign {
            Fate::Foreign
        } else if follow && is_visited {
            Fate::Visited
        } else {
            Fate::Descend
        }
    } else {
        Fate::Leaf
    }
}

/// Decides what becomes of an entry, given what is known of it.
pub fn decide(
    kind: Option<EntryKind>,
    is_passed_over: bool,
    is_claimed: bool,
    follow: bool,
    is_foreign: bool,
    is_visited: bool,
) -> (r: Fate)
    ensures
        r == fate_of(kind, is_passed_over, is_claimed, follow, is_foreign, is_visited),
{
    let is_dir = match kind {
        None => {
            return Fate::PassedOver;
        },
        Some(kind) => kind == EntryKind::Directory,
    };
    if is_passed_over {
        Fate::PassedOver
    } else if is_claimed {
        Fate::Duplicate
    } else if is_dir || follow {
        if follow && is_foreign {
            Fate::Foreign
        } else if follow && is_visited {
            Fate::Visited
        } else {
            Fate::Descend
        }
    } else {
        Fate::Leaf
    }
}

/// What is decided of an entry, given the identities that were claimed and
/// those that links were followed to.
pub open spec fn fate(
    walk_data: &WalkData,
    canonical_dir: Option<PathView>,
    inodes: Set<FileId>,
    followed: Set<FileId>,
    e: EntryView,
) -> Fate {
    fate_of(
        e.kind,
        passed_over(
            walk_data,
            e.path,
            e.kind == Some(EntryKind::File),
            e.metadata,
            canonical_dir,
            e.resolved,
        ),
        claimed_before(walk_data, e.metadata, inodes),
        followed_link(walk_data, e.kind),
        foreign(walk_data, e.metadata),
        id_of(e.metadata) matches Some(id) && followed.contains(id),
    )
}

/// What a scan has brought together.
#[verifier::ext_equal]
pub struct ScanView {
    /// The identities that were claimed.
    pub inodes: Set<FileId>,
    /// The identities that links were followed to.
    pub followed: Set<FileId>,
    pub errors: ErrorsView,
    pub num_files: usize,
    pub total_file_size: u64,
    /// The leaves.
    pub nodes: Seq<NodeView>,
    /// The directories to walk.
    pub dirs: Seq<SubdirectoryView>,
}

/// The node of a leaf.
pub open spec fn leaf_node(walk_data: &WalkData, depth: usize, e: EntryView) -> Option<NodeView> {
    let is_file = e.kind == Some(EntryKind::File);
    match e.metadata {
        None => None,
        Some(data) => Some(
            NodeView {
                name: e.path,
                size: own_size(walk_data, e.path, is_file, is_file, data),
                children: Seq::empty(),
                inode_device: data.1,
                depth,
                is_file,
            },
        ),
    }
}

/// The directory that an entry is walked as.
pub open spec fn subdirectory(depth: usize, e: EntryView) -> SubdirectoryView {
    SubdirectoryView {
        dir: e.path,
        depth: (depth + 1) as usize,
        kind: if e.kind == Some(EntryKind::Directory) {
            DirKind::TypedDir
        } else {
            DirKind::StatClassified
        },
        metadata: e.metadata,
    }
}

/// What a scan has brought together after one more entry of a directory at
/// this depth.
pub open spec fn entry_scanned(
    walk_data: &WalkData,
    depth: usize,
    canonical_dir: Option<PathView>,
    s: ScanView,
    e: EntryView,
) -> ScanView {
    let claimed = ScanView { inodes: claimed_after(walk_data, e.metadata, s.inodes), ..s };
    match fate(walk_data, canonical_dir, s.inodes, s.followed, e) {
        Fate::PassedOver => s,
        Fate::Duplicate | Fate::Foreign | Fate::Visited => claimed,
        Fate::Descend => ScanView {
            followed: match id_of(e.metadata) {
                Some(id) => if followed_link(walk_data, e.kind) {
                    s.followed.insert(id)
                } else {
                    s.followed
                },
                None => s.followed,
            },
            dirs: s.dirs.push(subdirectory(depth, e)),
            ..claimed
        },
        Fate::Leaf => match leaf_node(walk_data, depth, e) {
            None => ScanView {
                errors: missing_recorded(s.errors, e.path),
                num_files: wrapped_usize(s.num_files + 1),
                ..claimed
            },
            Some(node) => ScanView {
                num_files: wrapped_usize(s.num_files + 1),
                total_file_size: if walk_data.by_filetime is None {
                    wrapped_u64(s.total_file_size + node.size)
                } else {
                    s.total_file_size
                },
                nodes: s.nodes.push(node),
                ..claimed
            },
        },
    }
}

/// The value of a scan from the parts that hold it.
pub open spec fn scan_view(
    inodes: InodeSet,
    followed: IdSet,
    progress: PAtomicInfo,
    errors: RuntimeErrors,
    nodes: Seq<NodeView>,
    dirs: Seq<SubdirectoryView>,
) -> ScanView {
    ScanView {
        inodes: inodes@,
        followed: followed@,
        errors: errors@,
        num_files: progress.num_files,
        total_file_size: progress.total_file_size,
        nodes,
        dirs,
    }
}

/// The leaves after one more outcome.
pub open spec fn with_leaf(nodes: Seq<NodeView>, outcome: Outcome) -> Seq<NodeView> {
    match outcome {
        Outcome::Leaf(Some(node)) => nodes.push(node@),
        _ => nodes,
    }
}

/// The directories to walk after one more outcome.
pub open spec fn with_dir(dirs: Seq<SubdirectoryView>, outcome: Outcome) -> Seq<SubdirectoryView> {
    match outcome {
        Outcome::Descend(dir) => dirs.push(dir@),
        _ => dirs,
    }
}

/// Decides what becomes of an entry of a directory at this depth, and keeps the
/// books: identities, messages and counters.
pub fn process_entry(
    depth: usize,
    entry: Entry,
    canonical_dir: Option<&PathBuf>,
    walk_data: &WalkData,
    inodes: &mut InodeSet,
    followed: &mut IdSet,
    progress: &mut PAtomicInfo,
    errors: &mut RuntimeErrors,
) -> (r: Outcome)
    requires
        walk_data.in_range(),
        depth < usize::MAX,
    ensures
        r is Leaf <==> fate(
            walk_data,
            maybe_path(canonical_dir),
            old(inodes)@,
            old(followed)@,
            entry@,
        ) is Leaf,
        forall|nodes: Seq<NodeView>, dirs: Seq<SubdirectoryView>| #[trigger]
            scan_view(
                *final(inodes),
                *final(followed),
                *final(progress),
                *final(errors),
                with_leaf(nodes, r),
                with_dir(dirs, r),
            ) == entry_scanned(
                walk_data,
                depth,
                maybe_path(canonical_dir),
                scan_view(
                    *old(inodes),
                    *old(followed),
                    *old(progress),
                    *old(errors),
                    nodes,
                    dirs,
                ),
                entry@,
            ),
        final(progress).state == old(progress).state,
        final(progress).current_path == old(progress).current_path,
{
    let Entry { path, kind, metadata, resolved } = entry;
    let is_file = match kind {
        None => {
            return Outcome::Dropped;
        },
        Some(EntryKind::File) => true,
        Some(_) => false,
    };
    let follow = follows(walk_data, kind);
    let is_passed_over = ignore_file(
        &path,
        is_file,
        metadata.as_ref(),
        canonical_dir,
        resolved.as_ref(),
        walk_data,
    );
    if is_passed_over {
        return Outcome::Dropped;
    }
    let is_claimed = is_duplicate_inode(metadata.as_ref(), walk_data, inodes);
    let is_outside = is_foreign(walk_data, metadata.as_ref());
    let is_visited = if follow && !is_claimed && !is_outside {
        match metadata {
            Some((_, Some(id), _)) => !followed.insert(id),
            _ => false,
        }
    } else {
        false
    };
    match decide(kind, is_passed_over, is_claimed, follow, is_outside, is_visited) {
        Fate::Leaf => {},
        Fate::Descend => {
            let kind = match kind {
                Some(EntryKind::Directory) => DirKind::TypedDir,
                _ => DirKind::StatClassified,
            };
            return Outcome::Descend(Subdirectory { dir: path, depth: depth + 1, kind, metadata });
        },
        _ => {
            assert(followed@ =~= old(followed)@);
            return Outcome::Dropped;
        },
    }
    if metadata.is_none() {
        record_metadata_unavailable(&path, errors);
    }
    let node = build_node(path, Vec::new(), is_file, is_file, depth, walk_data, metadata);
    let bytes: u64 = match (&node, walk_data.by_filetime) {
        (Some(n), None) => n.size,
        _ => 0,
    };
    progress.count_file(bytes);
    proof {
        if node is Some {
            lemma_node_view(node->Some_0);
            assert(node->Some_0@.children =~= Seq::empty());
        }
    }
    Outcome::Leaf(node)
}

/// One item of a listing.
pub enum Listed {
    Found(Entry),
    Failed(Failure),
}

/// One item of a listing, as a value.
pub enum ListedView {
    Found(EntryView),
    Failed(FailureKind, Seq<char>),
}

impl View for Listed {
    type V = ListedView;

    open spec fn view(&self) -> ListedView {
        match self {
            Listed::Found(entry) => ListedView::Found(entry@),
            Listed::Failed(failure) => ListedView::Failed(failure.kind, failure.message@),
        }
    }
}

/// A listing, as a value.
pub open spec fn listing_view(listing: Seq<Listed>) -> Seq<ListedView> {
    listing.map_values(|item: Listed| item@)
}

/// What a scan has brought together after the items of a listing of `dir`.
pub open spec fn listing_scanned(
    walk_data: &WalkData,
    dir: PathView,
    depth: usize,
    canonical_dir: Option<PathView>,
    s: ScanView,
    listing: Seq<ListedView>,
) -> ScanView
    decreases listing.len(),
{
    if listing.len() == 0 {
        s
    } else {
        let before = listing_scanned(
            walk_data,
            dir,
            depth,
            canonical_dir,
            s,
            listing.drop_last(),
        );
        match listing.last() {
            ListedView::Found(e) => entry_scanned(walk_data, depth, canonical_dir, before, e),
            ListedView::Failed(kind, message) => ScanView {
                errors: failure_recorded(before.errors, kind, message, path_text(dir)),
                ..before
            },
        }
    }
}

/// The place of the first failure that goes away when the listing is read
/// again.
pub open spec fn first_retryable(listing: Seq<ListedView>) -> Option<int>
    decreases listing.len(),
{
    if listing.len() == 0 {
        None
    } else {
        match first_retryable(listing.drop_last()) {
            Some(i) => Some(i),
            None => match listing.last() {
                ListedView::Failed(kind, _) => if retryable(kind) {
                    Some(listing.len() - 1)
                } else {
                    None
                },
                ListedView::Found(_) => None,
            },
        }
    }
}

/// Finds the first failure that goes away when the listing is read again.
pub fn find_retryable(listing: &Vec<Listed>) -> (r: Option<&Failure>)
    ensures
        match r {
            None => first_retryable(listing_view(listing@)) is None,
            Some(failed) => {
                &&& first_retryable(listing_view(listing@)) matches Some(i)
                &&& listing_view(listing@)[i] == ListedView::Failed(failed.kind, failed.message@)
                &&& retryable(failed.kind)
            },
        },
        r is None ==> no_interruption(listing_view(listing@)),
{
    let ghost view = listing_view(listing@);
    let mut i: usize = 0;
    assert(view.take(0) =~= Seq::empty());
    while i < listing.len()
        invariant
            i <= listing.len(),
            view == listing_view(listing@),
            first_retryable(view.take(i as int)) is None,
            no_interruption(view.take(i as int)),
        decreases listing.len() - i,
    {
        assert(view.take(i + 1).drop_last() =~= view.take(i as int));
        assert(view.take(i + 1).last() == listing@[i as int]@);
        match &listing[i] {
            Listed::Failed(failed) => {
                if is_retryable(failed) {
                    proof {
                        lemma_first_retryable_prefix(view, i + 1);
                    }
                    return Some(failed);
                }
            },
            Listed::Found(_) => {},
        }
        assert(no_interruption(view.take(i + 1))) by {
            assert forall|j: int| 0 <= j < i + 1 implies !(#[trigger] view.take(i + 1)[j] matches ListedView::Failed(
                kind,
                _,
            ) && retryable(kind)) by {
                if j < i {
                    assert(view.take(i as int)[j] == view.take(i + 1)[j]);
                }
            }
        }
        i += 1;
    }
    assert(view.take(listing.len() as int) =~= view);
    None
}

/// No item of a listing is an interruption.
pub open spec fn no_interruption(listing: Seq<ListedView>) -> bool {
    forall|j: int|
        0 <= j < listing.len() ==> !(#[trigger] listing[j] matches ListedView::Failed(kind, _)
            && retryable(kind))
}

proof fn lemma_first_retryable_prefix(listing: Seq<ListedView>, n: int)
    requires
        0 <= n <= listing.len(),
        first_retryable(listing.take(n)) is Some,
    ensures
        first_retryable(listing) == first_retryable(listing.take(n)),
    decreases listing.len() - n,
{
    if n < listing.len() {
        assert(listing.take(n + 1).drop_last() =~= listing.take(n));
        lemma_first_retryable_prefix(listing, n + 1);
    } else {
        assert(listing.take(n) =~= listing);
    }
}

/// The leaves and the directories to walk of a scanned listing.
pub struct Scan {
    pub nodes: Vec<Node>,
    pub dirs: Vec<Subdirectory>,
}

/// The values of a list of directories to walk.
pub open spec fn subdirectory_views(dirs: Seq<Subdirectory>) -> Seq<SubdirectoryView> {
    dirs.map_values(|d: Subdirectory| d@)
}

/// Decides what becomes of each item of a listing of `dir`, in order.
pub fn scan_listing(
    dir: &PathBuf,
    depth: usize,
    listing: Vec<Listed>,
    canonical_dir: Option<&PathBuf>,
    walk_data: &WalkData,
    inodes: &mut InodeSet,
    followed: &mut IdSet,
    progress: &mut PAtomicInfo,
    errors: &mut RuntimeErrors,
) -> (r: Scan)
    requires
        walk_data.in_range(),
        depth < usize::MAX,
        no_interruption(listing_view(listing@)),
    ensures
        scan_view(
            *final(inodes),
            *final(followed),
            *final(progress),
            *final(errors),
            crate::node::node_views(r.nodes@),
            subdirectory_views(r.dirs@),
        ) == listing_scanned(
            walk_data,
            dir@,
            depth,
            maybe_path(canonical_dir),
            scan_view(
                *old(inodes),
                *old(followed),
                *old(progress),
                *old(errors),
                Seq::empty(),
                Seq::empty(),
            ),
            listing_view(listing@),
        ),
        final(progress).state == old(progress).state,
        final(progress).current_path == old(progress).current_path,
{
    let ghost view = listing_view(listing@);
    let ghost start = scan_view(
        *inodes,
        *followed,
        *progress,
        *errors,
        Seq::empty(),
        Seq::empty(),
    );
    let mut nodes: Vec<Node> = Vec::new();
    let mut dirs: Vec<Subdirectory> = Vec::new();
    let mut rest = listing;
    let ghost mut done: int = 0;
    reverse(&mut rest);
    proof {
        assert(view.take(0) =~= Seq::empty());
        assert(crate::node::node_views(nodes@) =~= Seq::empty());
        assert(subdirectory_views(dirs@) =~= Seq::empty());
    }
    while rest.len() > 0
        invariant
            walk_data.in_range(),
            depth < usize::MAX,
            no_interruption(view),
            0 <= done <= view.len(),
            rest.len() == view.len() - done,
            forall|j: int| 0 <= j < rest.len() ==> (#[trigger] rest@[j])@ == view[view.len() - 1 - j],
            scan_view(
                *inodes,
                *followed,
                *progress,
                *errors,
                crate::node::node_views(nodes@),
                subdirectory_views(dirs@),
            ) == listing_scanned(
                walk_data,
                dir@,
                depth,
                maybe_path(canonical_dir),
                start,
                view.take(done),
            ),
            progress.state == old(progress).state,
            progress.current_path == old(progress).current_path,
        decreases rest.len(),
    {
        let ghost before_nodes = nodes@;
        let ghost before_dirs = dirs@;
        proof {
            assert(rest@[rest.len() - 1]@ == view[done]);
            assert(view.take(done + 1).drop_last() =~= view.take(done));
            assert(view.take(done + 1).last() == view[done]);
        }
        match rest.pop() {
            Some(Listed::Found(entry)) => {
                let outcome = process_entry(
                    depth,
                    entry,
                    canonical_dir,
                    walk_data,
                    inodes,
                    followed,
                    progress,
                    errors,
                );
                let ghost now = outcome;
                match outcome {
                    Outcome::Leaf(Some(node)) => {
                        nodes.push(node);
                    },
                    Outcome::Descend(subdir) => {
                        dirs.push(subdir);
                    },
                    _ => {},
                }
                proof {
                    assert(crate::node::node_views(nodes@) =~= with_leaf(
                        crate::node::node_views(before_nodes),
                        now,
                    ));
                    assert(subdirectory_views(dirs@) =~= with_dir(
                        subdirectory_views(before_dirs),
                        now,
                    ));
                }
            },
            Some(Listed::Failed(failed)) => {
                record_error(&failed, dir, errors);
            },
            None => {},
        }
        proof {
            done = done + 1;
        }
    }
    assert(view.take(done) =~= view);
    Scan { nodes, dirs }
}

} // verus!
