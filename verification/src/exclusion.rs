//! What the filters of a walk leave out, and what they let count.

use vstd::prelude::*;
use vstd::utf8::valid_utf8;

use crate::dir_walker::{
    entry_scanned, in_ignored, passed_over, EntryKind, EntryView, Operator, ScanView, WalkData,
};
use crate::node::{own_size, EntryMetadata, FileTime};
use crate::path::{components_of, file_name_of, path_text, PathView};
use crate::pattern::{found_in, matches_of};
use crate::utils::{equivalent, none_found, outside_time};

verus! {

/// A time is one that a filter asks for.
pub open spec fn is_asked_for(filter: Option<(Operator, i64)>, time: i64) -> bool {
    filter matches Some((operator, bound)) ==> {
        &&& operator == Operator::Equal ==> bound <= time < bound + 24 * 60 * 60
        &&& operator == Operator::GreaterThan ==> bound <= time
        &&& operator == Operator::LessThan ==> time <= bound
    }
}

proof fn lemma_asked_for(filter: Option<(Operator, i64)>, time: i64)
    ensures
        outside_time(filter, time) == !is_asked_for(filter, time),
{
}

proof fn lemma_matches(regexes: Seq<regex::Regex>, text: Seq<char>)
    ensures
        matches_of(regexes, text).contains(true) <==> exists|k: int|
            0 <= k < regexes.len() && found_in(#[trigger] regexes[k], text),
        none_found(matches_of(regexes, text)) <==> regexes.len() > 0 && forall|k: int|
            0 <= k < regexes.len() ==> !found_in(#[trigger] regexes[k], text),
{
    let found = matches_of(regexes, text);
    if found.contains(true) {
        let k = choose|k: int| 0 <= k < found.len() && found[k] == true;
        assert(found_in(regexes[k], text));
    } else {
        assert forall|k: int| 0 <= k < regexes.len() implies !found_in(
            #[trigger] regexes[k],
            text,
        ) by {
            assert(found[k] == found_in(regexes[k], text));
            assert(found[k] ==> found.contains(true));
        }
    }
}

// --------------------------------------------------------------------------
// What is passed over
// --------------------------------------------------------------------------

/// Each time filter holds by its own timestamp: a file whose modification time
/// is none that the filter for it asks for is left out, whatever the other two
/// filters are, and so for the access time and the change time.
pub proof fn lemma_each_time_filter_holds(
    walk_data: &WalkData,
    path: PathView,
    data: EntryMetadata,
    canonical_dir: Option<PathView>,
    resolved: Option<PathView>,
)
    ensures
        !is_asked_for(walk_data.filter_modified_time, data.2.0) ==> passed_over(
            walk_data,
            path,
            true,
            Some(data),
            canonical_dir,
            resolved,
        ),
        !is_asked_for(walk_data.filter_accessed_time, data.2.1) ==> passed_over(
            walk_data,
            path,
            true,
            Some(data),
            canonical_dir,
            resolved,
        ),
        !is_asked_for(walk_data.filter_changed_time, data.2.2) ==> passed_over(
            walk_data,
            path,
            true,
            Some(data),
            canonical_dir,
            resolved,
        ),
{
    lemma_asked_for(walk_data.filter_modified_time, data.2.0);
    lemma_asked_for(walk_data.filter_accessed_time, data.2.1);
    lemma_asked_for(walk_data.filter_changed_time, data.2.2);
}

/// Where files are picked by expressions, a file in whose path none is found is
/// left out; a file in whose path one is found that files are to be free of is
/// left out, whatever else is found in it.
pub proof fn lemma_expressions_hold(
    walk_data: &WalkData,
    path: PathView,
    metadata: Option<EntryMetadata>,
    canonical_dir: Option<PathView>,
    resolved: Option<PathView>,
)
    ensures
        walk_data.filter_regex@.len() > 0 && (forall|k: int|
            0 <= k < walk_data.filter_regex@.len() ==> !found_in(
                #[trigger] walk_data.filter_regex@[k],
                path_text(path),
            )) ==> passed_over(walk_data, path, true, metadata, canonical_dir, resolved),
        (exists|k: int|
            0 <= k < walk_data.invert_filter_regex@.len() && found_in(
                #[trigger] walk_data.invert_filter_regex@[k],
                path_text(path),
            )) ==> passed_over(walk_data, path, true, metadata, canonical_dir, resolved),
{
    lemma_matches(walk_data.filter_regex@, path_text(path));
    lemma_matches(walk_data.invert_filter_regex@, path_text(path));
}

/// What is hidden is left out where that is asked for, what lies on another file
/// system where the walk keeps to some, and what is named among the directories to
/// ignore: whether it is a file or a directory.
pub proof fn lemma_places_hold(
    walk_data: &WalkData,
    path: PathView,
    is_file: bool,
    metadata: Option<EntryMetadata>,
    canonical_dir: Option<PathView>,
    resolved: Option<PathView>,
)
    ensures
        walk_data.ignore_hidden && (file_name_of(components_of(path)) matches Some(name)
            && valid_utf8(name) && name.len() > 0 && name[0] == 0x2e) ==> passed_over(
            walk_data,
            path,
            is_file,
            metadata,
            canonical_dir,
            resolved,
        ),
        walk_data.allowed_filesystems@.len() > 0 && (metadata matches Some((_, Some(id), _))
            && !walk_data.allowed_filesystems@.contains(id.1)) ==> passed_over(
            walk_data,
            path,
            is_file,
            metadata,
            canonical_dir,
            resolved,
        ),
        (exists|k: int|
            0 <= k < walk_data.ignore_directories.len() && equivalent(
                (#[trigger] walk_data.ignore_directories@[k])@,
                path,
            )) ==> passed_over(walk_data, path, is_file, metadata, canonical_dir, resolved),
{
}

/// Nothing else is left out: what is not ignored, lies on a file system of the walk
/// and is not hidden is passed over only if it is a file, and then only if one of
/// its timestamps or its path is none that the filters ask for.
pub proof fn lemma_nothing_else_is_left_out(
    walk_data: &WalkData,
    path: PathView,
    is_file: bool,
    metadata: Option<EntryMetadata>,
    canonical_dir: Option<PathView>,
    resolved: Option<PathView>,
)
    requires
        forall|k: int|
            0 <= k < walk_data.ignore_directories.len() ==> !equivalent(
                (#[trigger] walk_data.ignore_directories@[k])@,
                path,
            ),
        walk_data.absolute_ignore_directories.len() == 0,
        walk_data.allowed_filesystems@.len() == 0 || (metadata matches Some((_, Some(id), _))
            ==> walk_data.allowed_filesystems@.contains(id.1)),
        walk_data.ignore_hidden ==> (file_name_of(components_of(path)) matches Some(name)
            ==> valid_utf8(name) ==> name.len() == 0 || name[0] != 0x2e),
        is_file && walk_data.filter_regex@.len() > 0 ==> exists|k: int|
            0 <= k < walk_data.filter_regex@.len() && found_in(
                #[trigger] walk_data.filter_regex@[k],
                path_text(path),
            ),
        is_file ==> forall|k: int|
            0 <= k < walk_data.invert_filter_regex@.len() ==> !found_in(
                #[trigger] walk_data.invert_filter_regex@[k],
                path_text(path),
            ),
        is_file ==> (metadata matches Some((_, _, (modified, accessed, changed))) ==> {
            &&& is_asked_for(walk_data.filter_modified_time, modified)
            &&& is_asked_for(walk_data.filter_accessed_time, accessed)
            &&& is_asked_for(walk_data.filter_changed_time, changed)
        }),
    ensures
        !passed_over(walk_data, path, is_file, metadata, canonical_dir, resolved),
{
    lemma_matches(walk_data.filter_regex@, path_text(path));
    lemma_matches(walk_data.invert_filter_regex@, path_text(path));
    assert(!in_ignored(walk_data, path, canonical_dir, resolved));
    if let Some(data) = metadata {
        lemma_asked_for(walk_data.filter_modified_time, data.2.0);
        lemma_asked_for(walk_data.filter_accessed_time, data.2.1);
        lemma_asked_for(walk_data.filter_changed_time, data.2.2);
    }
}

/// A filter by time or by expression leaves no directory out.
pub proof fn lemma_filters_are_for_files(
    walk_data: &WalkData,
    other: &WalkData,
    path: PathView,
    metadata: Option<EntryMetadata>,
    canonical_dir: Option<PathView>,
    resolved: Option<PathView>,
)
    requires
        walk_data.ignore_directories == other.ignore_directories,
        walk_data.absolute_ignore_directories == other.absolute_ignore_directories,
        walk_data.allowed_filesystems == other.allowed_filesystems,
        walk_data.ignore_hidden == other.ignore_hidden,
    ensures
        passed_over(walk_data, path, false, metadata, canonical_dir, resolved) == passed_over(
            other,
            path,
            false,
            metadata,
            canonical_dir,
            resolved,
        ),
{
}

/// What is passed over leaves no trace: the scan goes on as if it were not there.
pub proof fn lemma_passed_over_leaves_no_trace(
    walk_data: &WalkData,
    depth: usize,
    canonical_dir: Option<PathView>,
    s: ScanView,
    e: EntryView,
)
    requires
        passed_over(
            walk_data,
            e.path,
            e.kind == Some(EntryKind::File),
            e.metadata,
            canonical_dir,
            e.resolved,
        ) || e.kind is None,
    ensures
        entry_scanned(walk_data, depth, canonical_dir, s, e) == s,
{
}

// --------------------------------------------------------------------------
// What an entry counts for
// --------------------------------------------------------------------------

/// Where entries are picked by expressions, one that did not pass the filters
/// before measures nothing by itself unless one of them is found in its path,
/// directories too; nor does one in whose path an expression is found that entries
/// are to be free of, nor one with a timestamp that a filter does not ask for, nor,
/// where files are counted, one that is no file.
pub proof fn lemma_rejected_measures_nothing(
    walk_data: &WalkData,
    path: PathView,
    is_file: bool,
    data: EntryMetadata,
)
    ensures
        walk_data.filter_regex@.len() > 0 && (forall|k: int|
            0 <= k < walk_data.filter_regex@.len() ==> !found_in(
                #[trigger] walk_data.filter_regex@[k],
                path_text(path),
            )) ==> own_size(walk_data, path, is_file, false, data) == 0,
        (exists|k: int|
            0 <= k < walk_data.invert_filter_regex@.len() && found_in(
                #[trigger] walk_data.invert_filter_regex@[k],
                path_text(path),
            )) ==> own_size(walk_data, path, is_file, false, data) == 0,
        !is_asked_for(walk_data.filter_modified_time, data.2.0) ==> own_size(
            walk_data,
            path,
            is_file,
            false,
            data,
        ) == 0,
        !is_asked_for(walk_data.filter_accessed_time, data.2.1) ==> own_size(
            walk_data,
            path,
            is_file,
            false,
            data,
        ) == 0,
        !is_asked_for(walk_data.filter_changed_time, data.2.2) ==> own_size(
            walk_data,
            path,
            is_file,
            false,
            data,
        ) == 0,
        walk_data.by_filecount && !is_file ==> own_size(walk_data, path, is_file, false, data) == 0,
{
    lemma_matches(walk_data.filter_regex@, path_text(path));
    lemma_matches(walk_data.invert_filter_regex@, path_text(path));
    lemma_asked_for(walk_data.filter_modified_time, data.2.0);
    lemma_asked_for(walk_data.filter_accessed_time, data.2.1);
    lemma_asked_for(walk_data.filter_changed_time, data.2.2);
}

/// An entry counts in full where it passed the filters, now or before: for its
/// size, or for one where files are counted.
pub proof fn lemma_accepted_measures_all(
    walk_data: &WalkData,
    path: PathView,
    is_file: bool,
    already_filtered: bool,
    data: EntryMetadata,
)
    requires
        already_filtered || {
            &&& walk_data.filter_regex@.len() > 0 ==> exists|k: int|
                0 <= k < walk_data.filter_regex@.len() && found_in(
                    #[trigger] walk_data.filter_regex@[k],
                    path_text(path),
                )
            &&& forall|k: int|
                0 <= k < walk_data.invert_filter_regex@.len() ==> !found_in(
                    #[trigger] walk_data.invert_filter_regex@[k],
                    path_text(path),
                )
            &&& is_asked_for(walk_data.filter_modified_time, data.2.0)
            &&& is_asked_for(walk_data.filter_accessed_time, data.2.1)
            &&& is_asked_for(walk_data.filter_changed_time, data.2.2)
            &&& walk_data.by_filecount ==> is_file
        },
    ensures
        walk_data.by_filecount ==> own_size(walk_data, path, is_file, already_filtered, data) == 1,
        !walk_data.by_filecount && *walk_data.by_filetime is None ==> own_size(
            walk_data,
            path,
            is_file,
            already_filtered,
            data,
        ) == data.0,
        !walk_data.by_filecount ==> (*walk_data.by_filetime matches Some(time) ==> own_size(
            walk_data,
            path,
            is_file,
            already_filtered,
            data,
        ) == (match time {
            FileTime::Modified => data.2.0,
            FileTime::Accessed => data.2.1,
            FileTime::Changed => data.2.2,
        }) + 0x8000_0000_0000_0000),
{
    lemma_matches(walk_data.filter_regex@, path_text(path));
    lemma_matches(walk_data.invert_filter_regex@, path_text(path));
    lemma_asked_for(walk_data.filter_modified_time, data.2.0);
    lemma_asked_for(walk_data.filter_accessed_time, data.2.1);
    lemma_asked_for(walk_data.filter_changed_time, data.2.2);
}

} // verus!
