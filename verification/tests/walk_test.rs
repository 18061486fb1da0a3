use std::collections::{HashMap, HashSet};

use regex::Regex;
use zdu::dir_walker::{
    decide, follows, ignore_file, is_duplicate_inode, is_ignored_path, is_retryable, needs_resolving,
    record_error, DirKind, Entry, EntryKind, Failure, FailureKind, Fate, Listed, Operator, WalkData,
};
use zdu::display_node::DisplayNode;
use zdu::filter::{get_biggest, AggregateData};
use zdu::inode_set::{inode_shard, IdSet, InodeSet};
use zdu::node::{EntryMetadata, FileTime, Node};
use zdu::path::PathBuf;
use zdu::progress::{Operation, RuntimeErrors};
use zdu::utils::get_filesystem_devices;
use zdu::walk::{
    classify, fold_size, DirAction, DirEvent, PathClass, PathFacts, Reading, Walk,
    MAX_EINTR_RETRIES,
};

fn create_walker<'a>(use_apparent_size: bool) -> WalkData<'a> {
    WalkData {
        ignore_directories: Vec::new(),
        absolute_ignore_directories: Vec::new(),
        filter_regex: &[],
        invert_filter_regex: &[],
        allowed_filesystems: HashSet::new(),
        filter_modified_time: Some((Operator::GreaterThan, 0)),
        filter_accessed_time: Some((Operator::GreaterThan, 0)),
        filter_changed_time: Some((Operator::GreaterThan, 0)),
        use_apparent_size,
        by_filecount: false,
        by_filetime: &None,
        ignore_hidden: false,
        follow_links: false,
    }
}

fn unix(text: &str) -> PathBuf {
    PathBuf::unix(text)
}

/// What an inode of the model disk is.
enum Thing {
    Dir(Vec<(String, u64)>),
    File(u64),
    Link(Option<u64>),
    Socket,
    Locked,
}

/// A disk with numbered inodes; directories measure 4096.
struct Disk {
    things: HashMap<u64, Thing>,
    device: u64,
}

impl Disk {
    fn new(things: Vec<(u64, Thing)>) -> Self {
        Disk {
            things: things.into_iter().collect(),
            device: 1,
        }
    }

    fn target(&self, id: u64) -> Option<u64> {
        match self.things.get(&id) {
            Some(Thing::Link(target)) => target.and_then(|t| self.target(t)),
            Some(_) => Some(id),
            None => None,
        }
    }

    fn metadata(&self, id: u64, follow: bool) -> Option<EntryMetadata> {
        let id = if follow { self.target(id)? } else { id };
        let size = match self.things.get(&id)? {
            Thing::Dir(_) | Thing::Locked => 4096,
            Thing::File(size) => *size,
            Thing::Link(_) | Thing::Socket => 0,
        };
        Some((size, Some((id, self.device)), (0, 0, 0)))
    }

    fn facts(&self, id: u64) -> PathFacts {
        let target = self.target(id).and_then(|t| self.things.get(&t));
        PathFacts {
            is_dir: matches!(target, Some(Thing::Dir(_) | Thing::Locked)),
            is_file: matches!(target, Some(Thing::File(_))),
            link: self
                .things
                .get(&id)
                .map(|thing| matches!(thing, Thing::Link(_))),
        }
    }

    fn read(&self, id: u64, dir: &PathBuf, walk_data: &WalkData) -> Reading {
        match self.target(id).and_then(|t| self.things.get(&t)) {
            Some(Thing::Dir(entries)) => Reading::Items(
                entries
                    .iter()
                    .map(|(name, id)| {
                        let kind = match self.things.get(id) {
                            Some(Thing::Dir(_) | Thing::Locked) => Some(EntryKind::Directory),
                            Some(Thing::File(_)) => Some(EntryKind::File),
                            Some(Thing::Link(_)) => Some(EntryKind::Symlink),
                            Some(Thing::Socket) => Some(EntryKind::Other),
                            None => None,
                        };
                        Listed::Found(Entry {
                            path: dir.join(&unix(name)),
                            kind,
                            metadata: self.metadata(*id, follows(walk_data, kind)),
                            resolved: None,
                        })
                    })
                    .collect(),
            ),
            Some(Thing::Locked) => Reading::Unreadable(Failure {
                kind: FailureKind::PermissionDenied,
                message: "Permission denied".to_owned(),
            }),
            _ => Reading::Unreadable(Failure {
                kind: FailureKind::NotFound,
                message: "No such file or directory".to_owned(),
            }),
        }
    }

    fn child(&self, id: u64, name: &str) -> u64 {
        match self.target(id).and_then(|t| self.things.get(&t)) {
            Some(Thing::Dir(entries)) => entries.iter().find(|(n, _)| n == name).unwrap().1,
            _ => unreachable!(),
        }
    }
}

/// Walks the roots, taking directories from the end of the list of those that
/// are left, or from its start.
fn walk_in_order(
    disk: &Disk,
    roots: &[(&str, u64)],
    walk_data: &WalkData,
    from_end: bool,
) -> (Vec<Node>, RuntimeErrors) {
    let mut walk = Walk::new(walk_data);
    for (path, id) in roots {
        let follow = follows(walk_data, Some(EntryKind::Symlink))
            && matches!(disk.things.get(id), Some(Thing::Link(_)));
        let metadata = disk.metadata(*id, follow);
        assert!(walk.has_room_for(&metadata));
        let mut left: Vec<(usize, u64)> = Vec::new();
        if let Some(first) = walk.add_root(unix(path), metadata) {
            left.push((first, *id));
        }
        assert_eq!(walk.progress().state, Operation::INDEXING);
        while !left.is_empty() {
            let (i, id) = if from_end {
                left.pop().unwrap()
            } else {
                left.remove(0)
            };
            let dir = walk.dir_path(i).clone();
            let mut action =
                walk.walk_dir(i, DirEvent::Looked(disk.facts(id)), None, 0);
            while let DirAction::List(retries) = action {
                let reading = disk.read(id, &dir, walk_data);
                if let Reading::Items(listing) = &reading {
                    assert!(walk.has_room_for_all(i, listing, None));
                }
                action = walk.walk_dir(i, DirEvent::Read(reading), None, retries);
            }
            if let DirAction::Finished { first, count } = action {
                for k in first..first + count {
                    let path = walk.dir_path(k).to_lossy();
                    let name = path.rsplit('/').next().unwrap().to_owned();
                    left.push((k, disk.child(id, &name)));
                }
            }
        }
        walk.end_root();
        assert_eq!(walk.progress().state, Operation::PREPARING);
    }
    walk.finish()
}

fn walk_all(disk: &Disk, roots: &[(&str, u64)], walk_data: &WalkData) -> (Vec<Node>, RuntimeErrors) {
    walk_in_order(disk, roots, walk_data, true)
}

fn dir(entries: &[(&str, u64)]) -> Thing {
    Thing::Dir(
        entries
            .iter()
            .map(|(name, id)| ((*name).to_owned(), *id))
            .collect(),
    )
}

fn names(node: &Node) -> Vec<String> {
    let mut list = vec![node.name.to_lossy()];
    for child in &node.children {
        list.extend(names(child));
    }
    list.sort();
    list
}

fn is_capped(node: &Node) -> bool {
    node.children
        .iter()
        .all(|child| child.size <= node.size && is_capped(child))
}

fn count_nodes(node: &Node) -> usize {
    let mut count = 0;
    let mut stack: Vec<&Node> = vec![node];
    while let Some(n) = stack.pop() {
        count += 1;
        stack.extend(n.children.iter());
    }
    count
}

fn max_depth(node: &Node) -> usize {
    let mut max = node.depth;
    let mut stack: Vec<&Node> = vec![node];
    while let Some(n) = stack.pop() {
        if n.depth > max {
            max = n.depth;
        }
        stack.extend(n.children.iter());
    }
    max
}

#[test]
fn test_is_ignored_path_semantics() {
    let ignored_dir = unix("/tmp/t/node_modules");
    let mut walk_data = create_walker(true);
    walk_data.ignore_directories = vec![unix("/tmp/t/plain")];

    // Relative ignores only: no absolute prefixes, no match anywhere
    assert!(!is_ignored_path(&ignored_dir, None, None, &walk_data));
    // Exact hit still wins
    assert!(is_ignored_path(
        &unix("/tmp/t/plain"),
        None,
        None,
        &walk_data
    ));

    // Absolute prefix: parent canonical_dir + file name falls inside it
    walk_data.absolute_ignore_directories = vec![unix("/tmp/t/node_modules")];
    let inside = ignored_dir.join(&unix("pkg"));
    let canonical_parent = unix("/tmp/t/node_modules");
    assert!(is_ignored_path(
        &inside,
        Some(&canonical_parent),
        None,
        &walk_data
    ));

    // Outside the prefix: no match
    let outside = unix("/tmp/t/other");
    assert!(!is_ignored_path(&outside, None, None, &walk_data));
    // Without the directory the entry itself decides
    // The name is put behind the resolved directory
    walk_data.absolute_ignore_directories = vec![unix("/real/dir/other")];
    assert!(is_ignored_path(&outside, Some(&unix("/real/dir")), None, &walk_data));
    assert!(!is_ignored_path(&unix("/tmp/t/x"), Some(&unix("/real/dir")), None, &walk_data));
    assert!(!is_ignored_path(&outside, Some(&unix("/real")), None, &walk_data));
    walk_data.absolute_ignore_directories = vec![unix("/tmp/t/node_modules")];
    assert!(is_ignored_path(
        &outside,
        None,
        Some(&unix("/tmp/t/node_modules/x")),
        &walk_data
    ));
    assert!(needs_resolving(None, &walk_data));
    assert!(!needs_resolving(Some(&canonical_parent), &walk_data));
    assert!(!needs_resolving(None, &create_walker(true)));
}

#[test]
fn test_hardlinked_files_counted_once() {
    let disk = Disk::new(vec![
        (1, dir(&[("original", 2), ("hardlink", 2)])),
        (2, Thing::File(8192)),
    ]);
    let walkdata = create_walker(false);
    let (result, _) = walk_all(&disk, &[("/t", 1)], &walkdata);
    assert_eq!(result.len(), 1);
    assert_eq!(result[0].children.len(), 1);
    assert_eq!(result[0].children[0].size, 8192);
    assert_eq!(result[0].size, 4096 + 8192);
}

#[test]
fn test_hardlinks_counted_per_link_with_apparent_size() {
    let disk = Disk::new(vec![
        (1, dir(&[("original", 2), ("hardlink", 2)])),
        (2, Thing::File(8192)),
    ]);
    let walkdata = create_walker(true);
    let (result, _) = walk_all(&disk, &[("/t", 1)], &walkdata);
    assert_eq!(result.len(), 1);
    assert_eq!(result[0].children.len(), 2);
}

#[test]
fn test_hardlink_across_roots_counted_once() {
    let disk = Disk::new(vec![
        (1, dir(&[("original", 3)])),
        (2, dir(&[("other-name", 3)])),
        (3, Thing::File(8192)),
    ]);
    let walkdata = create_walker(false);
    let (result, _) = walk_all(&disk, &[("/t1", 1), ("/t2", 2)], &walkdata);
    let surviving: usize = result.iter().map(|r| r.children.len()).sum();
    assert_eq!(result.len(), 2);
    assert_eq!(surviving, 1);
}

#[test]
fn a_root_that_was_counted_is_not_walked_again() {
    let disk = Disk::new(vec![(1, dir(&[("f", 2)])), (2, Thing::File(5))]);
    let walkdata = create_walker(false);
    let (result, _) = walk_all(&disk, &[("/t", 1), ("/bind", 1)], &walkdata);
    assert_eq!(result.len(), 1);
    let walkdata = create_walker(true);
    let (result, _) = walk_all(&disk, &[("/t", 1), ("/bind", 1)], &walkdata);
    assert_eq!(result.len(), 2);
}

#[test]
fn test_walk_deeply_nested_tree() {
    const DEPTH: usize = 500;
    let mut things = Vec::new();
    for i in 0..DEPTH {
        things.push((i as u64, dir(&[("a", i as u64 + 1)])));
    }
    things.push((DEPTH as u64, dir(&[])));
    let disk = Disk::new(things);

    let walkdata = create_walker(true);
    let (result, _) = walk_all(&disk, &[("/t", 0)], &walkdata);
    assert_eq!(result.len(), 1);
    assert_eq!(max_depth(&result[0]), DEPTH);
    // Root + DEPTH descendants, each holding exactly one child.
    assert_eq!(count_nodes(&result[0]), DEPTH + 1);
    assert_eq!(result[0].size, 4096 * (DEPTH as u64 + 1));
}

#[test]
fn test_walk_wide_directory() {
    const N: usize = 500;
    let mut things = Vec::new();
    let mut entries = Vec::new();
    for i in 0..N {
        entries.push((format!("f{i}"), i as u64 + 1));
        things.push((i as u64 + 1, Thing::File(i as u64)));
    }
    things.push((0, Thing::Dir(entries)));
    let disk = Disk::new(things);

    let walkdata = create_walker(true);
    let (result, _) = walk_all(&disk, &[("/t", 0)], &walkdata);
    assert_eq!(result.len(), 1);
    assert_eq!(result[0].children.len(), N);
    assert_eq!(count_nodes(&result[0]), N + 1);
}

#[test]
fn test_walk_multiple_roots_concurrently() {
    let disk = Disk::new(vec![
        (1, dir(&[("a", 3)])),
        (2, dir(&[("b", 4)])),
        (3, Thing::File(1)),
        (4, Thing::File(1)),
    ]);
    let walkdata = create_walker(true);
    let (result, _) = walk_all(&disk, &[("/t1", 1), ("/t2", 2)], &walkdata);
    assert_eq!(result.len(), 2);
}

#[test]
fn test_walk_missing_root_records_file_not_found() {
    let disk = Disk::new(vec![]);
    let missing = "/t/does-not-exist";
    let walkdata = create_walker(true);
    let (result, errors) = walk_all(&disk, &[(missing, 7)], &walkdata);
    assert!(result.is_empty());
    assert!(errors.file_not_found.contains(missing));
    assert!(!errors.metadata_unavailable.contains(missing));
}

#[test]
fn test_dangling_followed_link_reported_once() {
    let disk = Disk::new(vec![(1, dir(&[("dangling", 2)])), (2, Thing::Link(None))]);
    let mut walkdata = create_walker(true);
    walkdata.follow_links = true;
    let (_, errors) = walk_all(&disk, &[("/t", 1)], &walkdata);
    assert!(errors.file_not_found.contains("/t/dangling"));
    assert!(!errors.metadata_unavailable.contains("/t/dangling"));
}

#[test]
fn test_special_file_root_error_classification() {
    let disk = Disk::new(vec![(1, Thing::Socket), (2, Thing::Link(None))]);
    let walkdata = create_walker(true);
    let (_, errors) = walk_all(&disk, &[("/t/sock", 1), ("/t/dangling", 2)], &walkdata);
    assert!(errors.not_a_directory.contains("/t/sock"));
    assert!(!errors.file_not_found.contains("/t/sock"));
    assert!(errors.file_not_found.contains("/t/dangling"));
    assert!(!errors.not_a_directory.contains("/t/dangling"));
}

/// A directory that was seen in a listing, but whose metadata is missing.
fn raced_dir(path: &str) -> Listed {
    Listed::Found(Entry {
        path: unix(path),
        kind: Some(EntryKind::Directory),
        metadata: None,
        resolved: None,
    })
}

/// Walks a root that holds `/t/raced` without metadata, which holds a file.
fn walk_raced(
    walkdata: &WalkData,
    outer: &str,
    metadata: Option<EntryMetadata>,
) -> (Vec<Node>, RuntimeErrors) {
    let mut walk = Walk::new(walkdata);
    let i = walk.add_root(unix(outer), metadata).unwrap();
    let listing = Reading::Items(vec![raced_dir("/t/raced")]);
    let action = walk.walk_dir(i, DirEvent::Read(listing), None, 0);
    assert_eq!(action, DirAction::Finished { first: 1, count: 1 });
    assert_eq!(walk.dir_kind(1), DirKind::TypedDir);
    let facts = PathFacts {
        is_dir: false,
        is_file: false,
        link: None,
    };
    // a listing told that it is a directory, so it is not asked for again
    let action = walk.walk_dir(1, DirEvent::Looked(facts), None, 0);
    assert_eq!(action, DirAction::List(0));
    let child = Listed::Found(Entry {
        path: unix("/t/child.txt"),
        kind: Some(EntryKind::File),
        metadata: Some((42, None, (0, 0, 0))),
        resolved: None,
    });
    let action = walk.walk_dir(1, DirEvent::Read(Reading::Items(vec![child])), None, 0);
    assert_eq!(action, DirAction::Finished { first: 2, count: 0 });
    walk.finish()
}

#[test]
fn test_finalize_records_missing_metadata() {
    let walkdata = create_walker(true);
    let (nodes, errors) = walk_raced(&walkdata, "", None);
    assert!(errors.metadata_unavailable.contains("/t/raced"));
    assert!(nodes.is_empty());
}

#[test]
fn test_directory_without_metadata_is_lost_below_a_known_one() {
    let walkdata = create_walker(true);
    let (nodes, errors) = walk_raced(&walkdata, "/t", Some((4096, Some((1, 1)), (0, 0, 0))));
    assert!(errors.metadata_unavailable.contains("/t/raced"));
    assert!(!errors.metadata_unavailable.contains("/t"));
    assert_eq!(nodes.len(), 1);
    assert_eq!(nodes[0].size, 4096);
    assert!(nodes[0].children.is_empty());
}

#[test]
fn test_root_without_metadata_is_lost() {
    let walkdata = create_walker(true);
    let mut walk = Walk::new(&walkdata);
    // a directory whose metadata went missing is walked, and lost
    let i = walk.add_root(unix("/t/raced"), None).unwrap();
    let facts = PathFacts {
        is_dir: true,
        is_file: false,
        link: Some(false),
    };
    assert_eq!(
        walk.walk_dir(i, DirEvent::Looked(facts), None, 0),
        DirAction::List(0)
    );
    let child = Listed::Found(Entry {
        path: unix("/t/raced/child.txt"),
        kind: Some(EntryKind::File),
        metadata: Some((42, None, (0, 0, 0))),
        resolved: None,
    });
    let action = walk.walk_dir(i, DirEvent::Read(Reading::Items(vec![child])), None, 0);
    assert_eq!(action, DirAction::Finished { first: 1, count: 0 });
    let (nodes, errors) = walk.finish();
    assert!(nodes.is_empty());
    assert!(errors.metadata_unavailable.contains("/t/raced"));
}

#[test]
fn test_walk_permission_denied_subdir_is_recorded() {
    let disk = Disk::new(vec![(1, dir(&[("locked", 2)])), (2, Thing::Locked)]);
    let walkdata = create_walker(true);
    let (result, errors) = walk_all(&disk, &[("/t", 1)], &walkdata);
    assert!(errors.no_permissions.contains("/t/locked"));
    // the directory itself is still counted
    assert_eq!(result[0].size, 2 * 4096);
}

#[test]
fn test_sym_link_dir_loop_with_dereference() {
    let disk = Disk::new(vec![
        (1, dir(&[("sub", 2), ("loop", 4)])),
        (2, dir(&[("big.bin", 3)])),
        (3, Thing::File(100_000)),
        (4, Thing::Link(Some(1))),
    ]);
    let mut walkdata = create_walker(true);
    walkdata.follow_links = true;
    let (result, errors) = walk_all(&disk, &[("/t", 1)], &walkdata);
    let all = names(&result[0]);
    assert!(!all.iter().any(|name| name.contains("loop/loop")));
    assert!(errors.file_not_found.is_empty());
    assert_eq!(all, vec!["/t", "/t/sub", "/t/sub/big.bin"]);
}

#[test]
fn test_sym_link_to_root_not_walked_twice() {
    let disk = Disk::new(vec![
        (1, dir(&[("big.bin", 2), ("self", 3)])),
        (2, Thing::File(100_000)),
        (3, Thing::Link(Some(1))),
    ]);
    let mut walkdata = create_walker(true);
    walkdata.follow_links = true;
    let (result, _) = walk_all(&disk, &[("/t", 1)], &walkdata);
    let shown = names(&result[0]);
    assert_eq!(shown.iter().filter(|n| n.contains("big.bin")).count(), 1);
}

#[test]
fn a_link_is_followed_once_below_each_root() {
    let disk = Disk::new(vec![
        (1, dir(&[("x", 3), ("y", 3)])),
        (2, dir(&[("z", 3)])),
        (3, Thing::Link(Some(4))),
        (4, dir(&[("f", 5)])),
        (5, Thing::File(10)),
    ]);
    let mut walkdata = create_walker(true);
    walkdata.follow_links = true;
    let (result, _) = walk_all(&disk, &[("/a", 1), ("/b", 2)], &walkdata);
    assert_eq!(names(&result[0]), vec!["/a", "/a/x", "/a/x/f"]);
    assert_eq!(names(&result[1]), vec!["/b", "/b/z", "/b/z/f"]);
    // a link that is not followed is a leaf
    walkdata.follow_links = false;
    let (result, _) = walk_all(&disk, &[("/b", 2)], &walkdata);
    assert_eq!(names(&result[0]), vec!["/b", "/b/z"]);
    assert!(!result[0].children[0].is_file);
}

#[test]
fn sizes_do_not_depend_on_the_order_of_the_walk() {
    let disk = Disk::new(vec![
        (1, dir(&[("a", 2), ("b", 3), ("f", 9)])),
        (2, dir(&[("c", 4), ("g", 10)])),
        (3, dir(&[("d", 5), ("e", 6)])),
        (4, dir(&[("h", 11)])),
        (5, dir(&[])),
        (6, dir(&[("i", 12)])),
        (9, Thing::File(1)),
        (10, Thing::File(20)),
        (11, Thing::File(300)),
        (12, Thing::File(4000)),
    ]);
    let walkdata = create_walker(true);
    let (one, _) = walk_in_order(&disk, &[("/t", 1)], &walkdata, true);
    let (two, _) = walk_in_order(&disk, &[("/t", 1)], &walkdata, false);
    assert_eq!(one[0].size, 6 * 4096 + 4321);
    assert_eq!(one[0].size, two[0].size);
    assert_eq!(names(&one[0]), names(&two[0]));
    // no part measures more than the whole
    assert!(is_capped(&one[0]) && is_capped(&two[0]));
    let time = Some(FileTime::Modified);
    let mut walkdata = create_walker(true);
    walkdata.by_filetime = &time;
    let (by_time, _) = walk_in_order(&disk, &[("/t", 1)], &walkdata, true);
    assert!(is_capped(&by_time[0]));
    assert_eq!(by_time[0].size, 1 << 63);
    walkdata.by_filetime = &None;
    walkdata.by_filecount = true;
    let (by_count, _) = walk_in_order(&disk, &[("/t", 1)], &walkdata, true);
    assert!(is_capped(&by_count[0]));
    assert_eq!(by_count[0].size, 4);
    // every size is the number of files at or below
    fn files(node: &Node) -> u64 {
        u64::from(node.is_file) + node.children.iter().map(files).sum::<u64>()
    }
    fn counts_files(node: &Node) -> bool {
        node.size == files(node) && node.children.iter().all(counts_files)
    }
    assert!(counts_files(&by_count[0]));
}

#[test]
fn the_latest_timestamp_stands_for_a_directory() {
    let time = Some(FileTime::Modified);
    let mut walkdata = create_walker(true);
    walkdata.by_filetime = &time;
    let leaf = |size: u64| Node {
        name: unix("x"),
        size,
        children: vec![],
        inode_device: None,
        depth: 1,
        is_file: true,
    };
    let children = vec![leaf(3), leaf(u64::MAX), leaf(5)];
    assert_eq!(fold_size(&time, 4, &children), u64::MAX);
    assert_eq!(fold_size(&time, 4, &vec![]), 4);
    assert_eq!(fold_size(&None, 4, &vec![leaf(3), leaf(5)]), 12);
    // the order of the children does not matter
    assert_eq!(fold_size(&None, 4, &vec![leaf(5), leaf(3)]), 12);
    let turned = vec![leaf(5), leaf(u64::MAX), leaf(3)];
    assert_eq!(fold_size(&time, 4, &turned), u64::MAX);
}

#[test]
fn interrupted_listings_are_tried_again_and_given_up() {
    let walkdata = create_walker(true);
    let mut walk = Walk::new(&walkdata);
    let i = walk
        .add_root(unix("/t"), Some((10, None, (0, 0, 0))))
        .unwrap();
    let interrupted = || {
        Reading::Unreadable(Failure {
            kind: FailureKind::Interrupted,
            message: "interrupted".to_owned(),
        })
    };
    let mut retries = 0;
    for attempt in 0..MAX_EINTR_RETRIES {
        // half of the interruptions happen in the middle of a listing, of
        // which nothing is kept
        let reading = if attempt % 2 == 0 {
            interrupted()
        } else {
            Reading::Items(vec![
                Listed::Found(Entry {
                    path: unix("/t/f"),
                    kind: Some(EntryKind::File),
                    metadata: Some((1, None, (0, 0, 0))),
                    resolved: None,
                }),
                Listed::Failed(Failure {
                    kind: FailureKind::Interrupted,
                    message: "interrupted".to_owned(),
                }),
            ])
        };
        match walk.walk_dir(i, DirEvent::Read(reading), None, retries) {
            DirAction::List(next) => retries = next,
            other => panic!("{other:?}"),
        }
    }
    assert_eq!(retries, 999);
    let action = walk.walk_dir(i, DirEvent::Read(interrupted()), None, retries);
    assert_eq!(action, DirAction::Finished { first: 1, count: 0 });
    assert!(walk.can_record(&interrupted()));
    assert_eq!(walk.errors().interrupted_error, 1000);
    assert!(walk.errors().eintr_exhausted.contains("/t"));
    assert_eq!(walk.progress().num_files, 0);
    let (nodes, _) = walk.finish();
    assert_eq!(nodes[0].size, 10);
    assert!(nodes[0].children.is_empty());
}

#[test]
fn a_retry_that_succeeds_leaves_no_trace_but_the_count() {
    let walkdata = create_walker(true);
    let mut walk = Walk::new(&walkdata);
    let i = walk
        .add_root(unix("/t"), Some((10, None, (0, 0, 0))))
        .unwrap();
    let failed = Reading::Items(vec![
        Listed::Failed(Failure {
            kind: FailureKind::Other,
            message: "odd".to_owned(),
        }),
        Listed::Failed(Failure {
            kind: FailureKind::Interrupted,
            message: "interrupted".to_owned(),
        }),
    ]);
    assert_eq!(
        walk.walk_dir(i, DirEvent::Read(failed), None, 0),
        DirAction::List(1)
    );
    assert!(walk.errors().unknown_error.is_empty());
    let listing = Reading::Items(vec![
        Listed::Failed(Failure {
            kind: FailureKind::Other,
            message: "odd".to_owned(),
        }),
        Listed::Found(Entry {
            path: unix("/t/f"),
            kind: Some(EntryKind::File),
            metadata: Some((7, None, (0, 0, 0))),
            resolved: None,
        }),
    ]);
    walk.walk_dir(i, DirEvent::Read(listing), None, 1);
    assert_eq!(walk.progress().num_files, 1);
    assert_eq!(walk.progress().total_file_size, 7);
    let (nodes, errors) = walk.finish();
    assert_eq!(nodes[0].size, 17);
    assert_eq!(errors.interrupted_error, 1);
    assert!(errors.unknown_error.contains("odd"));
    assert!(errors.eintr_exhausted.is_empty());
}

#[test]
fn failures_are_recorded_by_kind() {
    let mut errors = RuntimeErrors::default();
    let dir = unix("/d");
    let kinds = [
        FailureKind::PermissionDenied,
        FailureKind::InvalidInput,
        FailureKind::NotFound,
        FailureKind::Interrupted,
        FailureKind::Other,
    ];
    for kind in kinds {
        let failed = Failure {
            kind,
            message: format!("{kind:?}"),
        };
        assert_eq!(is_retryable(&failed), kind == FailureKind::Interrupted);
        record_error(&failed, &dir, &mut errors);
        record_error(&failed, &dir, &mut errors);
    }
    assert_eq!(errors.no_permissions.messages(), &vec!["/d".to_owned()]);
    assert_eq!(errors.file_not_found.messages(), &vec!["NotFound".to_owned()]);
    assert_eq!(errors.unknown_error.messages(), &vec!["Other".to_owned()]);
    assert_eq!(errors.interrupted_error, 2);
}

#[test]
fn paths_are_classified() {
    let facts = |is_dir, is_file, link| PathFacts {
        is_dir,
        is_file,
        link,
    };
    let stat = DirKind::StatClassified;
    assert_eq!(
        classify(DirKind::TypedDir, &facts(false, false, None)),
        PathClass::Directory
    );
    assert_eq!(
        classify(stat, &facts(true, false, Some(true))),
        PathClass::Directory
    );
    assert_eq!(
        classify(stat, &facts(false, true, Some(false))),
        PathClass::File
    );
    assert_eq!(
        classify(stat, &facts(false, false, Some(false))),
        PathClass::NotADirectory
    );
    assert_eq!(
        classify(stat, &facts(false, false, Some(true))),
        PathClass::NotFound
    );
    assert_eq!(
        classify(stat, &facts(false, false, None)),
        PathClass::NotFound
    );
}

#[test]
fn a_file_can_be_a_root() {
    let disk = Disk::new(vec![(1, Thing::File(77))]);
    let walkdata = create_walker(true);
    let (result, errors) = walk_all(&disk, &[("/t/file", 1)], &walkdata);
    assert_eq!(result[0].size, 77);
    assert!(!result[0].is_file);
    assert!(errors.file_not_found.is_empty());
    assert!(errors.metadata_unavailable.is_empty());
}

#[test]
fn entries_are_passed_over() {
    let meta: EntryMetadata = (1, Some((5, 2)), (100, 100, 100));
    let ignored = |data: &WalkData, path: &str, is_file: bool| {
        ignore_file(&unix(path), is_file, Some(&meta), None, None, data)
    };
    let mut data = create_walker(true);
    assert!(!ignored(&data, "/t/.hidden", true));
    data.ignore_hidden = true;
    assert!(ignored(&data, "/t/.hidden", true));
    assert!(ignored(&data, "/t/.hidden", false));
    assert!(!ignored(&data, "/t/shown", true));
    // a dot name that is not UTF-8 is shown
    let odd = PathBuf::new(zdu::path::Platform::Unix, b"/t/.\xff".to_vec());
    assert!(!ignore_file(&odd, true, Some(&meta), None, None, &data));

    let mut data = create_walker(true);
    data.allowed_filesystems = HashSet::from([1]);
    assert!(ignored(&data, "/t/f", true));
    assert!(!ignore_file(&unix("/t/f"), true, None, None, None, &data));
    data.allowed_filesystems = HashSet::from([1, 2]);
    assert!(!ignored(&data, "/t/f", true));

    // filters hold for files alone
    let mut data = create_walker(true);
    data.filter_changed_time = Some((Operator::GreaterThan, 101));
    assert!(ignored(&data, "/t/f", true));
    assert!(!ignored(&data, "/t/f", false));
    assert!(!ignore_file(&unix("/t/f"), true, None, None, None, &data));

    let regexes = [Regex::new("rs$").unwrap()];
    let mut data = create_walker(true);
    data.filter_regex = &regexes;
    assert!(ignored(&data, "/t/f.c", true));
    assert!(!ignored(&data, "/t/f.rs", true));
    assert!(!ignored(&data, "/t/dir", false));
    let mut data = create_walker(true);
    data.invert_filter_regex = &regexes;
    assert!(!ignored(&data, "/t/f.c", true));
    assert!(ignored(&data, "/t/f.rs", true));
    assert!(!ignored(&data, "/t/dir.rs", false));

    let mut data = create_walker(true);
    data.ignore_directories = vec![unix("/t/skip")];
    assert!(ignored(&data, "/t//skip", false));
}

#[test]
fn test_ignore_directory_matches_case_insensitively() {
    let mut data = create_walker(true);
    for ignore in ["dir_a", "DIR_A", "Dir_A"] {
        let root = PathBuf::windows("C:\\t");
        data.ignore_directories = vec![root.join(&PathBuf::windows(ignore))];
        assert!(is_ignored_path(
            &PathBuf::windows("C:\\t\\dir_a"),
            None,
            None,
            &data
        ));
        assert!(!is_ignored_path(
            &PathBuf::windows("C:\\t\\keep.txt"),
            None,
            None,
            &data
        ));
    }
}

#[test]
fn other_file_systems_are_left_out() {
    let mut disk = Disk::new(vec![(1, dir(&[("f", 2)])), (2, Thing::File(5))]);
    disk.device = 9;
    let mut walkdata = create_walker(true);
    walkdata.allowed_filesystems = HashSet::from([9]);
    let (result, _) = walk_all(&disk, &[("/t", 1)], &walkdata);
    assert_eq!(result[0].children.len(), 1);
    walkdata.allowed_filesystems = HashSet::from([8]);
    let (result, _) = walk_all(&disk, &[("/t", 1)], &walkdata);
    assert!(result[0].children.is_empty());
}

#[test]
fn identities_are_claimed_once() {
    let mut inodes = InodeSet::new();
    let meta: EntryMetadata = (1, Some((5, 2)), (0, 0, 0));
    let blocks = create_walker(false);
    assert!(!is_duplicate_inode(Some(&meta), &blocks, &mut inodes));
    assert!(is_duplicate_inode(Some(&meta), &blocks, &mut inodes));
    let other: EntryMetadata = (1, Some((5, 3)), (0, 0, 0));
    assert!(!is_duplicate_inode(Some(&other), &blocks, &mut inodes));
    assert!(!is_duplicate_inode(None, &blocks, &mut inodes));
    let apparent = create_walker(true);
    assert!(!is_duplicate_inode(Some(&meta), &apparent, &mut inodes));
}

#[test]
fn identities_are_spread_by_inode() {
    assert_eq!(inode_shard((0, 5)), 0);
    assert_eq!(inode_shard((1, 5)), 0x15);
    assert_eq!(inode_shard((1, 6)), 0x15);
    assert_eq!(inode_shard((2, 5)), 0x2a);
    let mut set = InodeSet::new();
    for ino in 0..2000 {
        assert!(set.insert((ino, 1)));
    }
    for ino in 0..2000 {
        assert!(!set.insert((ino, 1)));
    }
    let mut ids = IdSet::new();
    assert!(ids.insert((1, u64::MAX)));
    assert!(ids.insert((2, u64::MAX)));
    assert!(!ids.insert((1, u64::MAX)));
}

#[test]
fn sizes_that_do_not_fit_are_told() {
    let walkdata = create_walker(true);
    let mut walk = Walk::new(&walkdata);
    let most = Some((u64::MAX, None, (0, 0, 0)));
    assert!(walk.has_room_for(&most));
    walk.add_root(unix("/t"), most);
    assert!(!walk.has_room_for(&Some((1, None, (0, 0, 0)))));
    assert!(walk.has_room_for(&Some((0, None, (0, 0, 0)))));
    assert!(walk.has_room_for(&None));
    let listing = vec![Listed::Found(Entry {
        path: unix("/t/f"),
        kind: Some(EntryKind::File),
        metadata: Some((1, None, (0, 0, 0))),
        resolved: None,
    })];
    assert!(!walk.has_room_for_all(0, &listing, None));
    assert!(walk.has_room_for_all(0, &Vec::new(), None));
    // where files are counted, their sizes do not matter
    let mut walkdata = create_walker(true);
    walkdata.by_filecount = true;
    let mut walk = Walk::new(&walkdata);
    walk.add_root(unix("/t"), most);
    assert!(walk.has_room_for(&most));
    assert!(walk.has_room_for_all(0, &listing, None));
    // timestamps are not added up
    let time = Some(FileTime::Changed);
    let mut walkdata = create_walker(true);
    walkdata.by_filetime = &time;
    let mut walk = Walk::new(&walkdata);
    walk.add_root(unix("/t"), most);
    assert!(walk.has_room_for_all(0, &listing, None));
}

#[test]
fn leaves_without_metadata_are_recorded() {
    let walkdata = create_walker(true);
    let mut walk = Walk::new(&walkdata);
    let i = walk
        .add_root(unix("/t"), Some((1, None, (0, 0, 0))))
        .unwrap();
    let listing = vec![
        Listed::Found(Entry {
            path: unix("/t/gone"),
            kind: Some(EntryKind::File),
            metadata: None,
            resolved: None,
        }),
        Listed::Found(Entry {
            path: unix("/t/untyped"),
            kind: None,
            metadata: None,
            resolved: None,
        }),
    ];
    walk.walk_dir(i, DirEvent::Read(Reading::Items(listing)), None, 0);
    assert!(walk.errors().metadata_unavailable.contains("/t/gone"));
    assert!(!walk.errors().metadata_unavailable.contains("/t/untyped"));
    assert_eq!(walk.progress().num_files, 1);
    assert_eq!(walk.progress().total_file_size, 0);
}

#[test]
fn entries_that_are_left_out_take_no_room() {
    let walkdata = create_walker(false);
    let mut walk = Walk::new(&walkdata);
    let i = walk
        .add_root(unix("/t"), Some((0, Some((1, 1)), (0, 0, 0))))
        .unwrap();
    let half = 1 << 63;
    let link = |name: &str| {
        Listed::Found(Entry {
            path: unix(name),
            kind: Some(EntryKind::File),
            metadata: Some((half, Some((2, 1)), (0, 0, 0))),
            resolved: None,
        })
    };
    let sub = Listed::Found(Entry {
        path: unix("/t/sub"),
        kind: Some(EntryKind::Directory),
        metadata: Some((0, Some((3, 1)), (0, 0, 0))),
        resolved: None,
    });
    let listing = Reading::Items(vec![link("/t/a"), sub]);
    walk.walk_dir(i, DirEvent::Read(listing), None, 0);
    // another name of the same file: it was counted already
    let listing = vec![link("/t/sub/b")];
    assert!(walk.has_room_for_all(1, &listing, None));
    // another file of that size does not fit
    let other = Listed::Found(Entry {
        path: unix("/t/sub/c"),
        kind: Some(EntryKind::File),
        metadata: Some((half, Some((4, 1)), (0, 0, 0))),
        resolved: None,
    });
    assert!(!walk.has_room_for_all(1, &vec![other], None));
    walk.walk_dir(1, DirEvent::Read(Reading::Items(listing)), None, 0);
    assert!(walk.has_room_for(&Some((u64::MAX, Some((1, 1)), (0, 0, 0)))));
    assert!(!walk.has_room_for(&Some((u64::MAX, Some((9, 1)), (0, 0, 0)))));
    let (nodes, _) = walk.finish();
    assert_eq!(nodes[0].size, half);
    assert!(nodes[0].children.iter().all(|child| child.children.is_empty()));
}

#[test]
fn a_link_to_something_unidentified_is_followed_each_time() {
    let mut walkdata = create_walker(true);
    walkdata.follow_links = true;
    let mut walk = Walk::new(&walkdata);
    let i = walk
        .add_root(unix("/t"), Some((1, None, (0, 0, 0))))
        .unwrap();
    let link = |name: &str| {
        Listed::Found(Entry {
            path: unix(name),
            kind: Some(EntryKind::Symlink),
            metadata: None,
            resolved: None,
        })
    };
    let listing = Reading::Items(vec![link("/t/a"), link("/t/b")]);
    assert_eq!(
        walk.walk_dir(i, DirEvent::Read(listing), None, 0),
        DirAction::Finished { first: 1, count: 2 }
    );
    assert_eq!(walk.dir_kind(1), DirKind::StatClassified);
    assert_eq!(walk.dir_path(2), &unix("/t/b"));
}

#[test]
fn fates_are_decided() {
    let (dir, file, link) = (
        Some(EntryKind::Directory),
        Some(EntryKind::File),
        Some(EntryKind::Symlink),
    );
    assert_eq!(decide(None, false, false, false, false, false), Fate::PassedOver);
    assert_eq!(decide(file, true, true, false, false, false), Fate::PassedOver);
    assert_eq!(decide(file, false, true, false, false, false), Fate::Duplicate);
    assert_eq!(decide(file, false, false, false, false, false), Fate::Leaf);
    assert_eq!(decide(dir, false, false, false, true, true), Fate::Descend);
    assert_eq!(decide(link, false, false, false, false, true), Fate::Leaf);
    assert_eq!(decide(link, false, false, true, true, true), Fate::Foreign);
    assert_eq!(decide(link, false, false, true, false, true), Fate::Visited);
    assert_eq!(decide(link, false, false, true, false, false), Fate::Descend);
}

fn shown_names(node: &DisplayNode) -> Vec<(String, u64)> {
    let mut list = vec![(node.name.to_lossy(), node.size)];
    for child in node.get_children_from_node(false) {
        list.extend(shown_names(child));
    }
    list
}

fn show_all(nodes: Vec<Node>) -> Vec<(String, u64)> {
    let data = AggregateData {
        min_size: None,
        only_dir: false,
        only_file: false,
        number_of_lines: usize::MAX,
        depth: usize::MAX,
        using_a_filter: false,
        short_paths: false,
    };
    shown_names(&get_biggest(nodes, &data, None, &Vec::new()))
}

#[test]
fn test_soft_sym_link() {
    let disk = Disk::new(vec![
        (1, dir(&[("file", 2), ("the_link", 3)])),
        (2, Thing::File(100)),
        (3, Thing::Link(Some(2))),
    ]);
    let walkdata = create_walker(true);
    let (result, _) = walk_all(&disk, &[("/t", 1)], &walkdata);
    assert_eq!(
        show_all(result),
        vec![
            ("/t".to_owned(), 4196),
            ("/t/file".to_owned(), 100),
            ("/t/the_link".to_owned(), 0),
        ]
    );
}

#[test]
fn test_hard_sym_link() {
    let disk = Disk::new(vec![
        (1, dir(&[("file", 2), ("the_link", 2)])),
        (2, Thing::File(100)),
    ]);
    let walkdata = create_walker(false);
    let (result, _) = walk_all(&disk, &[("/t", 1)], &walkdata);
    let shown = show_all(result);
    let file_shown = shown.iter().any(|(name, _)| name == "/t/file");
    let link_shown = shown.iter().any(|(name, _)| name == "/t/the_link");
    assert!(
        file_shown != link_shown,
        "exactly one hardlink name must survive, got file={file_shown} link={link_shown}"
    );
}

#[test]
fn test_hard_sym_link_no_dup_multi_arg() {
    let disk = Disk::new(vec![
        (1, dir(&[("file", 3)])),
        (2, dir(&[("the_link", 3)])),
        (3, Thing::File(100)),
    ]);
    let walkdata = create_walker(false);
    let (result, _) = walk_all(&disk, &[("/link_dir", 2), ("/dir", 1)], &walkdata);
    let shown = show_all(result);
    let has_file = shown.iter().any(|(name, _)| name == "/dir/file");
    let has_link = shown.iter().any(|(name, _)| name == "/link_dir/the_link");
    assert!(has_file != has_link);
}

#[test]
fn test_recursive_sym_link() {
    let disk = Disk::new(vec![(1, dir(&[("the_link", 2)])), (2, Thing::Link(Some(1)))]);
    let walkdata = create_walker(true);
    let (result, _) = walk_all(&disk, &[("/t", 1)], &walkdata);
    let names: Vec<String> = show_all(result).into_iter().map(|(name, _)| name).collect();
    assert_eq!(names, vec!["/t", "/t/the_link"]);
}

/// d0 to d3 with files of various sizes, and deep directories below d0.
fn build_tree() -> Disk {
    let mut things = Vec::new();
    let mut next = 1000;
    let mut top = Vec::new();
    for i in 0..4u64 {
        let mut entries = Vec::new();
        for j in 0..30u64 {
            entries.push((format!("file{j}.txt"), next));
            things.push((next, Thing::File(100 * (i * 30 + j + 1))));
            next += 1;
        }
        entries.push(("dup.txt".to_owned(), next));
        things.push((next, Thing::File(123)));
        next += 1;
        if i == 0 {
            entries.push(("deep".to_owned(), 10));
        }
        top.push((format!("d{i}"), i + 1));
        things.push((i + 1, Thing::Dir(entries)));
    }
    for level in 10..30 {
        things.push((level, dir(&[("a", level + 1)])));
    }
    things.push((30, dir(&[("bottom.txt", 31)])));
    things.push((31, Thing::File(6)));
    things.push((0, Thing::Dir(top)));
    Disk::new(things)
}

#[test]
fn tree_output_is_identical_across_thread_counts() {
    let disk = build_tree();
    let walkdata = create_walker(true);
    let (one, _) = walk_in_order(&disk, &[("/t", 0)], &walkdata, true);
    let (two, _) = walk_in_order(&disk, &[("/t", 0)], &walkdata, false);
    let shown = show_all(one);
    assert!(shown.iter().any(|(name, _)| name.ends_with("/bottom.txt")));
    assert_eq!(shown, show_all(two));
}

#[test]
fn test_limit_filesystem_with_symlink_arg() {
    // the argument is a link on one file system to a directory on another: the
    // device of what it leads to is the one that counts
    let mut disk = Disk::new(vec![
        (1, Thing::Link(Some(2))),
        (2, dir(&[("f.bin", 3)])),
        (3, Thing::File(4096)),
    ]);
    disk.device = 9;
    let mut walkdata = create_walker(true);
    walkdata.allowed_filesystems = get_filesystem_devices(&vec![disk.metadata(1, true)]);
    let (result, _) = walk_all(&disk, &[("/dev/shm/link", 1)], &walkdata);
    let shown = show_all(result);
    assert!(shown.iter().any(|(name, _)| name.ends_with("/f.bin")));
}

/// A tree as text, with children in the order of their text.
fn tree_text(node: &Node) -> String {
    let mut parts: Vec<String> = node.children.iter().map(tree_text).collect();
    parts.sort();
    format!(
        "{}:{}:{:?}:{}:{}[{}]",
        node.name.to_lossy(),
        node.size,
        node.inode_device,
        node.depth,
        node.is_file,
        parts.join(",")
    )
}

#[test]
fn trees_do_not_depend_on_the_order_of_roots_and_directories() {
    let disk = build_tree();
    let walkdata = create_walker(true);
    let roots = [("/t", 0), ("/deep", 10), ("/file", 31), ("/d", 1)];
    let mut others = roots;
    others.reverse();
    let sorted = |nodes: &Vec<Node>| {
        let mut texts: Vec<String> = nodes.iter().map(tree_text).collect();
        texts.sort();
        texts
    };
    let (one, _) = walk_in_order(&disk, &roots, &walkdata, true);
    let (two, _) = walk_in_order(&disk, &others, &walkdata, false);
    assert_eq!(one.len(), 4);
    assert_eq!(sorted(&one), sorted(&two));
    // a directory that was found earlier can be walked after one found later
    let mut walk = Walk::new(&walkdata);
    let list = |walk: &mut Walk, i: usize, entries: Vec<Listed>| {
        walk.walk_dir(i, DirEvent::Read(Reading::Items(entries)), None, 0)
    };
    let entry = |path: &str, kind: EntryKind, size: u64| {
        Listed::Found(Entry {
            path: unix(path),
            kind: Some(kind),
            metadata: Some((size, None, (0, 0, 0))),
            resolved: None,
        })
    };
    let a = walk.add_root(unix("/a"), Some((1, None, (0, 0, 0)))).unwrap();
    let b = walk.add_root(unix("/b"), Some((2, None, (0, 0, 0)))).unwrap();
    let found = vec![
        entry("/b/x", EntryKind::Directory, 10),
        entry("/b/y", EntryKind::Directory, 20),
    ];
    assert_eq!(list(&mut walk, b, found), DirAction::Finished { first: 2, count: 2 });
    list(&mut walk, 3, vec![entry("/b/y/f", EntryKind::File, 400)]);
    list(&mut walk, a, vec![]);
    list(&mut walk, 2, vec![]);
    let (mixed, _) = walk.finish();
    let mut walk = Walk::new(&walkdata);
    let b = walk.add_root(unix("/b"), Some((2, None, (0, 0, 0)))).unwrap();
    let found = vec![
        entry("/b/x", EntryKind::Directory, 10),
        entry("/b/y", EntryKind::Directory, 20),
    ];
    list(&mut walk, b, found);
    list(&mut walk, 1, vec![]);
    list(&mut walk, 2, vec![entry("/b/y/f", EntryKind::File, 400)]);
    let a = walk.add_root(unix("/a"), Some((1, None, (0, 0, 0)))).unwrap();
    list(&mut walk, a, vec![]);
    let (plain, _) = walk.finish();
    assert_eq!(sorted(&mixed), sorted(&plain));
    assert_eq!(plain[0].size, 432);
}
