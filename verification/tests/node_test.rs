use std::cmp::Ordering;
use std::collections::HashSet;

use chrono::TimeZone;
use regex::Regex;
use zdu::dir_walker::{Operator, WalkData};
use zdu::node::{build_node, decode_filetime, encode_filetime, measure_entry, FileTime, Node};
use zdu::path::PathBuf;

fn create_walker<'a>(use_apparent_size: bool) -> WalkData<'a> {
    WalkData {
        ignore_directories: Vec::new(),
        absolute_ignore_directories: Vec::new(),
        filter_regex: &[],
        invert_filter_regex: &[],
        allowed_filesystems: HashSet::new(),
        filter_modified_time: Some((Operator::GreaterThan, 0)),
        filter_accessed_time: Some((Operator::GreaterThan, 0)),
        filter_changed_time: Some((Operator::GreaterThan, 0)),
        use_apparent_size,
        by_filecount: false,
        by_filetime: &None,
        ignore_hidden: false,
        follow_links: false,
    }
}

#[test]
fn test_build_node_already_filtered_skips_regex_zeroing() {
    // -v keeps only matching files: a non-matching regex means the file
    // would be zeroed unless the caller already filtered it
    let regex = vec![Regex::new("zzz_nomatch").unwrap()];
    let mut walk_data = create_walker(true);
    walk_data.filter_regex = &regex;

    let file = PathBuf::unix("/tmp/keepme.txt");
    let meta = Some((100, None, (0, 0, 0)));
    let kept = build_node(file.clone(), vec![], true, true, 1, &walk_data, meta).unwrap();
    assert_eq!(kept.size, 100);
    let zeroed = build_node(file, vec![], true, false, 1, &walk_data, meta).unwrap();
    assert_eq!(zeroed.size, 0);

    // A directory matching the invert regex is always zero-checked
    // (directories never take the already_filtered path)
    let invert = vec![Regex::new("matchdir").unwrap()];
    walk_data.filter_regex = &[];
    walk_data.invert_filter_regex = &invert;
    let dir = build_node(
        PathBuf::unix("/tmp/matchdir"),
        vec![],
        false,
        false,
        0,
        &walk_data,
        meta,
    )
    .unwrap();
    assert_eq!(dir.size, 0);
}

#[test]
fn nodes_are_built_of_metadata() {
    let mut walk_data = create_walker(true);
    let build = |walk_data: &WalkData, is_file: bool, meta| {
        build_node(PathBuf::unix("x"), vec![], is_file, false, 3, walk_data, meta)
    };
    assert!(build(&walk_data, true, None).is_none());
    let meta = Some((100, Some((4, 5)), (7, 8, 9)));
    let node = build(&walk_data, true, meta).unwrap();
    assert_eq!(node.size, 100);
    assert_eq!(node.inode_device, Some((4, 5)));
    assert_eq!(node.depth, 3);
    assert!(node.is_file);
    assert!(node.children.is_empty());
    // a timestamp before the bound counts for nothing
    let early = Some((100, None, (7, -1, 9)));
    assert_eq!(build(&walk_data, true, early).unwrap().size, 0);
    // files are counted, directories are not
    walk_data.by_filecount = true;
    assert_eq!(build(&walk_data, true, meta).unwrap().size, 1);
    assert_eq!(build(&walk_data, false, meta).unwrap().size, 0);
}

#[test]
fn entries_are_measured() {
    let data = (100, None, (7, 8, 9));
    assert_eq!(measure_entry(true, true, &None, &data), 0);
    assert_eq!(measure_entry(false, true, &None, &data), 1);
    assert_eq!(measure_entry(false, false, &None, &data), 100);
    let times = [FileTime::Modified, FileTime::Accessed, FileTime::Changed];
    for (time, value) in times.into_iter().zip([7, 8, 9]) {
        let size = measure_entry(false, false, &Some(time), &data);
        assert_eq!(size, encode_filetime(value));
        assert_eq!(decode_filetime(size), value);
    }
    // a count wins over a timestamp
    assert_eq!(measure_entry(false, true, &Some(FileTime::Modified), &data), 1);
}

#[test]
fn test_node_ordering_key_is_size_and_name_only() {
    let mk = |name: &str, size: u64, child_sizes: Vec<u64>| Node {
        name: PathBuf::unix(name),
        size,
        children: child_sizes
            .into_iter()
            .map(|s| Node {
                name: PathBuf::unix("c"),
                size: s,
                children: vec![],
                inode_device: None,
                depth: 1,
                is_file: true,
            })
            .collect(),
        inode_device: None,
        depth: 0,
        is_file: false,
    };

    let a = mk("same", 10, vec![1, 2, 3]);
    let b = mk("same", 10, vec![9, 9]);
    assert_eq!(a.cmp(&b), Ordering::Equal);
    assert_eq!(a, b);
    // both directions (antisymmetry of the key)
    assert_eq!(b.cmp(&a), Ordering::Equal);

    let bigger = mk("same", 11, vec![]);
    assert_eq!(a.cmp(&bigger), Ordering::Less);
    let name_later = mk("zzz", 10, vec![]);
    assert_eq!(a.cmp(&name_later), Ordering::Less);
    assert!(name_later > a);
    assert_eq!(a.clone(), a);
    assert_eq!(a.clone().children.len(), 3);
}

#[test]
fn test_filetime_encoding_preserves_order_and_sign() {
    assert_eq!(decode_filetime(encode_filetime(0)), 0);
    assert_eq!(decode_filetime(encode_filetime(i64::MIN)), i64::MIN);
    assert_eq!(decode_filetime(encode_filetime(i64::MAX)), i64::MAX);

    let pre1970 = chrono::Local
        .with_ymd_and_hms(1969, 6, 15, 0, 0, 0)
        .unwrap()
        .timestamp();
    let post1970 = 1_000_000_000;
    assert!(pre1970 < 0);
    assert!(encode_filetime(pre1970) < encode_filetime(0));
    assert!(encode_filetime(0) < encode_filetime(post1970));
    assert_eq!(decode_filetime(encode_filetime(pre1970)), pre1970);
}

#[test]
fn timestamps_are_encoded_by_their_distance_from_the_least() {
    assert_eq!(encode_filetime(i64::MIN), 0);
    assert_eq!(encode_filetime(0), 1 << 63);
    assert_eq!(encode_filetime(-1), (1 << 63) - 1);
    assert_eq!(encode_filetime(i64::MAX), u64::MAX);
}
