use zdu::display_node::{
    json_name, json_size, json_size_format, sort_greatest_first, DisplayNode, JsonSize,
    JsonSizeFormat,
};
use zdu::filter::{
    fill_remaining_lines, get_biggest, handle_duplicate_top_level_names, has_duplicates,
    in_brackets, names_have_dup, AggregateData,
};
use zdu::heap::NodeHeap;
use zdu::node::{encode_filetime, FileTime, Node};
use zdu::order::Order;
use zdu::path::{PathBuf, Platform};

fn node(name: &str, size: u64, is_file: bool) -> Node {
    Node {
        name: PathBuf::unix(name),
        size,
        children: vec![],
        inode_device: None,
        depth: 1,
        is_file,
    }
}

fn aggregate(only_dir: bool) -> AggregateData {
    AggregateData {
        min_size: None,
        only_dir,
        only_file: false,
        number_of_lines: 10,
        depth: usize::MAX,
        using_a_filter: false,
        short_paths: true,
    }
}

/// The names of a shown tree, each behind as many dots as it is deep.
fn outline(node: &DisplayNode) -> Vec<String> {
    let mut lines = vec![node.name.to_lossy()];
    for child in node.get_children_from_node(false) {
        for line in outline(child) {
            lines.push(format!(".{line}"));
        }
    }
    lines
}

fn tree() -> Node {
    let deep = |node: Node, depth: usize| Node { depth, ..node };
    let mut a = node("r/a", 60, false);
    a.children = vec![
        deep(node("r/a/x", 10, true), 2),
        deep(node("r/a/y", 50, true), 2),
    ];
    let mut b = node("r/b", 30, false);
    b.children = vec![deep(node("r/b/z", 30, true), 2)];
    let mut root = deep(node("r", 95, false), 0);
    root.children = vec![b, node("r/c", 5, true), a];
    root
}

#[test]
fn only_dir_keeps_dirs_and_links_drops_files() {
    let nodes = vec![
        node("real_dir", 30, false),
        node("a_link", 20, false), // symlink or dangling: is_file = false
        node("plain_file", 10, true),
    ];
    let root = get_biggest(nodes, &aggregate(true), None, &Vec::new());
    let names: Vec<String> = root.children.iter().map(|c| c.name.to_lossy()).collect();
    assert_eq!(names, vec!["real_dir".to_owned(), "a_link".to_owned()]);
}

#[test]
fn without_only_dir_all_entries_kept() {
    let nodes = vec![node("real_dir", 30, false), node("plain_file", 10, true)];
    let root = get_biggest(nodes, &aggregate(false), None, &Vec::new());
    assert_eq!(root.children.len(), 2);
}

#[test]
fn duplicate_top_level_names_disambiguated_by_ancestors() {
    let mut a = node("p/x/dup", 40, false);
    a.children = vec![node("p/x/dup/inner", 5, true)];
    let b = node("q/x/dup", 30, false);

    let out = handle_duplicate_top_level_names(vec![a, b], true);
    let names: Vec<String> = out.iter().map(|n| n.name.to_lossy()).collect();
    // round 1 appends the parent ("x" for both, dup remains), round 2
    // reaches the differing grandparent ("p" vs "q")
    assert_eq!(
        names,
        vec!["p/x/dup(x)(p)".to_owned(), "q/x/dup(x)(q)".to_owned()]
    );
    // subtrees ride along without being copied/rebuilt
    assert_eq!(out[0].children[0].name, PathBuf::unix("p/x/dup/inner"));
    assert_eq!(out[0].size, 40);
}

#[test]
fn no_dup_or_full_paths_leaves_names_untouched() {
    let out = handle_duplicate_top_level_names(
        vec![node("p/a", 1, false), node("q/b", 1, false)],
        true,
    );
    assert_eq!(out[0].name, PathBuf::unix("p/a"));

    let out = handle_duplicate_top_level_names(
        vec![node("p/a", 1, false), node("q/a", 1, false)],
        false,
    );
    assert_eq!(out[1].name, PathBuf::unix("q/a"));
}

#[test]
fn names_without_ancestors_stay() {
    let out = handle_duplicate_top_level_names(vec![node("a", 1, false), node("a", 1, false)], true);
    assert_eq!(out[0].name.to_lossy(), "a");
    assert!(names_have_dup(&out));
    assert!(!names_have_dup(&vec![node("p/a", 1, false)]));
    // what is not printable is escaped in the name that is added
    let bell = handle_duplicate_top_level_names(
        vec![node("\u{7}/a", 1, false), node("q/a", 1, false)],
        true,
    );
    assert_eq!(bell[0].name.to_lossy(), "\u{7}/a(\\x07)");
}

#[test]
fn the_greatest_are_shown() {
    let mut data = aggregate(false);
    let all = get_biggest(vec![tree()], &data, None, &Vec::new());
    assert_eq!(
        outline(&all),
        vec!["r", ".r/a", "..r/a/y", "..r/a/x", ".r/b", "..r/b/z", ".r/c"]
    );
    data.number_of_lines = 3;
    let some = get_biggest(vec![tree()], &data, None, &Vec::new());
    // of b and z, which measure the same, the later name is taken first, and z
    // is reached through b alone
    assert_eq!(outline(&some), vec!["r", ".r/a", "..r/a/y", ".r/b"]);
    data.number_of_lines = 0;
    let none = get_biggest(vec![tree()], &data, None, &Vec::new());
    assert_eq!(outline(&none), vec!["r"]);
    assert_eq!(none.size, 95);
}

#[test]
fn depth_and_collapsed_directories_limit_what_is_shown() {
    let mut data = aggregate(false);
    data.depth = 1;
    let flat = get_biggest(vec![tree()], &data, None, &Vec::new());
    assert_eq!(outline(&flat), vec!["r", ".r/a", ".r/b", ".r/c"]);
    data.depth = 0;
    let only_root = get_biggest(vec![tree()], &data, None, &Vec::new());
    assert_eq!(outline(&only_root), vec!["r"]);
    // several roots are shown whatever the depth
    let two = get_biggest(vec![tree(), node("s", 1, false)], &data, None, &Vec::new());
    assert_eq!(outline(&two), vec!["(total)", ".r", ".s"]);
    data.depth = usize::MAX;
    let collapsed = get_biggest(vec![tree()], &data, None, &vec![PathBuf::unix("r//a")]);
    assert_eq!(
        outline(&collapsed),
        vec!["r", ".r/a", ".r/b", "..r/b/z", ".r/c"]
    );
}

#[test]
fn files_alone_are_shown_in_one_list() {
    let mut data = aggregate(false);
    data.only_file = true;
    let files = get_biggest(vec![tree()], &data, None, &Vec::new());
    assert_eq!(
        outline(&files),
        vec!["r", ".r/a/y", ".r/b/z", ".r/a/x", ".r/c"]
    );
    data.number_of_lines = 2;
    let files = get_biggest(vec![tree()], &data, None, &Vec::new());
    assert_eq!(outline(&files), vec!["r", ".r/a/y", ".r/b/z"]);
}

#[test]
fn small_nodes_are_left_out() {
    let mut data = aggregate(false);
    data.min_size = Some(10);
    let shown = get_biggest(vec![tree()], &data, None, &Vec::new());
    assert_eq!(
        outline(&shown),
        vec!["r", ".r/a", "..r/a/y", ".r/b", "..r/b/z"]
    );
    let empty = || {
        let mut root = tree();
        root.children.push(node("r/zero", 0, false));
        root.children.push(node("r/zero_file", 0, true));
        root
    };
    let mut data = aggregate(false);
    assert_eq!(
        get_biggest(vec![empty()], &data, None, &Vec::new()).num_siblings(),
        5
    );
    data.using_a_filter = true;
    assert_eq!(
        get_biggest(vec![empty()], &data, None, &Vec::new()).num_siblings(),
        4
    );
}

#[test]
fn several_roots_add_up() {
    let nodes = || vec![node("a", 3, false), node("b", 4, false)];
    let data = aggregate(false);
    let sum = get_biggest(nodes(), &data, None, &Vec::new());
    assert_eq!(sum.size, 7);
    assert_eq!(outline(&sum), vec!["(total)", ".b", ".a"]);
    let latest = get_biggest(nodes(), &data, Some(&FileTime::Modified), &Vec::new());
    assert_eq!(latest.size, 4);
    let nothing = get_biggest(vec![], &data, None, &Vec::new());
    assert_eq!(nothing.size, 0);
    assert_eq!(outline(&nothing), vec!["(total)"]);
}

#[test]
fn the_order_of_children_does_not_show() {
    let mut turned = tree();
    turned.children.reverse();
    for child in &mut turned.children {
        child.children.reverse();
    }
    for lines in 0..8 {
        for only_file in [false, true] {
            let mut data = aggregate(false);
            data.number_of_lines = lines;
            data.only_file = only_file;
            let one = get_biggest(vec![tree()], &data, None, &Vec::new());
            let two = get_biggest(vec![turned.clone()], &data, None, &Vec::new());
            assert_eq!(outline(&one), outline(&two));
        }
    }
}

#[test]
fn lines_are_filled_from_a_heap() {
    let root = tree();
    let mut heap = NodeHeap::new();
    for child in &root.children {
        heap.push(child);
    }
    let mut data = aggregate(false);
    data.number_of_lines = 1;
    let shown = fill_remaining_lines(heap, &root, &data, &Vec::new());
    assert_eq!(outline(&shown), vec!["r", ".r/a"]);
}

#[test]
fn a_heap_gives_out_the_greatest_first() {
    let nodes: Vec<Node> = [5u64, 1, 9, 3, 9, 0, 7, 2, 8, 8]
        .iter()
        .enumerate()
        .map(|(i, size)| node(&format!("n{i}"), *size, true))
        .collect();
    let mut heap = NodeHeap::new();
    for n in &nodes {
        heap.push(n);
    }
    let mut sizes = Vec::new();
    while let Some(n) = heap.pop() {
        sizes.push((n.size, n.name.to_lossy()));
    }
    let mut sorted = sizes.clone();
    sorted.sort();
    sorted.reverse();
    assert_eq!(sizes, sorted);
    assert_eq!(sizes.len(), 10);
    assert!(heap.pop().is_none());
}

#[test]
fn shown_nodes_are_sorted_by_size_name_and_children() {
    let leaf = |name: &str, size: u64| DisplayNode {
        size,
        name: PathBuf::unix(name),
        children: vec![],
        is_file: true,
    };
    let sorted = sort_greatest_first(vec![
        leaf("a", 1),
        leaf("b", 3),
        leaf("c", 3),
        leaf("d", 2),
        leaf("e", 9),
    ]);
    let names: Vec<String> = sorted.iter().map(|n| n.name.to_lossy()).collect();
    assert_eq!(names, vec!["e", "c", "b", "d", "a"]);
    let mut parent = leaf("a", 1);
    parent.children = vec![leaf("x", 1)];
    assert_eq!(leaf("a", 1).compare(&parent), Order::Less);
    assert_eq!(parent.compare(&leaf("a", 1)), Order::Greater);
    assert_eq!(leaf("a", 1).compare(&leaf("a", 1)), Order::Same);
    assert!(sort_greatest_first(Vec::new()).is_empty());
    assert_eq!(parent.clone(), parent);
    assert_eq!(parent.clone().children.len(), 1);
    assert_ne!(parent, leaf("a", 1));
    assert!(parent > leaf("a", 1));
    assert_eq!(leaf("b", 1).cmp(&leaf("a", 2)), std::cmp::Ordering::Less);
}

#[test]
fn no_more_lines_are_shown_than_asked_for_and_no_name_twice() {
    for lines in 0..9 {
        for only_file in [false, true] {
            let mut data = aggregate(false);
            data.number_of_lines = lines;
            data.only_file = only_file;
            let mut shown = outline(&get_biggest(vec![tree()], &data, None, &Vec::new()));
            assert!(shown.len() <= lines + 1);
            let all = shown.len();
            shown.sort();
            shown.dedup();
            assert_eq!(shown.len(), all);
        }
    }
}

#[test]
fn children_are_listed_from_either_end() {
    let all = get_biggest(vec![tree()], &aggregate(false), None, &Vec::new());
    let names = |reversed: bool| -> Vec<String> {
        all.get_children_from_node(reversed)
            .iter()
            .map(|c| c.name.to_lossy())
            .collect()
    };
    assert_eq!(names(false), vec!["r/a", "r/b", "r/c"]);
    assert_eq!(names(true), vec!["r/c", "r/b", "r/a"]);
    assert_eq!(all.num_siblings(), 3);
}

#[test]
fn sizes_in_json() {
    let human = json_size_format(false, false, "si".to_owned());
    assert!(matches!(json_size_format(true, true, String::new()), JsonSizeFormat::Timestamp));
    assert!(matches!(json_size_format(false, true, String::new()), JsonSizeFormat::Count));
    match json_size(1_700_000_000, &human) {
        JsonSize::Text(text) => assert_eq!(text, "1.7G"),
        other => panic!("{other:?}"),
    }
    match json_size(17, &JsonSizeFormat::Count) {
        JsonSize::Count(count) => assert_eq!(count, 17),
        other => panic!("{other:?}"),
    }
    match json_size(encode_filetime(-5), &JsonSizeFormat::Timestamp) {
        JsonSize::Timestamp(time) => assert_eq!(time, -5),
        other => panic!("{other:?}"),
    }
}

#[test]
fn names_in_json_are_never_refused() {
    let odd = DisplayNode {
        size: 1,
        name: PathBuf::new(Platform::Unix, b"a\xff".to_vec()),
        children: vec![],
        is_file: true,
    };
    assert_eq!(json_name(&odd), "a\u{fffd}");
}

#[test]
fn texts_that_occur_twice_are_found() {
    let list = |names: &[&str]| -> Vec<String> { names.iter().map(|n| (*n).to_owned()).collect() };
    assert!(!has_duplicates(&list(&[])));
    assert!(!has_duplicates(&list(&["a", "b", "c"])));
    assert!(has_duplicates(&list(&["a", "b", "a"])));
    assert_eq!(in_brackets("dup", "x"), b"dup(x)".to_vec());
    assert_eq!(in_brackets("", ""), b"()".to_vec());
}
