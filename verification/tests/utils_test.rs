use regex::Regex;
use zdu::dir_walker::Operator;
use zdu::order::Order;
use zdu::path::{PathBuf, Platform};
use zdu::utils::{
    canonicalize_absolute_path, filters_leave_out, get_filesystem_devices,
    is_a_parent_of, is_filtered_out_due_to_file_time, is_filtered_out_due_to_invert_regex,
    is_filtered_out_due_to_regex, normalize_path, path_equivalent, path_set_contains,
    path_starts_with, simplify_dir_names,
};

fn unix(text: &str) -> PathBuf {
    PathBuf::unix(text)
}

fn windows(text: &str) -> PathBuf {
    PathBuf::windows(text)
}

fn text_of(path: &PathBuf) -> String {
    path.to_lossy()
}

fn simplified(dirs: &[&str]) -> Vec<String> {
    let paths: Vec<PathBuf> = dirs.iter().map(|d| unix(d)).collect();
    let mut names: Vec<String> = simplify_dir_names(&paths).iter().map(text_of).collect();
    names.sort();
    names
}

fn simplified_on_windows(dirs: &[&str]) -> Vec<PathBuf> {
    let paths: Vec<PathBuf> = dirs.iter().map(|d| windows(d)).collect();
    simplify_dir_names(&paths)
}

fn parent_of(parent: &str, child: &str) -> bool {
    is_a_parent_of(&unix(parent), &unix(child))
}

#[test]
fn test_simplify_dir() {
    assert_eq!(simplified(&["a"]), vec!["a"]);
}

#[test]
fn test_simplify_dir_rm_subdir() {
    assert_eq!(simplified(&["a/b/c", "a/b", "a/b/d/f"]), vec!["a/b"]);
    assert_eq!(simplified(&["a/b", "a/b/c", "a/b/d/f"]), vec!["a/b"]);
}

#[test]
fn test_simplify_dir_duplicates() {
    assert_eq!(
        simplified(&[
            "a/b",
            "a/b//",
            "a/././b///",
            "c",
            "c/",
            "c/.",
            "c/././",
            "c/././."
        ]),
        vec!["a/b", "c"]
    );
}

#[test]
fn test_simplify_dir_rm_subdir_and_not_substrings() {
    assert_eq!(
        simplified(&["a/b", "c/a/b/", "b"]),
        vec!["a/b", "b", "c/a/b"]
    );
}

#[test]
fn test_simplify_dir_dots() {
    assert_eq!(simplified(&["src/."]), vec!["src"]);
}

#[test]
fn test_simplify_dir_substring_names() {
    assert_eq!(simplified(&["src/", "src_v2"]), vec!["src", "src_v2"]);
}

#[test]
fn simplified_dirs_stay_in_their_order() {
    let paths: Vec<PathBuf> = ["z/1", "a", "z", "m"].iter().map(|d| unix(d)).collect();
    let names: Vec<String> = simplify_dir_names(&paths).iter().map(text_of).collect();
    assert_eq!(names, vec!["a", "z", "m"]);
    assert!(simplify_dir_names(&Vec::new()).is_empty());
}

#[test]
fn simplified_dirs_cover_all_and_hold_no_two_of_one_tree() {
    let dirs = ["x/y", "x", "./x/z", "q//r", "q/r/s", "x/y/../w", "."];
    let paths: Vec<PathBuf> = dirs.iter().map(|d| unix(d)).collect();
    let tops = simplify_dir_names(&paths);
    for path in &paths {
        assert!(
            tops.iter()
                .any(|top| path_starts_with(top, &normalize_path(path)))
        );
    }
    for (i, a) in tops.iter().enumerate() {
        for (j, b) in tops.iter().enumerate() {
            assert!(i == j || !path_starts_with(a, b));
        }
    }
}

#[test]
fn test_is_a_parent_of() {
    assert!(parent_of("/usr", "/usr/andy"));
    assert!(parent_of("/usr", "/usr/andy/i/am/descendant"));
    assert!(!parent_of("/usr", "/usr/."));
    assert!(!parent_of("/usr", "/usr/"));
    assert!(!parent_of("/usr", "/usr"));
    assert!(!parent_of("/usr/", "/usr"));
    assert!(!parent_of("/usr/andy", "/usr"));
    assert!(!parent_of("/usr/andy", "/usr/sibling"));
    assert!(!parent_of("/usr/folder", "/usr/folder_not_a_child"));
}

#[test]
fn test_is_a_parent_of_root() {
    assert!(parent_of("/", "/usr/andy"));
    assert!(parent_of("/", "/usr"));
    assert!(!parent_of("/", "/"));
}

#[test]
fn test_is_a_parent_of_case_insensitive() {
    assert!(is_a_parent_of(&windows("C:/Temp"), &windows("c:/TEMP/x")));
    assert!(is_a_parent_of(&windows("c:/temp/x"), &windows("C:/Temp/X/Y")));
    assert!(!is_a_parent_of(&windows("C:/Temp"), &windows("c:/temp")));
    assert!(!is_a_parent_of(&windows("C:/Temp"), &windows("c:/temp_other")));
}

#[test]
fn test_simplify_dir_case_variants() {
    // equal up to case: first spelling wins
    let correct = vec![normalize_path(&windows("C:/Temp/x"))];
    assert_eq!(
        simplified_on_windows(&["C:/Temp/x", "c:/temp/x"]),
        correct
    );
    // case-variant parent subsumes the child spelling (parent wins, as
    // with the exact-case "a/b" + "a" case on Unix)
    let correct = vec![normalize_path(&windows("c:/temp/x"))];
    assert_eq!(
        simplified_on_windows(&["C:/Temp/x/sub", "c:/temp/x"]),
        correct
    );
}

#[test]
fn test_case_variant_roots_counted_once() {
    let lower = "C:\\temp\\root";
    let upper = lower.to_uppercase();
    assert_ne!(lower, upper);
    assert_eq!(simplified_on_windows(&[lower, upper.as_str()]).len(), 1);
}

#[test]
fn case_matters_on_unix_alone() {
    assert!(!path_equivalent(&unix("/tmp/A"), &unix("/tmp/a")));
    assert!(path_equivalent(&windows("C:/tmp/A"), &windows("c:\\TMP\\a")));
    // folding is for ASCII letters only
    assert!(!path_equivalent(&windows("C:/\u{c4}"), &windows("C:/\u{e4}")));
}

#[test]
fn names_that_are_not_utf8_are_compared_by_what_is_shown_of_them() {
    let bad = |bytes: &[u8]| PathBuf::new(Platform::Windows, bytes.to_vec());
    assert!(path_equivalent(&bad(b"C:/a\xff"), &bad(b"c:/A\xfe")));
    assert!(!path_equivalent(&bad(b"C:/a\xff"), &bad(b"C:/ax")));
    let exact = |bytes: &[u8]| PathBuf::new(Platform::Unix, bytes.to_vec());
    assert!(!path_equivalent(&exact(b"/a\xff"), &exact(b"/a\xfe")));
}

#[test]
fn paths_are_normalized() {
    for (path, normal) in [
        ("a//b///c/", "a/b/c"),
        ("./a/./b/.", "./a/b"),
        ("/a/../b", "/a/../b"),
        ("//a", "/a"),
        ("/", "/"),
        ("", ""),
        (".", "."),
        ("a/..", "a/.."),
    ] {
        assert_eq!(text_of(&normalize_path(&unix(path))), normal, "{path}");
    }
    for (path, normal) in [
        ("C:/Temp//x/", "C:\\Temp\\x"),
        ("c:temp/x", "c:temp\\x"),
        ("//server/share/a/./b", "//server/share\\a\\b"),
        ("\\\\?\\C:\\a\\.\\b\\..\\c", "\\\\?\\C:\\a\\c"),
        ("\\windows/x", "\\windows\\x"),
        // a name that reads as a path takes the place of what stands before it
        ("foo\\C:", "C:"),
        ("foo\\C:bar\\x", "C:bar\\x"),
        ("\\\\?\\C:\\a/b", "\\\\?\\C:\\a\\b"),
        ("//server//share", "\\server\\share"),
        (".//a/./b/", ".\\a\\b"),
        ("C:./a", "C:a"),
    ] {
        assert_eq!(text_of(&normalize_path(&windows(path))), normal, "{path}");
    }
}

#[test]
fn a_normal_form_is_its_own_normal_form() {
    for path in ["a//b/./c/", "/x/../y//", "././.", "", "/", "a/b"] {
        let once = normalize_path(&unix(path));
        assert_eq!(once, unix(path));
        assert_eq!(text_of(&normalize_path(&once)), text_of(&once));
    }
}

#[test]
fn normal_forms_on_windows_are_tidy_spellings_of_the_same_path() {
    for path in [
        "C:/a//b/./c/",
        "C:a/..",
        "//server/share//x/",
        "\\\\.\\COM1\\\\y",
        "\\\\?\\C:\\\\x\\",
        "\\\\?\\UNC\\s\\t\\\\u",
        "\\x//y",
        "./x",
        "",
    ] {
        let once = normalize_path(&windows(path));
        assert_eq!(once, windows(path), "{path}");
        assert_eq!(text_of(&normalize_path(&once)), text_of(&once));
        assert!(!text_of(&once).ends_with("\\") || text_of(&once).len() <= 3);
    }
}

#[test]
fn paths_are_joined() {
    for (base, other, result) in [
        ("a", "b", "a/b"),
        ("a/", "b/c", "a/b/c"),
        ("", "b", "b"),
        ("a", "/b", "/b"),
        ("a", "", "a/"),
        ("/", "x", "/x"),
    ] {
        assert_eq!(text_of(&unix(base).join(&unix(other))), result);
    }
    for (base, other, result) in [
        ("C:\\a", "b", "C:\\a\\b"),
        ("C:", "b", "C:b"),
        ("C:\\a", "D:b", "D:b"),
        ("C:\\a", "\\b", "C:\\b"),
        ("C:\\a", "C:\\b", "C:\\b"),
        ("\\\\?\\C:\\a", "..\\.\\b/c", "\\\\?\\C:\\b\\c"),
        ("\\\\?\\C:\\a\\b", "\\c", "\\\\?\\C:\\c"),
    ] {
        assert_eq!(text_of(&windows(base).join(&windows(other))), result);
    }
}

#[test]
fn paths_are_ordered_by_their_components() {
    assert_eq!(unix("a/b").compare(&unix("a//b/")), Order::Same);
    assert_eq!(unix("a").compare(&unix("a/b")), Order::Less);
    assert_eq!(unix("a-b").compare(&unix("a/b")), Order::Greater);
    assert_eq!(unix("/a").compare(&unix("a")), Order::Less);
    assert_eq!(unix("b").compare(&unix("a/z")), Order::Greater);
}

#[test]
fn volumes_are_told_apart_by_what_they_are() {
    assert_eq!(windows("c:\\x"), windows("C:/x"));
    assert_eq!(windows("\\\\?\\c:\\x"), windows("\\\\?\\C:\\x"));
    assert_eq!(windows("//server/share/x"), windows("\\\\server\\share\\x"));
    assert_ne!(windows("\\\\Server\\share"), windows("\\\\server\\share"));
    assert_ne!(windows("C:x"), windows("C:\\x"));
    assert_eq!(windows("c:\\x").compare(&windows("D:\\x")), Order::Less);
    // verbatim paths, devices and shares come before drives
    assert_eq!(
        windows("\\\\server\\share").compare(&windows("A:\\")),
        Order::Less
    );
    assert_eq!(
        windows("\\\\?\\UNC\\s\\t").compare(&windows("\\\\?\\C:")),
        Order::Less
    );
    assert_eq!(
        windows("\\\\a\\b").compare(&windows("\\\\a!\\b")),
        Order::Less
    );
}

#[test]
fn absolute_paths_are_told() {
    assert!(unix("/a").is_absolute());
    assert!(!unix("a/b").is_absolute());
    assert!(windows("C:\\a").is_absolute());
    assert!(!windows("C:a").is_absolute());
    assert!(!windows("\\a").is_absolute());
    assert!(windows("\\\\server\\share").is_absolute());
    assert!(windows("\\\\?\\C:").is_absolute());
}

#[test]
fn lying_inside_is_an_order() {
    let paths = ["/", "/a", "/a/b", "/a/b/c", "/x"];
    for a in paths {
        assert!(path_starts_with(&unix(a), &unix(a)));
        for b in paths {
            for c in paths {
                if path_starts_with(&unix(a), &unix(b)) && path_starts_with(&unix(b), &unix(c)) {
                    assert!(path_starts_with(&unix(a), &unix(c)));
                }
            }
        }
    }
}

#[test]
fn sets_of_paths_are_searched_by_place() {
    let set = vec![unix("a/b"), unix("c")];
    assert!(path_set_contains(&set, &unix("a//b/")));
    assert!(!path_set_contains(&set, &unix("a")));
    assert!(!path_set_contains(&Vec::new(), &unix("a")));
    let set = vec![windows("C:\\Dir")];
    assert!(path_set_contains(&set, &windows("c:/DIR")));
}

#[test]
fn times_are_held_against_bounds() {
    let equal = (Operator::Equal, 1000);
    assert!(is_filtered_out_due_to_file_time(Some(&equal), 999));
    assert!(!is_filtered_out_due_to_file_time(Some(&equal), 1000));
    assert!(!is_filtered_out_due_to_file_time(Some(&equal), 87_399));
    assert!(is_filtered_out_due_to_file_time(Some(&equal), 87_400));
    let later = (Operator::GreaterThan, 1000);
    assert!(is_filtered_out_due_to_file_time(Some(&later), 999));
    assert!(!is_filtered_out_due_to_file_time(Some(&later), 1000));
    let earlier = (Operator::LessThan, 1000);
    assert!(!is_filtered_out_due_to_file_time(Some(&earlier), 1000));
    assert!(is_filtered_out_due_to_file_time(Some(&earlier), 1001));
    assert!(!is_filtered_out_due_to_file_time(None, 5));
}

#[test]
fn expressions_filter_paths() {
    let regexes = [Regex::new("\\.rs$").unwrap(), Regex::new("^/etc").unwrap()];
    assert!(!is_filtered_out_due_to_regex(&regexes, &unix("src/main.rs")));
    assert!(!is_filtered_out_due_to_regex(&regexes, &unix("/etc/x")));
    assert!(is_filtered_out_due_to_regex(&regexes, &unix("src/main.c")));
    assert!(!is_filtered_out_due_to_regex(&[], &unix("src/main.c")));
    assert!(is_filtered_out_due_to_invert_regex(&regexes, &unix("a.rs")));
    assert!(!is_filtered_out_due_to_invert_regex(&regexes, &unix("a.c")));
    assert!(!is_filtered_out_due_to_invert_regex(&[], &unix("a.rs")));
    // what is not UTF-8 is matched as the replacement character
    let odd = [Regex::new("^a\u{fffd}b$").unwrap()];
    let path = PathBuf::new(Platform::Unix, b"a\xffb".to_vec());
    assert!(is_filtered_out_due_to_invert_regex(&odd, &path));
}

#[test]
fn answers_of_filters() {
    assert!(!filters_leave_out(&vec![]));
    assert!(filters_leave_out(&vec![false, false]));
    assert!(!filters_leave_out(&vec![false, true]));
}

#[test]
fn devices_of_arguments() {
    let targets = vec![
        Some((1, Some((10, 7)), (0, 0, 0))),
        None,
        Some((1, None, (0, 0, 0))),
        Some((1, Some((11, 7)), (0, 0, 0))),
        Some((1, Some((10, 9)), (0, 0, 0))),
    ];
    let devices = get_filesystem_devices(&targets);
    assert_eq!(devices.len(), 2);
    assert!(devices.contains(&7) && devices.contains(&9));
}

#[test]
fn relative_paths_are_not_resolved() {
    let resolved = || Some(unix("/real"));
    assert_eq!(canonicalize_absolute_path(unix("a"), resolved()), unix("a"));
    assert_eq!(
        canonicalize_absolute_path(unix("/a"), resolved()),
        unix("/real")
    );
    assert_eq!(canonicalize_absolute_path(unix("/a"), None), unix("/a"));
}

#[test]
fn halves_of_surrogate_pairs_are_replaced_on_windows() {
    let named = |platform: Platform, bytes: &[u8]| PathBuf::new(platform, bytes.to_vec());
    let odd = named(Platform::Windows, b"C:\\a\xed\xa0\x80b\xed\xbf\xbf");
    // one U+FFFD for each half
    assert_eq!(odd.to_lossy(), "C:\\a\u{fffd}b\u{fffd}");
    assert_eq!(odd.to_lossy().chars().count(), 7);
    // on Unix these are bytes, and none of them is text
    let plain = named(Platform::Unix, b"a\xed\xa0\x80b");
    assert_eq!(plain.to_lossy(), "a\u{fffd}\u{fffd}\u{fffd}b");
    // what lies below and above the halves, and what is cut off, is left alone
    let near = named(Platform::Windows, b"\xed\x9f\xbf\xee\x80\x80");
    assert_eq!(near.to_lossy(), "\u{d7ff}\u{e000}");
    assert_eq!(named(Platform::Windows, b"a\xed\xa0").to_lossy().chars().next(), Some('a'));
    assert_eq!(named(Platform::Windows, b"").to_lossy(), "");
    // a regular expression sees the text
    let whole = [Regex::new("^C:.a\u{fffd}b\u{fffd}$").unwrap()];
    assert!(!is_filtered_out_due_to_regex(&whole, &odd));
    assert!(is_filtered_out_due_to_invert_regex(&whole, &odd));
    // names are compared by their text
    let other = named(Platform::Windows, b"c:\\A\xed\xb0\x80B\xef\xbf\xbd");
    assert!(path_equivalent(&odd, &other));
    let three = named(Platform::Windows, b"C:\\a\xef\xbf\xbd\xef\xbf\xbd\xef\xbf\xbdb\xef\xbf\xbd");
    assert!(!path_equivalent(&odd, &three));
}
