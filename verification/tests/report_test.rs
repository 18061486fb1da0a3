use zdu::display::{get_number_format, get_printable_name, human_readable_number};
use zdu::path::{PathBuf, Platform};
use zdu::platform::{
    allocated_size, are_sizes_in_range, filetime_to_unix_seconds, get_block_size, get_metadata,
    get_metadata_expensive, listed_or_opened, metadata_from, UnixStat, WindowsFileInfo, WindowsStat,
};
use zdu::progress::{
    clear_line, error_report, format_indexing_str, format_preparing_str, next_spinner_step,
    progress_message, spinner_char, walk_failed, Messages, Operation, PAtomicInfo, RuntimeErrors,
};
use zdu::startup::{
    absolute_paths, aggregate_data, compile_all, depends_on_ansi_support, get_height_of_terminal,
    get_regex_value, get_width_of_terminal, ignore_file_patterns, join_all, number_of_lines,
    paths_of, read_paths_from_source, should_init_color, sort_out, split_paths, without_empty, NotUtf8,
};
use zdu::cli::Cli;
use zdu::config::Config;

#[test]
fn sizes_are_shown_in_the_greatest_unit() {
    for (size, shown) in [
        (0, "0B"),
        (1023, "1023B"),
        (1024, "1.0Ki"),
        (1075, "1.0Ki"),
        (1076, "1.1Ki"),
        (10_188, "9.9Ki"),
        (10_189, "10Ki"),
        (7_235_175, "6.9Mi"),
        (12 << 20, "12Mi"),
        (1_048_575, "1.0Mi"),
        (1 << 30, "1.0Gi"),
        (1 << 40, "1.0Ti"),
        (1 << 50, "1.0Pi"),
        (u64::MAX, "16384Pi"),
    ] {
        assert_eq!(human_readable_number(size, ""), shown);
    }
    assert_eq!(human_readable_number(999_950, "si"), "1.0M");
    assert_eq!(human_readable_number(1500, "si"), "1.5K");
    assert_eq!(human_readable_number(999, "si"), "999B");
}

#[test]
fn sizes_are_shown_in_a_given_unit() {
    assert_eq!(human_readable_number(123_456, "b"), "123456B");
    assert_eq!(human_readable_number(1536, "k"), "2Ki");
    assert_eq!(human_readable_number(1535, "kib"), "1Ki");
    assert_eq!(human_readable_number(1499, "kb"), "1K");
    assert_eq!(human_readable_number(3_000_000_000, "gb"), "3G");
}

#[test]
fn units_are_read() {
    assert_eq!(get_number_format("b"), Some((1, 'B')));
    assert_eq!(get_number_format("k"), Some((1024, 'K')));
    assert_eq!(get_number_format("kb"), Some((1000, 'K')));
    assert_eq!(get_number_format("mib"), Some((1024 * 1024, 'M')));
    assert_eq!(get_number_format("gb"), Some((1_000_000_000, 'G')));
    assert_eq!(get_number_format("t"), Some((1 << 40, 'T')));
    assert_eq!(get_number_format("pi"), Some((1 << 50, 'P')));
    assert_eq!(get_number_format(""), None);
    assert_eq!(get_number_format("si"), None);
    assert_eq!(get_number_format("K"), None);
}

#[test]
fn each_unit_is_a_thousand_of_the_one_before() {
    let size = |format: &str| get_number_format(format).unwrap().0;
    for (small, large) in [("k", "m"), ("m", "g"), ("g", "t"), ("t", "p")] {
        assert_eq!(size(small) * 1024, size(large));
        assert_eq!(
            size(&format!("{small}b")) * 1000,
            size(&format!("{large}b"))
        );
    }
}

#[test]
fn numbers_are_written_in_decimal() {
    for n in [0u64, 7, 10, 909, 1_000_000, u64::MAX] {
        assert_eq!(human_readable_number(n, "b"), format!("{n}B"));
    }
}

#[test]
fn names_are_printable() {
    let name = |text: &str, short: bool| get_printable_name(&PathBuf::unix(text), short);
    assert_eq!(name("a/b", true), "b");
    assert_eq!(name("a/b/", true), "b");
    assert_eq!(name("a/b", false), "a/b");
    assert_eq!(name("/", true), "/");
    assert_eq!(name("..", true), "..");
    assert_eq!(name("a\\b", false), "a\\\\b");
    assert_eq!(name("a/\n", true), "\\n");
    let odd = PathBuf::new(Platform::Unix, b"x/a\xff".to_vec());
    assert_eq!(get_printable_name(&odd, true), "a\u{fffd}");
}

fn stat(len: u64, blksize: u64, blocks: u64) -> UnixStat {
    UnixStat {
        len,
        ino: 3,
        dev: 4,
        mtime: 5,
        atime: 6,
        ctime: 7,
        blksize,
        blocks,
    }
}

#[test]
fn space_is_counted_in_blocks() {
    assert_eq!(get_block_size(), 512);
    assert_eq!(allocated_size(&stat(5000, 4096, 16)), 8192);
    // sparse: fewer blocks than the length
    assert_eq!(allocated_size(&stat(1 << 20, 4096, 0)), 0);
    // set aside in advance, within reason
    assert_eq!(allocated_size(&stat(1, 4096, 524_288)), 268_435_456);
    assert_eq!(
        allocated_size(&stat(1, 4096, (4096 + 4096 * 65536) / 512)),
        4096 + 4096 * 65536
    );
    // and beyond reason: the length in whole blocks
    assert_eq!(
        allocated_size(&stat(1, 4096, (4096 + 4096 * 65536) / 512 + 1)),
        4096
    );
    assert!(are_sizes_in_range(&stat(1, 4096, 1)));
    assert!(!are_sizes_in_range(&stat(1, 0, 1)));
    assert!(!are_sizes_in_range(&stat(u64::MAX, 4096, 1)));
    assert!(!are_sizes_in_range(&stat(1, 4096, u64::MAX / 512 + 1)));
}

#[test]
fn metadata_on_unix() {
    let md = stat(5000, 4096, 16);
    assert_eq!(
        get_metadata(Some(md), true),
        Some((5000, Some((3, 4)), (5, 6, 7)))
    );
    assert_eq!(
        get_metadata(Some(md), false),
        Some((8192, Some((3, 4)), (5, 6, 7)))
    );
    assert_eq!(get_metadata(None, true), None);
}

#[test]
fn times_on_windows() {
    assert_eq!(filetime_to_unix_seconds(116_444_736_000_000_000), 0);
    assert_eq!(filetime_to_unix_seconds(116_444_736_009_999_999), 0);
    assert_eq!(filetime_to_unix_seconds(116_444_736_010_000_000), 1);
    assert_eq!(filetime_to_unix_seconds(116_444_735_999_999_999), -1);
    assert_eq!(filetime_to_unix_seconds(0), -11_644_473_600);
    assert_eq!(filetime_to_unix_seconds(u64::MAX), 1_833_029_933_770);
}

fn windows_stat(attributes: u32) -> WindowsStat {
    WindowsStat {
        attributes,
        len: 1000,
        last_write_time: 116_444_736_010_000_000,
        last_access_time: 116_444_736_020_000_000,
        creation_time: 116_444_736_030_000_000,
    }
}

#[test]
fn listings_on_windows_say_enough_of_plain_files() {
    let listed = Some((1000, None, (1, 2, 3)));
    // archive, directory, normal; hidden and read-only make no difference
    for attributes in [0x20, 0x10, 0x80, 0x20 | 0x02, 0x20 | 0x01 | 0x04] {
        for apparent in [false, true] {
            assert_eq!(metadata_from(&windows_stat(attributes), apparent), listed);
        }
    }
    // a reparse point alone, or a normal file that is hidden
    for attributes in [0x400, 0x80 | 0x02, 0] {
        assert_eq!(metadata_from(&windows_stat(attributes), true), None);
    }
    // sparse files and files in the cloud: the length is known, the space is not
    for bit in [0x200, 0x8_0000, 0x10_0000, 0x4_0000, 0x40_0000, 0x1000] {
        assert_eq!(metadata_from(&windows_stat(0x20 | bit), true), listed);
        assert_eq!(metadata_from(&windows_stat(0x20 | bit), false), None);
    }
    assert_eq!(listed_or_opened(Some(windows_stat(0x20)), false, false), listed);
    assert_eq!(listed_or_opened(Some(windows_stat(0x20)), false, true), None);
    assert_eq!(listed_or_opened(None, false, false), None);
}

#[test]
fn test_sparse_file_allocated_vs_apparent_size() {
    let info = WindowsFileInfo {
        file_size: 1 << 20,
        size_on_disk: Some(65_536),
        file_index: 8,
        volume_serial_number: 9,
        last_write_time: 116_444_736_010_000_000,
        last_access_time: 116_444_736_020_000_000,
        creation_time: 116_444_736_030_000_000,
    };
    // the length is the apparent size, the space on disk is what is taken up
    assert_eq!(
        get_metadata_expensive(Some(info), true),
        Some((1 << 20, Some((8, 9)), (1, 2, 3)))
    );
    assert_eq!(
        get_metadata_expensive(Some(info), false),
        Some((65_536, Some((8, 9)), (1, 2, 3)))
    );
    let unknown = WindowsFileInfo {
        size_on_disk: None,
        ..info
    };
    assert_eq!(get_metadata_expensive(Some(unknown), false), None);
    assert_eq!(get_metadata_expensive(None, true), None);
}

#[test]
fn progress_is_shown_in_one_line() {
    let mut data = PAtomicInfo::default();
    data.clear_state(&PathBuf::unix("/t"));
    data.count_file(1000);
    data.count_file(1048);
    assert_eq!(data.num_files, 2);
    assert_eq!(
        format_indexing_str('|', &data, ""),
        "Indexing: /t 2 files, 2.0Ki ... |"
    );
    assert_eq!(
        format_preparing_str('-', &data, ""),
        "Preparing: /t 2.0Ki ... -"
    );
    assert_eq!(
        progress_message('/', &data, "b"),
        "Indexing: /t 2 files, 2048B ... /"
    );
    data.state = Operation::PREPARING;
    assert_eq!(
        progress_message('/', &data, "b"),
        "Preparing: /t 2048B ... /"
    );
    data.clear_state(&PathBuf::unix("/u"));
    assert_eq!(data.total_file_size, 0);
    assert_eq!(data.state, Operation::INDEXING);
    // counters wrap around
    data.total_file_size = u64::MAX;
    data.count_file(2);
    assert_eq!(data.total_file_size, 1);
}

#[test]
fn the_spinner_turns() {
    let mut step = 0;
    let mut chars = String::new();
    for _ in 0..5 {
        chars.push(spinner_char(step));
        step = next_spinner_step(step);
    }
    assert_eq!(chars, "-\\|/-");
    assert_eq!(clear_line("abc"), "\r   ");
    assert_eq!(clear_line(""), "\r ");
    assert_eq!(clear_line("\u{e4}"), "\r  ");
}

#[test]
fn messages_are_kept_once() {
    let mut messages = Messages::new();
    assert!(messages.is_empty());
    messages.insert("b".to_owned());
    messages.insert("a".to_owned());
    messages.insert("b".to_owned());
    assert_eq!(messages.messages(), &vec!["b".to_owned(), "a".to_owned()]);
    assert!(messages.contains("a") && !messages.contains("c"));
    assert!(!messages.is_empty());
}

#[test]
fn errors_are_reported() {
    let mut errors = RuntimeErrors::default();
    assert!(error_report(true, &errors).is_empty());
    assert!(!walk_failed(true, &errors));
    errors.no_permissions.insert("/p".to_owned());
    errors.no_permissions.insert("/q".to_owned());
    errors.unknown_error.insert("odd".to_owned());
    errors.metadata_unavailable.insert("/m".to_owned());
    assert!(!walk_failed(true, &errors));
    errors.eintr_exhausted.insert("/e".to_owned());
    assert!(walk_failed(true, &errors));
    assert!(!walk_failed(false, &errors));
    errors.not_a_directory.insert("/s".to_owned());
    errors.file_not_found.insert("/f".to_owned());
    let start = vec![
        "No such file or directory: /f",
        "Not a directory: /s",
        "Gave up listing after repeated interruptions (subtrees not counted): /e",
    ];
    let end = vec![
        "Unknown Error: odd",
        "Could not get metadata for (subtrees not counted): /m",
    ];
    let mut long = start.clone();
    long.push("Did not have permissions for directories: /p, /q");
    long.extend(end.iter());
    assert_eq!(error_report(true, &errors), long);
    let mut short = start.clone();
    short.push("Did not have permissions for all directories (add --print-errors to see errors)");
    short.extend(end.iter());
    assert_eq!(error_report(false, &errors), short);
}

#[test]
fn colors_are_chosen() {
    // forced, even where they are switched off
    assert!(should_init_color(true, true, true, false, false));
    assert!(!should_init_color(true, false, false, true, true));
    assert!(!should_init_color(false, false, true, true, true));
    assert!(!should_init_color(false, false, false, false, true));
    assert!(!should_init_color(false, false, false, true, false));
    assert!(should_init_color(false, false, false, true, true));
    assert!(depends_on_ansi_support(false, false, false, true));
    assert!(!depends_on_ansi_support(false, true, false, true));
    assert!(!depends_on_ansi_support(false, false, true, true));
}

#[test]
fn the_terminal_limits_the_lines() {
    assert_eq!(get_height_of_terminal(None), 20);
    assert_eq!(get_height_of_terminal(Some(0)), 20);
    assert_eq!(get_height_of_terminal(Some(30)), 20);
    assert_eq!(get_height_of_terminal(Some(50)), 40);
    assert_eq!(get_width_of_terminal(None), 80);
    assert_eq!(get_width_of_terminal(Some(40)), 40);
    let config = Config::default();
    let options = Cli::default();
    assert_eq!(number_of_lines(&config, &options, Some(50)), 40);
    let json = Cli {
        output_json: true,
        ..Default::default()
    };
    assert_eq!(number_of_lines(&config, &json, Some(50)), usize::MAX);
    let shallow = Cli {
        depth: Some(2),
        ..Default::default()
    };
    assert_eq!(number_of_lines(&config, &shallow, Some(50)), usize::MAX);
    let set = Cli {
        number_of_lines: Some(7),
        output_json: true,
        ..Default::default()
    };
    assert_eq!(number_of_lines(&config, &set, Some(50)), 7);
    let data = aggregate_data(&config, &shallow, Some(3), 9, 0, 1);
    assert_eq!(data.depth, 2);
    assert_eq!(data.min_size, Some(3));
    assert_eq!(data.number_of_lines, 9);
    assert!(data.using_a_filter && data.short_paths);
    assert!(!aggregate_data(&config, &shallow, None, 9, 0, 0).using_a_filter);
}

#[test]
fn patterns_of_the_command_line_have_to_be_expressions() {
    assert!(get_regex_value(None).unwrap().is_empty());
    let good = vec!["a+".to_owned(), "^b$".to_owned()];
    let regexes = get_regex_value(Some(&good)).unwrap();
    assert_eq!(regexes.len(), 2);
    assert!(regexes[0].is_match("xaax") && !regexes[1].is_match("ab"));
    let bad = vec!["a".to_owned(), "(".to_owned(), "[".to_owned()];
    let error = get_regex_value(Some(&bad)).unwrap_err();
    assert_eq!(error.pattern, "(");
    assert!(error.reason.to_string().contains("unclosed group"));
}

#[test]
fn lines_of_an_ignore_file() {
    let patterns = ignore_file_patterns(
        "a\n\n  # comment\r\n#x\n \t \n b#\r\n\u{a0}\u{1680}\u{2005}\u{2028}\u{3000}\n\\.o$",
    );
    assert_eq!(patterns, vec!["a", " b#", "\\.o$"]);
    assert!(ignore_file_patterns("").is_empty());
    let (regexes, invalid) = compile_all(&vec!["(".to_owned(), "x".to_owned()]);
    assert_eq!(regexes.len(), 1);
    assert_eq!(invalid[0].pattern, "(");
}

#[test]
fn lists_of_paths_are_read() {
    let lines = |text: &str| read_paths_from_source(&text.as_bytes().to_vec(), false).unwrap();
    let zeros = |text: &str| read_paths_from_source(&text.as_bytes().to_vec(), true).unwrap();
    assert_eq!(lines("a\nb\r\n\nc"), vec!["a", "b", "", "c"]);
    assert_eq!(lines("a\r"), vec!["a\r"]);
    assert_eq!(lines("a\n"), vec!["a"]);
    assert!(lines("").is_empty());
    assert_eq!(zeros("a\0\0b\n\0"), vec!["a", "b\n"]);
    assert!(zeros("").is_empty());
    assert_eq!(
        read_paths_from_source(&vec![0x61, 0xff], false),
        Err(NotUtf8)
    );
    assert_eq!(split_paths("x\0y", true), vec!["x", "y"]);
    assert_eq!(
        without_empty(&vec!["".to_owned(), "a".to_owned()]),
        vec!["a"]
    );
}

#[test]
fn ignored_directories_are_looked_for_below_each_root() {
    let dirs = paths_of(Platform::Unix, &vec!["r".to_owned(), "/s".to_owned()]);
    let more = paths_of(Platform::Unix, &vec!["x".to_owned(), "/abs".to_owned()]);
    let all = join_all(Platform::Unix, &dirs, &more);
    let texts: Vec<String> = all.iter().map(|p| p.to_lossy()).collect();
    assert_eq!(texts, vec!["r/x", "/s/x", "/abs", "/abs"]);
    let absolute: Vec<String> = absolute_paths(&all).iter().map(|p| p.to_lossy()).collect();
    assert_eq!(absolute, vec!["/s/x", "/abs", "/abs"]);
}

#[test]
fn what_became_of_patterns_is_sorted_out() {
    let patterns = vec!["(".to_owned(), "x".to_owned(), "[".to_owned()];
    let results = patterns.iter().map(|p| regex::Regex::new(p)).collect();
    let (regexes, invalid) = sort_out(&patterns, results);
    assert_eq!(regexes.len(), 1);
    assert_eq!(regexes[0].as_str(), "x");
    let refused: Vec<&str> = invalid.iter().map(|e| e.pattern.as_str()).collect();
    assert_eq!(refused, vec!["(", "["]);
    // each with its own reason
    for error in &invalid {
        assert_eq!(
            error.reason,
            regex::Regex::new(&error.pattern).unwrap_err()
        );
    }
    assert_ne!(invalid[0].reason, invalid[1].reason);
}

#[test]
fn halves_of_surrogate_pairs_are_shown_as_one_character() {
    let odd = PathBuf::new(Platform::Windows, b"C:\\d\\a\xed\xa0\x80".to_vec());
    assert_eq!(get_printable_name(&odd, true), "a\u{fffd}");
    assert!(get_printable_name(&odd, false).ends_with("a\u{fffd}"));
    let plain = PathBuf::new(Platform::Unix, b"d/a\xed\xa0\x80".to_vec());
    assert_eq!(get_printable_name(&plain, true), "a\u{fffd}\u{fffd}\u{fffd}");
}
