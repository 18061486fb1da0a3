use chrono::{Datelike, Local, TimeZone, Timelike};
use clap::{Arg, ArgAction, ArgMatches, Command};
use zdu::cli;
use zdu::cli::Cli;
use zdu::clock::{
    get_current_date_epoch_seconds, pick_start_of_day, start_of_date, LocalInstants,
};
use zdu::config::{
    convert_min_size, get_config_locations, get_filter_time_operator, is_usable_config_home,
    parse_min_size, Config, InvalidMinSize, TimeFilterError, DAY_SECONDS,
};
use zdu::dir_walker::Operator;
use zdu::node::FileTime;
use zdu::path::PathBuf;
use zdu::startup::{files_from_config_conflicts_with_params, path_source, PathSource};

fn number(matches: &ArgMatches, name: &str) -> Option<usize> {
    matches
        .get_one::<String>(name)
        .map(|text| text.parse::<usize>().unwrap())
}

fn parse_from(args: Vec<&str>) -> Cli {
    let matches = Command::new("zdu")
        .arg(Arg::new("params").action(ArgAction::Append))
        .arg(Arg::new("depth").long("depth"))
        .arg(Arg::new("number_of_lines").long("number-of-lines"))
        .arg(Arg::new("filetime").long("filetime"))
        .arg(
            Arg::new("output_json")
                .long("output-json")
                .action(ArgAction::SetTrue),
        )
        .get_matches_from(args);
    Cli {
        params: matches
            .get_many::<String>("params")
            .map(|values| values.cloned().collect()),
        depth: number(&matches, "depth"),
        number_of_lines: number(&matches, "number_of_lines"),
        filetime: matches
            .get_one::<String>("filetime")
            .map(|text| match text.as_str() {
                "a" | "accessed" => cli::FileTime::Accessed,
                "c" | "changed" => cli::FileTime::Changed,
                "m" | "modified" => cli::FileTime::Modified,
                other => panic!("unknown file time {other}"),
            }),
        output_json: matches.get_flag("output_json"),
        ..Default::default()
    }
}

fn get_args(args: Vec<&str>) -> Cli {
    parse_from(args)
}

fn get_filetime_args(args: Vec<&str>) -> Cli {
    parse_from(args)
}

#[test]
fn config_locations_use_xdg_config_home() {
    let home = PathBuf::unix("/home/test");
    let config_home = PathBuf::unix("/tmp/config");

    assert_eq!(
        get_config_locations(&home, Some(&config_home)),
        vec![
            home.join(&PathBuf::unix(".zdu.toml")),
            PathBuf::unix("/tmp/config/zdu/config.toml"),
        ]
    );
    assert_eq!(
        get_config_locations(&home, None),
        vec![
            home.join(&PathBuf::unix(".zdu.toml")),
            home.join(&PathBuf::unix(".config/zdu/config.toml")),
        ]
    );
}

#[test]
fn config_home_has_to_be_absolute() {
    assert!(is_usable_config_home(&PathBuf::unix("/tmp/config")));
    assert!(!is_usable_config_home(&PathBuf::unix("tmp/config")));
    assert!(!is_usable_config_home(&PathBuf::unix("")));
    assert!(is_usable_config_home(&PathBuf::windows("C:\\config")));
    assert!(!is_usable_config_home(&PathBuf::windows("\\config")));
}

#[test]
fn test_get_current_date_epoch_seconds() {
    let epoch_seconds = get_current_date_epoch_seconds();
    let dt = Local.timestamp_opt(epoch_seconds, 0).unwrap();

    assert_eq!(dt.hour(), 0);
    assert_eq!(dt.minute(), 0);
    assert_eq!(dt.second(), 0);
    assert_eq!(dt.date_naive().day(), Local::now().date_naive().day());
    assert_eq!(dt.date_naive().month(), Local::now().date_naive().month());
    assert_eq!(dt.date_naive().year(), Local::now().date_naive().year());
}

#[test]
fn a_day_starts_less_than_a_day_from_its_midnight_in_utc() {
    for (year, month, day, utc) in [
        (1970, 1, 1, 0),
        (1969, 12, 31, -86_400),
        (2001, 9, 9, 999_993_600),
    ] {
        let date = chrono::NaiveDate::from_ymd_opt(year, month, day).unwrap();
        let start = start_of_date(&date);
        assert!(utc - DAY_SECONDS < start && start < utc + DAY_SECONDS);
        let dt = Local.timestamp_opt(start, 0).unwrap();
        assert_eq!(dt.date_naive(), date);
    }
}

#[test]
fn a_day_starts_at_the_first_midnight_or_in_utc() {
    assert_eq!(pick_start_of_day(LocalInstants::Single(7), 1), 7);
    assert_eq!(pick_start_of_day(LocalInstants::Ambiguous(7, 9), 1), 7);
    assert_eq!(pick_start_of_day(LocalInstants::Skipped, 1), 1);
}

#[test]
fn test_conversion() {
    assert_eq!(convert_min_size("55"), Some(55));
    assert_eq!(convert_min_size("12344321"), Some(12_344_321));
    assert_eq!(convert_min_size("95RUBBISH"), None);
    assert_eq!(convert_min_size("10Ki"), Some(10 * 1024));
    assert_eq!(convert_min_size("10MiB"), Some(10 * 1024usize.pow(2)));
    assert_eq!(convert_min_size("10M"), Some(10 * 1024usize.pow(2)));
    assert_eq!(convert_min_size("10Mb"), Some(10 * 1000usize.pow(2)));
    assert_eq!(convert_min_size("2Gi"), Some(2 * 1024usize.pow(3)));
    // Decimals are supported; anchored so garbage is rejected wholesale
    assert_eq!(convert_min_size("1.5k"), Some(1536));
    assert_eq!(convert_min_size("1.5Ki"), Some(1536));
    assert_eq!(convert_min_size("0.5"), Some(1));
    assert_eq!(convert_min_size("1k "), None);
    assert_eq!(convert_min_size("k"), None);
    // Overflows checked, not wrapped
    assert_eq!(convert_min_size("9999999999999999999k"), None);
}

#[test]
fn sizes_at_the_edges() {
    assert_eq!(parse_min_size(""), None);
    assert_eq!(parse_min_size("1."), None);
    assert_eq!(parse_min_size(".5"), None);
    assert_eq!(parse_min_size("1.5.5"), None);
    assert_eq!(parse_min_size("+1"), None);
    assert_eq!(parse_min_size("1k1"), None);
    assert_eq!(parse_min_size("0"), Some(0));
    assert_eq!(parse_min_size("007b"), Some(7));
    assert_eq!(parse_min_size("0.4"), Some(0));
    assert_eq!(parse_min_size("0.49999"), Some(0));
    assert_eq!(parse_min_size("2.5K"), Some(2560));
    assert_eq!(parse_min_size("1P"), Some(1024usize.pow(5)));
    assert_eq!(parse_min_size("1pb"), Some(1000usize.pow(5)));
    assert_eq!(parse_min_size(&usize::MAX.to_string()), Some(usize::MAX));
    assert_eq!(parse_min_size("18446744073709551616"), None);
    assert_eq!(
        parse_min_size("340282366920938463463374607431768211456"),
        None
    );
    // 38 digits behind the point can be counted with, 39 cannot
    assert_eq!(
        parse_min_size("1.00000000000000000000000000000000000000"),
        Some(1)
    );
    assert_eq!(
        parse_min_size("1.000000000000000000000000000000000000000"),
        None
    );
}

#[test]
fn test_min_size_from_config_applied_or_overridden() {
    let c = Config {
        min_size: Some("1KiB".to_owned()),
        ..Default::default()
    };
    assert_eq!(c.get_min_size_from(None), Ok(Some(1024)));
    assert_eq!(c.get_min_size_from(Some(&"2KiB".into())), Ok(Some(2048)));

    assert_eq!(c.get_min_size_from(Some(&"1kb".into())), Ok(Some(1000)));
    assert_eq!(c.get_min_size_from(Some(&"2KB".into())), Ok(Some(2000)));
}

#[test]
fn bad_sizes_are_errors_on_the_command_line_alone() {
    let c = Config {
        min_size: Some("nonsense".to_owned()),
        ..Default::default()
    };
    assert_eq!(c.get_min_size_from(None), Ok(None));
    assert_eq!(
        c.get_min_size_from(Some(&"nonsense".into())),
        Err(InvalidMinSize)
    );
    assert_eq!(Config::default().get_min_size(&Cli::default()), Ok(None));
    let options = Cli {
        min_size: Some("3".to_owned()),
        ..Default::default()
    };
    assert_eq!(c.get_min_size(&options), Ok(Some(3)));
}

#[test]
fn test_get_depth() {
    // No config and no flag.
    let c = Config::default();
    let args = get_args(vec![]);
    assert_eq!(c.get_depth(&args), usize::MAX);

    // Config is not defined and flag is defined.
    let c = Config::default();
    let args = get_args(vec!["zdu", "--depth", "5"]);
    assert_eq!(c.get_depth(&args), 5);

    // Config is defined and flag is not defined.
    let c = Config {
        depth: Some(3),
        ..Default::default()
    };
    let args = get_args(vec![]);
    assert_eq!(c.get_depth(&args), 3);

    // Both config and flag are defined.
    let c = Config {
        depth: Some(3),
        ..Default::default()
    };
    let args = get_args(vec!["zdu", "--depth", "5"]);
    assert_eq!(c.get_depth(&args), 5);
}

#[test]
fn test_get_filetime() {
    // No config and no flag.
    let args = get_filetime_args(vec!["zdu"]);
    assert_eq!(Config::get_filetime(&args), None);

    // Config is not defined and flag is defined as access time
    let args = get_filetime_args(vec!["zdu", "--filetime", "a"]);
    assert_eq!(Config::get_filetime(&args), Some(FileTime::Accessed));

    let args = get_filetime_args(vec!["zdu", "--filetime", "accessed"]);
    assert_eq!(Config::get_filetime(&args), Some(FileTime::Accessed));

    // Config is not defined and flag is defined as modified time
    let args = get_filetime_args(vec!["zdu", "--filetime", "m"]);
    assert_eq!(Config::get_filetime(&args), Some(FileTime::Modified));

    let args = get_filetime_args(vec!["zdu", "--filetime", "modified"]);
    assert_eq!(Config::get_filetime(&args), Some(FileTime::Modified));

    // Config is not defined and flag is defined as changed time
    let args = get_filetime_args(vec!["zdu", "--filetime", "c"]);
    assert_eq!(Config::get_filetime(&args), Some(FileTime::Changed));

    let args = get_filetime_args(vec!["zdu", "--filetime", "changed"]);
    assert_eq!(Config::get_filetime(&args), Some(FileTime::Changed));
}

#[test]
fn test_get_number_of_lines() {
    // No config and no flag.
    let c = Config::default();
    let args = get_args(vec![]);
    assert_eq!(c.get_number_of_lines(&args), None);

    // Config is not defined and flag is defined.
    let c = Config::default();
    let args = get_args(vec!["zdu", "--number-of-lines", "5"]);
    assert_eq!(c.get_number_of_lines(&args), Some(5));

    // Config is defined and flag is not defined.
    let c = Config {
        number_of_lines: Some(3),
        ..Default::default()
    };
    let args = get_args(vec![]);
    assert_eq!(c.get_number_of_lines(&args), Some(3));

    // Both config and flag are defined.
    let c = Config {
        number_of_lines: Some(3),
        ..Default::default()
    };
    let args = get_args(vec!["zdu", "--number-of-lines", "5"]);
    assert_eq!(c.get_number_of_lines(&args), Some(5));
}

#[test]
fn test_get_number_of_lines_with_output_json() {
    // Json output and no number-of-lines: main defaults this to usize::MAX.
    let c = Config::default();
    let args = get_args(vec!["zdu", "--output-json"]);
    assert!(c.get_output_json(&args));
    assert_eq!(c.get_number_of_lines(&args), None);

    // Json output from config and no number-of-lines.
    let c = Config {
        output_json: Some(true),
        ..Default::default()
    };
    let args = get_args(vec![]);
    assert!(c.get_output_json(&args));
    assert_eq!(c.get_number_of_lines(&args), None);

    // An explicit number-of-lines still wins over the json default.
    let c = Config::default();
    let args = get_args(vec!["zdu", "--output-json", "--number-of-lines", "5"]);
    assert!(c.get_output_json(&args));
    assert_eq!(c.get_number_of_lines(&args), Some(5));

    // A number-of-lines from the config file also wins.
    let c = Config {
        number_of_lines: Some(3),
        ..Default::default()
    };
    let args = get_args(vec!["zdu", "--output-json"]);
    assert!(c.get_output_json(&args));
    assert_eq!(c.get_number_of_lines(&args), Some(3));
}

#[test]
fn test_files_from_config_conflicts_with_params() {
    let with_params = || parse_from(vec!["zdu", "some/dir"]);
    let without_params = || parse_from(vec!["zdu"]);

    // Either config key plus params is the silent-drop conflict
    for config in [
        Config {
            files_from: Some("list.txt".to_owned()),
            ..Default::default()
        },
        Config {
            files0_from: Some("list0.txt".to_owned()),
            ..Default::default()
        },
    ] {
        assert!(files_from_config_conflicts_with_params(
            &config,
            &with_params()
        ));
        assert!(!files_from_config_conflicts_with_params(
            &config,
            &without_params()
        ));
    }

    // No config files-from: params are simply the roots
    assert!(!files_from_config_conflicts_with_params(
        &Config::default(),
        &with_params()
    ));

    // A flag on the command line takes precedence over the configuration
    let config = Config {
        files_from: Some("list.txt".to_owned()),
        ..Default::default()
    };
    let options = Cli {
        files0_from: Some("other".to_owned()),
        ..with_params()
    };
    assert!(!files_from_config_conflicts_with_params(&config, &options));
}

#[test]
fn the_command_line_wins() {
    let config = Config {
        files0_from: Some("conf0".to_owned()),
        files_from: Some("conf".to_owned()),
        threads: Some(2),
        collapse: Some(vec!["x".to_owned()]),
        output_format: Some("GiB".to_owned()),
        ..Default::default()
    };
    let plain = Cli::default();
    assert_eq!(config.get_files0_from(&plain), Some("conf0".to_owned()));
    assert_eq!(config.get_files_from(&plain), Some("conf".to_owned()));
    assert_eq!(config.get_threads(&plain), Some(2));
    assert_eq!(config.get_collapse(&plain), Some(vec!["x".to_owned()]));
    assert_eq!(config.get_output_format(&plain), "gib");
    let options = Cli {
        files0_from: Some("cli0".to_owned()),
        files_from: Some("cli".to_owned()),
        threads: Some(8),
        collapse: Some(vec!["y".to_owned(), "z".to_owned()]),
        output_format: Some("SI".to_owned()),
        ..Default::default()
    };
    assert_eq!(config.get_files0_from(&options), Some("cli0".to_owned()));
    assert_eq!(config.get_files_from(&options), Some("cli".to_owned()));
    assert_eq!(config.get_threads(&options), Some(8));
    assert_eq!(
        config.get_collapse(&options),
        Some(vec!["y".to_owned(), "z".to_owned()])
    );
    assert_eq!(config.get_output_format(&options), "si");
    assert_eq!(Config::default().get_output_format(&plain), "");
    assert_eq!(Config::default().get_files_from(&plain), None);
}

#[test]
fn switches_are_on_where_either_side_sets_them() {
    let set = Config {
        no_colors: Some(true),
        force_colors: Some(true),
        disable_progress: Some(true),
        display_apparent_size: Some(true),
        ignore_hidden: Some(true),
        limit_filesystem: Some(true),
        display_full_paths: Some(true),
        reverse: Some(true),
        no_bars: Some(true),
        skip_total: Some(true),
        screen_reader: Some(true),
        only_dir: Some(true),
        print_errors: Some(true),
        only_file: Some(true),
        bars_on_right: Some(true),
        dim: Some(true),
        ..Default::default()
    };
    let none = Cli::default();
    let all = Cli {
        no_colors: true,
        force_colors: true,
        no_progress: true,
        apparent_size: true,
        ignore_hidden: true,
        limit_filesystem: true,
        full_paths: true,
        reverse: true,
        no_percent_bars: true,
        skip_total: true,
        screen_reader: true,
        only_dir: true,
        print_errors: true,
        only_file: true,
        bars_on_right: true,
        dim: true,
        ..Default::default()
    };
    let switches = |config: &Config, options: &Cli| {
        vec![
            config.get_no_colors(options),
            config.get_force_colors(options),
            config.get_disable_progress(options),
            config.get_apparent_size(options),
            config.get_ignore_hidden(options),
            config.get_limit_filesystem(options),
            config.get_full_paths(options),
            config.get_reverse(options),
            config.get_no_bars(options),
            config.get_skip_total(options),
            config.get_screen_reader(options),
            config.get_only_dir(options),
            config.get_print_errors(options),
            config.get_only_file(options),
            config.get_bars_on_right(options),
            config.get_dim(options),
        ]
    };
    assert_eq!(switches(&Config::default(), &none), vec![false; 16]);
    assert_eq!(switches(&set, &none), vec![true; 16]);
    assert_eq!(switches(&Config::default(), &all), vec![true; 16]);
    let off = Config {
        dim: Some(false),
        ..Default::default()
    };
    assert!(!off.get_dim(&none));
    assert!(off.get_dim(&all));
}

#[test]
fn time_filters_count_back_from_today() {
    let today = 1_000_000_000;
    let read = |text: &str| get_filter_time_operator(Some(&text.to_owned()), today);
    assert_eq!(get_filter_time_operator(None, today), Ok(None));
    assert_eq!(
        read("+3"),
        Ok(Some((Operator::LessThan, today - 4 * DAY_SECONDS)))
    );
    assert_eq!(
        read("-3"),
        Ok(Some((Operator::GreaterThan, today - 3 * DAY_SECONDS)))
    );
    assert_eq!(
        read("3"),
        Ok(Some((Operator::Equal, today - 4 * DAY_SECONDS)))
    );
    assert_eq!(read("0"), Ok(Some((Operator::Equal, today - DAY_SECONDS))));
    for bad in ["", "+", "-", "3 ", "x", "3.0", "--3", "9223372036854775808"] {
        assert_eq!(read(bad), Err(TimeFilterError::Invalid), "{bad}");
    }
    assert_eq!(
        read("9223372036854775807"),
        Err(TimeFilterError::OutOfRange)
    );
    assert_eq!(
        read("-9223372036854775808"),
        Err(TimeFilterError::OutOfRange)
    );
    assert_eq!(
        read("-9223372036854775809"),
        Err(TimeFilterError::Invalid)
    );
    assert_eq!(
        get_filter_time_operator(Some(&"0".to_owned()), i64::MIN),
        Err(TimeFilterError::OutOfRange)
    );
}

#[test]
fn time_filters_of_the_command_line() {
    let options = Cli {
        mtime: Some("+0".to_owned()),
        atime: Some("bad".to_owned()),
        ..Default::default()
    };
    let today = get_current_date_epoch_seconds();
    match Config::get_modified_time_operator(&options) {
        Ok(Some((Operator::LessThan, bound))) => {
            // the day may change between the two calls
            assert!(bound == today - DAY_SECONDS || bound > today - DAY_SECONDS);
        },
        other => panic!("{other:?}"),
    }
    assert_eq!(
        Config::get_accessed_time_operator(&options),
        Err(TimeFilterError::Invalid)
    );
    assert_eq!(Config::get_changed_time_operator(&options), Ok(None));
}

#[test]
fn paths_come_from_a_file_before_the_arguments() {
    let options = parse_from(vec!["zdu", "a", "b"]);
    match path_source(&Config::default(), &options) {
        PathSource::Arguments(paths) => {
            assert_eq!(paths, vec!["a".to_owned(), "b".to_owned()]);
        },
        other => panic!("{other:?}"),
    }
    match path_source(&Config::default(), &Cli::default()) {
        PathSource::Arguments(paths) => assert_eq!(paths, vec![".".to_owned()]),
        other => panic!("{other:?}"),
    }
    let config = Config {
        files0_from: Some("zero".to_owned()),
        files_from: Some("lines".to_owned()),
        ..Default::default()
    };
    match path_source(&config, &Cli::default()) {
        PathSource::NullTerminated(file) => assert_eq!(file, "zero"),
        other => panic!("{other:?}"),
    }
    let config = Config {
        files_from: Some("lines".to_owned()),
        ..Default::default()
    };
    match path_source(&config, &Cli::default()) {
        PathSource::Lines(file) => assert_eq!(file, "lines"),
        other => panic!("{other:?}"),
    }
}
