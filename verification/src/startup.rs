//! What the program decides before it walks: what to walk, what to leave out,
//! and how much to show.

use vstd::prelude::*;
use vstd::utf8::{encode_utf8, valid_utf8};

use crate::cli::Cli;
use crate::config::{copy_strings, first_given, maybe_text, maybe_texts, Config};
use crate::filter::AggregateData;
use crate::lists::reverse;
use crate::path::{is_absolute_path, PathBuf, PathView, Platform};
use crate::path_join::joined;
use crate::pattern::{compile, compiled};
use crate::text::{
    find_visible, first_visible, from_utf8, is_empty, split_at_char, split_lines, split_text,
    string_views, text_lines,
};
use crate::utils::path_views;

verus! {

// --------------------------------------------------------------------------
// Terminal
// --------------------------------------------------------------------------

/// The number of lines that a terminal is taken to have at least.
pub const DEFAULT_NUMBER_OF_LINES: usize = 30;

/// The width of a terminal that does not tell.
pub const DEFAULT_TERMINAL_WIDTH: usize = 80;

/// Colors are used, if the terminal can show them.
pub open spec fn wants_color(
    no_color: bool,
    force_color: bool,
    no_color_is_set: bool,
    in_terminal: bool,
) -> bool {
    force_color || (!no_color && !no_color_is_set && in_terminal)
}

/// Tells whether colors are used. `no_color_is_set` stands for the variable of
/// that name, and `ansi_supported` for a terminal that can show colors, which
/// does not matter where they are forced.
pub fn should_init_color(
    no_color: bool,
    force_color: bool,
    no_color_is_set: bool,
    in_terminal: bool,
    ansi_supported: bool,
) -> (r: bool)
    ensures
        r == (force_color || (wants_color(no_color, force_color, no_color_is_set, in_terminal)
            && ansi_supported)),
{
    if force_color {
        return true;
    }
    if no_color {
        return false;
    }
    if no_color_is_set {
        return false;
    }
    if !in_terminal {
        return false;
    }
    ansi_supported
}

/// Tells whether the terminal has to be asked for colors.
pub fn depends_on_ansi_support(
    no_color: bool,
    force_color: bool,
    no_color_is_set: bool,
    in_terminal: bool,
) -> (r: bool)
    ensures
        r == (!force_color && wants_color(no_color, force_color, no_color_is_set, in_terminal)),
{
    !force_color && !no_color && !no_color_is_set && in_terminal
}

/// The number of lines for the tree: ten less than the terminal has.
pub fn get_height_of_terminal(height: Option<u16>) -> (r: usize)
    ensures
        r == (match height {
            Some(h) => if h > DEFAULT_NUMBER_OF_LINES {
                h - 10
            } else {
                DEFAULT_NUMBER_OF_LINES - 10
            },
            None => DEFAULT_NUMBER_OF_LINES - 10,
        }),
{
    let lines = match height {
        Some(h) => if h as usize > DEFAULT_NUMBER_OF_LINES {
            h as usize
        } else {
            DEFAULT_NUMBER_OF_LINES
        },
        None => DEFAULT_NUMBER_OF_LINES,
    };
    lines - 10
}

/// The width of the terminal.
pub fn get_width_of_terminal(width: Option<u16>) -> (r: usize)
    ensures
        r == (match width {
            Some(w) => w as usize,
            None => DEFAULT_TERMINAL_WIDTH,
        }),
{
    match width {
        Some(w) => w as usize,
        None => DEFAULT_TERMINAL_WIDTH,
    }
}

/// The number of lines that are shown: what was set, everything where the depth
/// is limited or the output is JSON, and otherwise what fits on the terminal.
pub fn number_of_lines(config: &Config, options: &Cli, height: Option<u16>) -> (r: usize)
    ensures
        r == (match first_given(options.number_of_lines, config.number_of_lines) {
            Some(lines) => lines,
            None => {
                let depth = match first_given(options.depth, config.depth) {
                    Some(depth) => depth,
                    None => usize::MAX,
                };
                if depth != usize::MAX || config.output_json == Some(true) || options.output_json {
                    usize::MAX
                } else {
                    match height {
                        Some(h) => if h > 30 {
                            (h - 10) as usize
                        } else {
                            20
                        },
                        None => 20,
                    }
                }
            },
        }),
{
    match config.get_number_of_lines(options) {
        Some(lines) => lines,
        None => {
            let depth = config.get_depth(options);
            if depth != usize::MAX || config.get_output_json(options) {
                usize::MAX
            } else {
                get_height_of_terminal(height)
            }
        },
    }
}

/// What is shown, by the settings.
pub fn aggregate_data(
    config: &Config,
    options: &Cli,
    min_size: Option<usize>,
    number_of_lines: usize,
    filters: usize,
    inverted_filters: usize,
) -> (r: AggregateData)
    ensures
        r.min_size == min_size,
        r.only_dir == (config.only_dir == Some(true) || options.only_dir),
        r.only_file == (config.only_file == Some(true) || options.only_file),
        r.number_of_lines == number_of_lines,
        r.depth == (match first_given(options.depth, config.depth) {
            Some(depth) => depth,
            None => usize::MAX,
        }),
        r.using_a_filter == (filters > 0 || inverted_filters > 0),
        r.short_paths == !(config.display_full_paths == Some(true) || options.full_paths),
{
    AggregateData {
        min_size,
        only_dir: config.get_only_dir(options),
        only_file: config.get_only_file(options),
        number_of_lines,
        depth: config.get_depth(options),
        using_a_filter: filters > 0 || inverted_filters > 0,
        short_paths: !config.get_full_paths(options),
    }
}

// --------------------------------------------------------------------------
// Expressions
// --------------------------------------------------------------------------

/// A pattern that is no regular expression, and why.
#[derive(Debug)]
pub struct InvalidRegex {
    pub pattern: String,
    pub reason: regex::Error,
}

/// The expressions among what became of patterns.
pub open spec fn accepted(results: Seq<Result<regex::Regex, regex::Error>>) -> Seq<regex::Regex>
    decreases results.len(),
{
    if results.len() == 0 {
        Seq::empty()
    } else {
        let before = accepted(results.drop_last());
        match results.last() {
            Ok(regex) => before.push(regex),
            Err(_) => before,
        }
    }
}

/// The patterns that became no expressions, each with the reason.
pub open spec fn rejected(
    patterns: Seq<Seq<char>>,
    results: Seq<Result<regex::Regex, regex::Error>>,
) -> Seq<(Seq<char>, regex::Error)>
    decreases patterns.len(),
{
    if patterns.len() == 0 {
        Seq::empty()
    } else {
        let before = rejected(patterns.drop_last(), results.drop_last());
        match results.last() {
            Ok(_) => before,
            Err(reason) => before.push((patterns.last(), reason)),
        }
    }
}

/// What patterns are compiled to.
pub open spec fn compiled_all(patterns: Seq<Seq<char>>) -> Seq<Result<regex::Regex, regex::Error>> {
    patterns.map_values(|pattern: Seq<char>| compiled(pattern))
}

/// Every pattern is a regular expression.
pub open spec fn all_compile(patterns: Seq<Seq<char>>) -> bool {
    forall|i: int| 0 <= i < patterns.len() ==> compiled(#[trigger] patterns[i]) is Ok
}

/// Patterns that were refused, each with the reason.
pub open spec fn refused(invalid: Seq<InvalidRegex>) -> Seq<(Seq<char>, regex::Error)> {
    invalid.map_values(|e: InvalidRegex| (e.pattern@, e.reason))
}

/// Sorts out what became of patterns: the expressions, and the patterns that are
/// none, each with the reason.
pub fn sort_out(
    patterns: &Vec<String>,
    results: Vec<Result<regex::Regex, regex::Error>>,
) -> (r: (Vec<regex::Regex>, Vec<InvalidRegex>))
    requires
        patterns.len() == results.len(),
    ensures
        r.0@ == accepted(results@),
        refused(r.1@) == rejected(string_views(patterns@), results@),
{
    let ghost views = string_views(patterns@);
    let ghost all = results@;
    let mut rest = results;
    reverse(&mut rest);
    let mut regexes: Vec<regex::Regex> = Vec::new();
    let mut invalid: Vec<InvalidRegex> = Vec::new();
    let mut i: usize = 0;
    proof {
        assert(all.take(0) =~= Seq::empty());
        assert(views.take(0) =~= Seq::empty());
        assert(refused(invalid@) =~= Seq::empty());
    }
    while i < patterns.len()
        invariant
            i <= patterns.len(),
            views == string_views(patterns@),
            all.len() == patterns.len(),
            rest.len() == patterns.len() - i,
            forall|j: int| 0 <= j < rest.len() ==> #[trigger] rest@[j] == all[all.len() - 1 - j],
            regexes@ == accepted(all.take(i as int)),
            refused(invalid@) == rejected(views.take(i as int), all.take(i as int)),
        decreases patterns.len() - i,
    {
        let ghost before = refused(invalid@);
        proof {
            assert(views.take(i + 1).drop_last() =~= views.take(i as int));
            assert(views.take(i + 1).last() == patterns@[i as int]@);
            assert(all.take(i + 1).drop_last() =~= all.take(i as int));
            assert(rest@[rest.len() - 1] == all[i as int]);
        }
        match rest.pop() {
            Some(Ok(regex)) => {
                regexes.push(regex);
            },
            Some(Err(reason)) => {
                let e = InvalidRegex { pattern: patterns[i].clone(), reason };
                invalid.push(e);
                assert(refused(invalid@) =~= before.push((e.pattern@, e.reason)));
            },
            None => {},
        }
        i += 1;
    }
    assert(views.take(patterns.len() as int) =~= views);
    assert(all.take(patterns.len() as int) =~= all);
    (regexes, invalid)
}

/// Compiles patterns, and tells which of them are no regular expressions, and
/// why.
pub fn compile_all(patterns: &Vec<String>) -> (r: (Vec<regex::Regex>, Vec<InvalidRegex>))
    ensures
        r.0@ == accepted(compiled_all(string_views(patterns@))),
        refused(r.1@) == rejected(
            string_views(patterns@),
            compiled_all(string_views(patterns@)),
        ),
{
    let mut results: Vec<Result<regex::Regex, regex::Error>> = Vec::with_capacity(patterns.len());
    let mut i: usize = 0;
    while i < patterns.len()
        invariant
            i <= patterns.len(),
            results.len() == i,
            forall|j: int| 0 <= j < i ==> #[trigger] results@[j] == compiled(patterns@[j]@),
        decreases patterns.len() - i,
    {
        results.push(compile(patterns[i].as_str()));
        i += 1;
    }
    assert(results@ =~= compiled_all(string_views(patterns@)));
    sort_out(patterns, results)
}

/// Compiles the patterns of a command line. The first that is no regular
/// expression is an error.
pub fn get_regex_value(maybe_value: Option<&Vec<String>>) -> (r: Result<
    Vec<regex::Regex>,
    InvalidRegex,
>)
    ensures
        match maybe_value {
            None => r matches Ok(regexes) && regexes.len() == 0,
            Some(patterns) => {
                let views = string_views(patterns@);
                match r {
                    Ok(regexes) => all_compile(views) && regexes@ == accepted(compiled_all(views)),
                    Err(e) => {
                        &&& !all_compile(views)
                        &&& (e.pattern@, e.reason) == rejected(views, compiled_all(views))[0]
                        &&& compiled(e.pattern@) == Err::<regex::Regex, regex::Error>(e.reason)
                    },
                }
            },
        },
{
    let patterns = match maybe_value {
        None => {
            return Ok(Vec::new());
        },
        Some(patterns) => patterns,
    };
    let ghost views = string_views(patterns@);
    let (regexes, invalid) = compile_all(patterns);
    let mut rest = invalid;
    proof {
        assert(refused(rest@).len() == rest.len());
        lemma_rejected(views);
    }
    if rest.len() > 0 {
        let first = rest.swap_remove(0);
        assert(refused(invalid@)[0] == (first.pattern@, first.reason));
        return Err(first);
    }
    Ok(regexes)
}

proof fn lemma_rejected(patterns: Seq<Seq<char>>)
    ensures
        rejected(patterns, compiled_all(patterns)).len() == 0 <==> all_compile(patterns),
        forall|k: int|
            0 <= k < rejected(patterns, compiled_all(patterns)).len() ==> compiled(
                (#[trigger] rejected(patterns, compiled_all(patterns))[k]).0,
            ) == Err::<regex::Regex, regex::Error>(
                rejected(patterns, compiled_all(patterns))[k].1,
            ),
    decreases patterns.len(),
{
    if patterns.len() > 0 {
        let rest = patterns.drop_last();
        lemma_rejected(rest);
        assert(compiled_all(patterns).drop_last() =~= compiled_all(rest));
        assert(compiled_all(patterns).last() == compiled(patterns[patterns.len() - 1]));
        let before = rejected(rest, compiled_all(rest));
        let now = rejected(patterns, compiled_all(patterns));
        if all_compile(patterns) {
            assert forall|i: int| 0 <= i < rest.len() implies compiled(#[trigger] rest[i]) is Ok by {
                assert(rest[i] == patterns[i]);
            }
        }
        if all_compile(rest) && compiled(patterns.last()) is Ok {
            assert forall|i: int| 0 <= i < patterns.len() implies compiled(
                #[trigger] patterns[i],
            ) is Ok by {
                if i < rest.len() {
                    assert(rest[i] == patterns[i]);
                }
            }
        }
        assert forall|k: int| 0 <= k < now.len() implies compiled((#[trigger] now[k]).0) == Err::<
            regex::Regex,
            regex::Error,
        >(now[k].1) by {
            if k < before.len() {
                assert(now[k] == before[k]);
            }
        }
    }
}

/// A line of an ignore file holds a pattern: it is not blank, and no comment.
pub open spec fn holds_pattern(line: Seq<char>) -> bool {
    first_visible(line, 0) matches Some(c) && c != '#'
}

/// The lines of an ignore file that hold patterns.
pub fn ignore_file_patterns(content: &str) -> (r: Vec<String>)
    ensures
        string_views(r@) == text_lines(content@).filter(|line: Seq<char>| holds_pattern(line)),
{
    let lines = split_lines(content);
    let ghost views = string_views(lines@);
    let ghost keep = |line: Seq<char>| holds_pattern(line);
    let mut patterns: Vec<String> = Vec::new();
    let mut i: usize = 0;
    proof {
        reveal(Seq::filter);
        assert(views.take(0) =~= Seq::empty());
        assert(string_views(patterns@) =~= views.take(0).filter(keep));
    }
    while i < lines.len()
        invariant
            i <= lines.len(),
            views == string_views(lines@),
            keep == (|line: Seq<char>| holds_pattern(line)),
            string_views(patterns@) == views.take(i as int).filter(keep),
        decreases lines.len() - i,
    {
        let ghost before = string_views(patterns@);
        proof {
            reveal(Seq::filter);
            assert(views.take(i + 1).drop_last() =~= views.take(i as int));
            assert(views.take(i + 1).last() == lines@[i as int]@);
        }
        let kept = match find_visible(lines[i].as_str()) {
            Some(c) => c != '#',
            None => false,
        };
        if kept {
            let line = lines[i].clone();
            patterns.push(line);
            assert(string_views(patterns@) =~= before.push(line@));
        }
        i += 1;
    }
    assert(views.take(lines.len() as int) =~= views);
    patterns
}

// --------------------------------------------------------------------------
// Arguments
// --------------------------------------------------------------------------

/// Tells whether arguments would be lost because the configuration names a file
/// with paths.
pub fn files_from_config_conflicts_with_params(config: &Config, options: &Cli) -> (r: bool)
    ensures
        r == {
            &&& options.files0_from is None
            &&& options.files_from is None
            &&& options.params matches Some(params) && params.len() > 0
            &&& config.files0_from is Some || config.files_from is Some
        },
{
    let has_params = match &options.params {
        Some(params) => params.len() > 0,
        None => false,
    };
    options.files0_from.is_none() && options.files_from.is_none() && has_params && (
    config.files0_from.is_some() || config.files_from.is_some())
}

/// Where the paths to walk come from.
#[derive(Debug)]
pub enum PathSource {
    /// A file, or `-`, with paths that end in NUL characters.
    NullTerminated(String),
    /// A file, or `-`, with a path on each line.
    Lines(String),
    /// The arguments.
    Arguments(Vec<String>),
}

/// Decides where the paths to walk come from. Without any, it is the current
/// directory.
pub fn path_source(config: &Config, options: &Cli) -> (r: PathSource)
    ensures
        match first_given(maybe_text(options.files0_from), maybe_text(config.files0_from)) {
            Some(file) => r matches PathSource::NullTerminated(name) && name@ == file,
            None => match first_given(
                maybe_text(options.files_from),
                maybe_text(config.files_from),
            ) {
                Some(file) => r matches PathSource::Lines(name) && name@ == file,
                None => r matches PathSource::Arguments(params) && string_views(params@) == (
                match maybe_texts(options.params) {
                    Some(params) => params,
                    None => seq!["."@],
                }),
            },
        },
{
    if let Some(file) = config.get_files0_from(options) {
        return PathSource::NullTerminated(file);
    }
    if let Some(file) = config.get_files_from(options) {
        return PathSource::Lines(file);
    }
    match &options.params {
        Some(params) => PathSource::Arguments(copy_strings(params)),
        None => {
            let mut here: Vec<String> = Vec::new();
            here.push(".".to_string());
            assert(string_views(here@) =~= seq!["."@]);
            PathSource::Arguments(here)
        },
    }
}

/// A list of paths that is not UTF-8.
#[derive(Debug, Clone, Copy, PartialEq, Eq, Structural)]
pub struct NotUtf8;

/// The paths of a text: its lines, or what its NUL characters end, empty paths
/// left out.
pub open spec fn paths_in(text: Seq<char>, null_terminated: bool) -> Seq<Seq<char>> {
    if null_terminated {
        split_text(text, '\0').filter(|path: Seq<char>| path.len() > 0)
    } else {
        text_lines(text)
    }
}

/// The texts of a list that are not empty.
pub fn without_empty(list: &Vec<String>) -> (r: Vec<String>)
    ensures
        string_views(r@) == string_views(list@).filter(|text: Seq<char>| text.len() > 0),
{
    let ghost views = string_views(list@);
    let ghost keep = |text: Seq<char>| text.len() > 0;
    let mut out: Vec<String> = Vec::new();
    let mut i: usize = 0;
    proof {
        reveal(Seq::filter);
        assert(views.take(0) =~= Seq::empty());
        assert(string_views(out@) =~= views.take(0).filter(keep));
    }
    while i < list.len()
        invariant
            i <= list.len(),
            views == string_views(list@),
            keep == (|text: Seq<char>| text.len() > 0),
            string_views(out@) == views.take(i as int).filter(keep),
        decreases list.len() - i,
    {
        let ghost before = string_views(out@);
        proof {
            reveal(Seq::filter);
            assert(views.take(i + 1).drop_last() =~= views.take(i as int));
            assert(views.take(i + 1).last() == list@[i as int]@);
        }
        if !is_empty(list[i].as_str()) {
            let text = list[i].clone();
            out.push(text);
            assert(string_views(out@) =~= before.push(text@));
        }
        i += 1;
    }
    assert(views.take(list.len() as int) =~= views);
    out
}

/// Reads the paths of a text.
pub fn split_paths(text: &str, null_terminated: bool) -> (r: Vec<String>)
    ensures
        string_views(r@) == paths_in(text@, null_terminated),
{
    if null_terminated {
        without_empty(&split_at_char(text, '\0'))
    } else {
        split_lines(text)
    }
}

/// Reads the paths of a file whose content is given.
pub fn read_paths_from_source(bytes: &Vec<u8>, null_terminated: bool) -> (r: Result<
    Vec<String>,
    NotUtf8,
>)
    ensures
        r is Ok <==> valid_utf8(bytes@),
        r matches Ok(paths) ==> exists|text: Seq<char>| #[trigger]
            encode_utf8(text) == bytes@ && string_views(paths@) == paths_in(text, null_terminated),
{
    match from_utf8(bytes.as_slice()) {
        None => Err(NotUtf8),
        Some(text) => {
            assert(encode_utf8(text@) == bytes@);
            Ok(split_paths(text, null_terminated))
        },
    }
}

// --------------------------------------------------------------------------
// Paths
// --------------------------------------------------------------------------

/// Every path of `more` behind every path of `dirs`, the paths of `dirs` varying
/// fastest.
pub open spec fn all_joined(dirs: Seq<PathView>, more: Seq<PathView>) -> Seq<PathView>
    decreases more.len(),
{
    if more.len() == 0 {
        Seq::empty()
    } else {
        all_joined(dirs, more.drop_last()) + dirs.map_values(
            |dir: PathView| joined(dir, more.last()),
        )
    }
}

/// Every path follows the rules of one platform.
pub open spec fn on_platform(paths: Seq<PathView>, platform: Platform) -> bool {
    forall|i: int| 0 <= i < paths.len() ==> (#[trigger] paths[i]).platform == platform
}

/// Puts every path of `more` behind every path of `dirs`.
pub fn join_all(platform: Platform, dirs: &Vec<PathBuf>, more: &Vec<PathBuf>) -> (r: Vec<PathBuf>)
    requires
        on_platform(path_views(dirs@), platform),
        on_platform(path_views(more@), platform),
    ensures
        path_views(r@) == all_joined(path_views(dirs@), path_views(more@)),
{
    let ghost (d, m) = (path_views(dirs@), path_views(more@));
    let mut out: Vec<PathBuf> = Vec::new();
    let mut i: usize = 0;
    assert(m.take(0) =~= Seq::empty());
    assert(path_views(out@) =~= all_joined(d, m.take(0)));
    while i < more.len()
        invariant
            i <= more.len(),
            d == path_views(dirs@),
            m == path_views(more@),
            on_platform(d, platform),
            on_platform(m, platform),
            path_views(out@) == all_joined(d, m.take(i as int)),
        decreases more.len() - i,
    {
        let ghost x = more@[i as int]@;
        let ghost row = d.map_values(|dir: PathView| joined(dir, x));
        let ghost start = path_views(out@);
        assert(m.take(i + 1).drop_last() =~= m.take(i as int));
        assert(m.take(i + 1).last() == x);
        assert(m[i as int] == x);
        let mut k: usize = 0;
        assert(start + row.take(0) =~= start);
        while k < dirs.len()
            invariant
                k <= dirs.len(),
                i < more.len(),
                d == path_views(dirs@),
                m == path_views(more@),
                x == more@[i as int]@,
                m[i as int] == x,
                row == d.map_values(|dir: PathView| joined(dir, x)),
                on_platform(d, platform),
                on_platform(m, platform),
                path_views(out@) == start + row.take(k as int),
            decreases dirs.len() - k,
        {
            let ghost before = path_views(out@);
            assert(d[k as int] == dirs@[k as int]@);
            let path = dirs[k].join(&more[i]);
            out.push(path);
            assert(path_views(out@) =~= before.push(path@));
            assert(row.take(k + 1) =~= row.take(k as int).push(path@));
            assert(path_views(out@) =~= start + row.take(k + 1));
            k += 1;
        }
        assert(row.take(dirs.len() as int) =~= row);
        i += 1;
    }
    assert(m.take(more.len() as int) =~= m);
    out
}

/// Those of a list of paths that are absolute.
pub fn absolute_paths(paths: &Vec<PathBuf>) -> (r: Vec<PathBuf>)
    ensures
        path_views(r@) == path_views(paths@).filter(|path: PathView| is_absolute_path(path)),
{
    let ghost views = path_views(paths@);
    let ghost keep = |path: PathView| is_absolute_path(path);
    let mut out: Vec<PathBuf> = Vec::new();
    let mut i: usize = 0;
    proof {
        reveal(Seq::filter);
        assert(views.take(0) =~= Seq::empty());
        assert(path_views(out@) =~= views.take(0).filter(keep));
    }
    while i < paths.len()
        invariant
            i <= paths.len(),
            views == path_views(paths@),
            keep == (|path: PathView| is_absolute_path(path)),
            path_views(out@) == views.take(i as int).filter(keep),
        decreases paths.len() - i,
    {
        let ghost before = path_views(out@);
        proof {
            reveal(Seq::filter);
            assert(views.take(i + 1).drop_last() =~= views.take(i as int));
            assert(views.take(i + 1).last() == paths@[i as int]@);
        }
        if paths[i].is_absolute() {
            let path = paths[i].clone();
            out.push(path);
            assert(path_views(out@) =~= before.push(path@));
        }
        i += 1;
    }
    assert(views.take(paths.len() as int) =~= views);
    out
}

/// The paths that texts spell.
pub fn paths_of(platform: Platform, texts: &Vec<String>) -> (r: Vec<PathBuf>)
    ensures
        r.len() == texts.len(),
        forall|i: int|
            0 <= i < r.len() ==> (#[trigger] r@[i])@ == (PathView {
                platform,
                text: encode_utf8(texts@[i]@),
            }),
        on_platform(path_views(r@), platform),
{
    let mut out: Vec<PathBuf> = Vec::with_capacity(texts.len());
    let mut i: usize = 0;
    while i < texts.len()
        invariant
            i <= texts.len(),
            out.len() == i,
            forall|j: int|
                0 <= j < i ==> (#[trigger] out@[j])@ == (PathView {
                    platform,
                    text: encode_utf8(texts@[j]@),
                }),
        decreases texts.len() - i,
    {
        out.push(PathBuf::from_text(platform, texts[i].as_str()));
        i += 1;
    }
    out
}

} // verus!
