//! Settings: the command line, and behind it the configuration file.

use vstd::prelude::*;

use crate::cli::Cli;
use crate::clock::{get_current_date_epoch_seconds, starts_day};
use crate::dir_walker::{filter_in_range, Operator};
use crate::display::{get_number_format, number_format};
use crate::node::FileTime;
use crate::path::{is_absolute_path, PathBuf, PathView};
use crate::path_join::joined;
use crate::text::{
    chars_of, decimal_value, is_digit, lower_char, lower_text, parse_decimal, string_views,
    to_lower_char, to_lowercase,
};

verus! {

/// The seconds of a day.
pub const DAY_SECONDS: i64 = 86_400;

/// What a configuration file sets.
#[derive(Debug)]
pub struct Config {
    pub display_full_paths: Option<bool>,
    pub display_apparent_size: Option<bool>,
    pub reverse: Option<bool>,
    pub no_colors: Option<bool>,
    pub force_colors: Option<bool>,
    pub dim: Option<bool>,
    pub no_bars: Option<bool>,
    pub skip_total: Option<bool>,
    pub screen_reader: Option<bool>,
    pub ignore_hidden: Option<bool>,
    pub limit_filesystem: Option<bool>,
    pub output_format: Option<String>,
    pub min_size: Option<String>,
    pub only_dir: Option<bool>,
    pub only_file: Option<bool>,
    pub disable_progress: Option<bool>,
    pub depth: Option<usize>,
    pub bars_on_right: Option<bool>,
    pub threads: Option<usize>,
    pub output_json: Option<bool>,
    pub print_errors: Option<bool>,
    pub files0_from: Option<String>,
    pub number_of_lines: Option<usize>,
    pub files_from: Option<String>,
    pub collapse: Option<Vec<String>>,
}

impl Default for Config {
    /// A configuration that sets nothing.
    fn default() -> (r: Self)
        ensures
            r.display_full_paths is None,
            r.display_apparent_size is None,
            r.reverse is None,
            r.no_colors is None,
            r.force_colors is None,
            r.dim is None,
            r.no_bars is None,
            r.skip_total is None,
            r.screen_reader is None,
            r.ignore_hidden is None,
            r.limit_filesystem is None,
            r.output_format is None,
            r.min_size is None,
            r.only_dir is None,
            r.only_file is None,
            r.disable_progress is None,
            r.depth is None,
            r.bars_on_right is None,
            r.threads is None,
            r.output_json is None,
            r.print_errors is None,
            r.files0_from is None,
            r.number_of_lines is None,
            r.files_from is None,
            r.collapse is None,
    {
        Config {
            display_full_paths: None,
            display_apparent_size: None,
            reverse: None,
            no_colors: None,
            force_colors: None,
            dim: None,
            no_bars: None,
            skip_total: None,
            screen_reader: None,
            ignore_hidden: None,
            limit_filesystem: None,
            output_format: None,
            min_size: None,
            only_dir: None,
            only_file: None,
            disable_progress: None,
            depth: None,
            bars_on_right: None,
            threads: None,
            output_json: None,
            print_errors: None,
            files0_from: None,
            number_of_lines: None,
            files_from: None,
            collapse: None,
        }
    }
}

/// The text of a string that may be missing.
pub open spec fn maybe_text(text: Option<String>) -> Option<Seq<char>> {
    match text {
        Some(text) => Some(text@),
        None => None,
    }
}

/// The texts of a list of strings that may be missing.
pub open spec fn maybe_texts(list: Option<Vec<String>>) -> Option<Seq<Seq<char>>> {
    match list {
        Some(list) => Some(string_views(list@)),
        None => None,
    }
}

/// The first of two values that is there.
pub open spec fn first_given<T>(a: Option<T>, b: Option<T>) -> Option<T> {
    if a is Some {
        a
    } else {
        b
    }
}

fn is_set(flag: &Option<bool>) -> (r: bool)
    ensures
        r == (*flag == Some(true)),
{
    match flag {
        Some(value) => *value,
        None => false,
    }
}

fn first_text(a: &Option<String>, b: &Option<String>) -> (r: Option<String>)
    ensures
        maybe_text(r) == first_given(maybe_text(*a), maybe_text(*b)),
{
    match a {
        Some(text) => Some(text.clone()),
        None => match b {
            Some(text) => Some(text.clone()),
            None => None,
        },
    }
}

pub(crate) fn copy_strings(list: &Vec<String>) -> (r: Vec<String>)
    ensures
        string_views(r@) == string_views(list@),
{
    let mut out: Vec<String> = Vec::with_capacity(list.len());
    let mut i: usize = 0;
    while i < list.len()
        invariant
            i <= list.len(),
            out.len() == i,
            forall|j: int| 0 <= j < i ==> (#[trigger] out@[j])@ == list@[j]@,
        decreases list.len() - i,
    {
        out.push(list[i].clone());
        i += 1;
    }
    assert(string_views(out@) =~= string_views(list@));
    out
}

impl Config {
    /// The file with paths that end in NUL characters: the command line wins.
    pub fn get_files0_from(&self, options: &Cli) -> (r: Option<String>)
        ensures
            maybe_text(r) == first_given(
                maybe_text(options.files0_from),
                maybe_text(self.files0_from),
            ),
    {
        first_text(&options.files0_from, &self.files0_from)
    }

    /// The file with a path on each line: the command line wins.
    pub fn get_files_from(&self, options: &Cli) -> (r: Option<String>)
        ensures
            maybe_text(r) == first_given(
                maybe_text(options.files_from),
                maybe_text(self.files_from),
            ),
    {
        first_text(&options.files_from, &self.files_from)
    }

    /// Tells whether colors are switched off.
    pub fn get_no_colors(&self, options: &Cli) -> (r: bool)
        ensures
            r == (self.no_colors == Some(true) || options.no_colors),
    {
        is_set(&self.no_colors) || options.no_colors
    }

    /// Tells whether colors are forced.
    pub fn get_force_colors(&self, options: &Cli) -> (r: bool)
        ensures
            r == (self.force_colors == Some(true) || options.force_colors),
    {
        is_set(&self.force_colors) || options.force_colors
    }

    /// Tells whether progress is not shown.
    pub fn get_disable_progress(&self, options: &Cli) -> (r: bool)
        ensures
            r == (self.disable_progress == Some(true) || options.no_progress),
    {
        is_set(&self.disable_progress) || options.no_progress
    }

    /// Tells whether apparent sizes are shown.
    pub fn get_apparent_size(&self, options: &Cli) -> (r: bool)
        ensures
            r == (self.display_apparent_size == Some(true) || options.apparent_size),
    {
        is_set(&self.display_apparent_size) || options.apparent_size
    }

    /// Tells whether hidden files are passed over.
    pub fn get_ignore_hidden(&self, options: &Cli) -> (r: bool)
        ensures
            r == (self.ignore_hidden == Some(true) || options.ignore_hidden),
    {
        is_set(&self.ignore_hidden) || options.ignore_hidden
    }

    /// Tells whether the walk keeps to the file systems that it starts on.
    pub fn get_limit_filesystem(&self, options: &Cli) -> (r: bool)
        ensures
            r == (self.limit_filesystem == Some(true) || options.limit_filesystem),
    {
        is_set(&self.limit_filesystem) || options.limit_filesystem
    }

    /// Tells whether paths are shown in full.
    pub fn get_full_paths(&self, options: &Cli) -> (r: bool)
        ensures
            r == (self.display_full_paths == Some(true) || options.full_paths),
    {
        is_set(&self.display_full_paths) || options.full_paths
    }

    /// Tells whether the tree is shown upside down.
    pub fn get_reverse(&self, options: &Cli) -> (r: bool)
        ensures
            r == (self.reverse == Some(true) || options.reverse),
    {
        is_set(&self.reverse) || options.reverse
    }

    /// Tells whether bars and percentages are left out.
    pub fn get_no_bars(&self, options: &Cli) -> (r: bool)
        ensures
            r == (self.no_bars == Some(true) || options.no_percent_bars),
    {
        is_set(&self.no_bars) || options.no_percent_bars
    }

    /// Tells whether the total is left out.
    pub fn get_skip_total(&self, options: &Cli) -> (r: bool)
        ensures
            r == (self.skip_total == Some(true) || options.skip_total),
    {
        is_set(&self.skip_total) || options.skip_total
    }

    /// Tells whether the output is for screen readers.
    pub fn get_screen_reader(&self, options: &Cli) -> (r: bool)
        ensures
            r == (self.screen_reader == Some(true) || options.screen_reader),
    {
        is_set(&self.screen_reader) || options.screen_reader
    }

    /// Tells whether directories alone are shown.
    pub fn get_only_dir(&self, options: &Cli) -> (r: bool)
        ensures
            r == (self.only_dir == Some(true) || options.only_dir),
    {
        is_set(&self.only_dir) || options.only_dir
    }

    /// Tells whether every error is shown.
    pub fn get_print_errors(&self, options: &Cli) -> (r: bool)
        ensures
            r == (self.print_errors == Some(true) || options.print_errors),
    {
        is_set(&self.print_errors) || options.print_errors
    }

    /// Tells whether files alone are shown.
    pub fn get_only_file(&self, options: &Cli) -> (r: bool)
        ensures
            r == (self.only_file == Some(true) || options.only_file),
    {
        is_set(&self.only_file) || options.only_file
    }

    /// Tells whether bars stand on the right.
    pub fn get_bars_on_right(&self, options: &Cli) -> (r: bool)
        ensures
            r == (self.bars_on_right == Some(true) || options.bars_on_right),
    {
        is_set(&self.bars_on_right) || options.bars_on_right
    }

    /// Tells whether output is dimmed.
    pub fn get_dim(&self, options: &Cli) -> (r: bool)
        ensures
            r == (self.dim == Some(true) || options.dim),
    {
        is_set(&self.dim) || options.dim
    }

    /// Tells whether the output is JSON.
    pub fn get_output_json(&self, options: &Cli) -> (r: bool)
        ensures
            r == (self.output_json == Some(true) || options.output_json),
    {
        is_set(&self.output_json) || options.output_json
    }

    /// The format of sizes, in lower case: the command line wins.
    pub fn get_output_format(&self, options: &Cli) -> (r: String)
        ensures
            r@ == lower_text(
                match first_given(
                    maybe_text(options.output_format),
                    maybe_text(self.output_format),
                ) {
                    Some(text) => text,
                    None => Seq::empty(),
                },
            ),
    {
        match first_text(&options.output_format, &self.output_format) {
            Some(text) => to_lowercase(text.as_str()),
            None => {
                let none = String::new();
                assert(none@ =~= Seq::empty());
                to_lowercase(none.as_str())
            },
        }
    }

    /// The timestamp that nodes are measured by, if they are.
    pub fn get_filetime(options: &Cli) -> (r: Option<FileTime>)
        ensures
            r == (match options.filetime {
                None => None,
                Some(crate::cli::FileTime::Modified) => Some(FileTime::Modified),
                Some(crate::cli::FileTime::Accessed) => Some(FileTime::Accessed),
                Some(crate::cli::FileTime::Changed) => Some(FileTime::Changed),
            }),
    {
        match options.filetime {
            None => None,
            Some(time) => Some(FileTime::from(time)),
        }
    }

    /// How deep the tree is shown: the command line wins, and without a limit
    /// all of it is.
    pub fn get_depth(&self, options: &Cli) -> (r: usize)
        ensures
            r == (match first_given(options.depth, self.depth) {
                Some(depth) => depth,
                None => usize::MAX,
            }),
    {
        if let Some(v) = options.depth {
            return v;
        }
        match self.depth {
            Some(v) => v,
            None => usize::MAX,
        }
    }

    /// The least size that is shown, if there is one. A size on the command line
    /// wins, and has to be one.
    pub fn get_min_size(&self, options: &Cli) -> (r: Result<Option<usize>, InvalidMinSize>)
        ensures
            r == least_size(maybe_text(options.min_size), maybe_text(self.min_size)),
    {
        self.get_min_size_from(options.min_size.as_ref())
    }

    /// The least size that is shown, given the text from the command line.
    pub fn get_min_size_from(&self, min_size: Option<&String>) -> (r: Result<
        Option<usize>,
        InvalidMinSize,
    >)
        ensures
            r == least_size(
                match min_size {
                    Some(text) => Some(text@),
                    None => None,
                },
                maybe_text(self.min_size),
            ),
    {
        match min_size {
            Some(text) => match parse_min_size(text.as_str()) {
                Some(size) => Ok(Some(size)),
                None => Err(InvalidMinSize),
            },
            None => match &self.min_size {
                Some(text) => Ok(convert_min_size(text.as_str())),
                None => Ok(None),
            },
        }
    }

    /// The number of threads, if it is set: the command line wins.
    pub fn get_threads(&self, options: &Cli) -> (r: Option<usize>)
        ensures
            r == first_given(options.threads, self.threads),
    {
        if options.threads.is_none() {
            self.threads
        } else {
            options.threads
        }
    }

    /// The number of lines, if it is set: the command line wins.
    pub fn get_number_of_lines(&self, options: &Cli) -> (r: Option<usize>)
        ensures
            r == first_given(options.number_of_lines, self.number_of_lines),
    {
        if options.number_of_lines.is_none() {
            self.number_of_lines
        } else {
            options.number_of_lines
        }
    }

    /// The directories that are kept collapsed, if any: the command line wins.
    pub fn get_collapse(&self, options: &Cli) -> (r: Option<Vec<String>>)
        ensures
            maybe_texts(r) == first_given(
                maybe_texts(options.collapse),
                maybe_texts(self.collapse),
            ),
    {
        match &options.collapse {
            Some(list) => Some(copy_strings(list)),
            None => match &self.collapse {
                Some(list) => Some(copy_strings(list)),
                None => None,
            },
        }
    }

    /// The filter by modification time, counted from today.
    pub fn get_modified_time_operator(options: &Cli) -> (r: Result<
        Option<(Operator, i64)>,
        TimeFilterError,
    >)
        ensures
            options.mtime is None ==> r == Ok::<Option<(Operator, i64)>, TimeFilterError>(None),
            options.mtime matches Some(text) ==> follows_filter(text@, r),
            r matches Ok(filter) ==> filter_in_range(filter),
    {
        filter_from_today(&options.mtime)
    }

    /// The filter by access time, counted from today.
    pub fn get_accessed_time_operator(options: &Cli) -> (r: Result<
        Option<(Operator, i64)>,
        TimeFilterError,
    >)
        ensures
            options.atime is None ==> r == Ok::<Option<(Operator, i64)>, TimeFilterError>(None),
            options.atime matches Some(text) ==> follows_filter(text@, r),
            r matches Ok(filter) ==> filter_in_range(filter),
    {
        filter_from_today(&options.atime)
    }

    /// The filter by change time, counted from today.
    pub fn get_changed_time_operator(options: &Cli) -> (r: Result<
        Option<(Operator, i64)>,
        TimeFilterError,
    >)
        ensures
            options.ctime is None ==> r == Ok::<Option<(Operator, i64)>, TimeFilterError>(None),
            options.ctime matches Some(text) ==> follows_filter(text@, r),
            r matches Ok(filter) ==> filter_in_range(filter),
    {
        filter_from_today(&options.ctime)
    }
}

// --------------------------------------------------------------------------
// Time filters
// --------------------------------------------------------------------------

/// Why a time filter was refused.
#[derive(Debug, Clone, Copy, PartialEq, Eq, Structural)]
pub enum TimeFilterError {
    /// It is no number of days.
    Invalid,
    /// The day that it names is out of the range of timestamps.
    OutOfRange,
}

/// The digits of a number that may have a sign.
pub open spec fn unsigned_part(text: Seq<char>) -> Seq<char> {
    if text.len() > 0 && (text[0] == '+' || text[0] == '-') {
        text.skip(1)
    } else {
        text
    }
}

/// The distance in days that a time filter names, if it names one.
pub open spec fn filter_days(text: Seq<char>) -> Option<int> {
    let digits = unsigned_part(text);
    let days = decimal_value(digits) as int;
    if digits.len() == 0 || exists|i: int| 0 <= i < digits.len() && !is_digit(#[trigger] digits[i]) {
        None
    } else if days <= i64::MAX || (text[0] == '-' && days == i64::MAX + 1) {
        Some(days)
    } else {
        None
    }
}

/// What a time filter asks for, counted back from the start of today: after
/// `+` what is older than so many days, after `-` what is younger, and without
/// a sign what is exactly so many days old.
pub open spec fn filter_of(text: Seq<char>, today: i64) -> Result<
    (Operator, i64),
    TimeFilterError,
> {
    match filter_days(text) {
        None => Err(TimeFilterError::Invalid),
        Some(days) => {
            let time = today - days * DAY_SECONDS;
            let bound = if text[0] == '-' {
                time
            } else {
                time - DAY_SECONDS
            };
            if days * DAY_SECONDS > i64::MAX || bound < i64::MIN {
                Err(TimeFilterError::OutOfRange)
            } else if text[0] == '+' {
                Ok((Operator::LessThan, bound as i64))
            } else if text[0] == '-' {
                Ok((Operator::GreaterThan, bound as i64))
            } else {
                Ok((Operator::Equal, bound as i64))
            }
        },
    }
}

/// The result is what the time filter asks for on some day, counted back from the
/// start of that day.
pub open spec fn follows_filter(
    text: Seq<char>,
    r: Result<Option<(Operator, i64)>, TimeFilterError>,
) -> bool {
    exists|date: chrono::NaiveDate, today: i64| #[trigger]
        starts_day(date, today) && r == (match filter_of(text, today) {
            Ok(filter) => Ok(Some(filter)),
            Err(error) => Err(error),
        })
}

fn parse_days(chars: &Vec<char>) -> (r: Option<u64>)
    ensures
        match r {
            Some(days) => filter_days(chars@) == Some(days as int) && chars.len() > 0,
            None => filter_days(chars@) is None,
        },
{
    let n = chars.len();
    if n == 0 {
        return None;
    }
    let from: usize = if chars[0] == '+' || chars[0] == '-' {
        1
    } else {
        0
    };
    let ghost digits = unsigned_part(chars@);
    assert(digits =~= chars@.subrange(from as int, n as int));
    if from == n {
        return None;
    }
    let mut i: usize = from;
    while i < n
        invariant
            from <= i <= n,
            from <= 1,
            n == chars.len(),
            n > 0,
            digits == unsigned_part(chars@),
            digits == chars@.subrange(from as int, n as int),
            forall|j: int| from <= j < i ==> is_digit(#[trigger] chars@[j]),
        decreases n - i,
    {
        let c = chars[i];
        if !('0' <= c && c <= '9') {
            assert(!is_digit(digits[i - from]));
            return None;
        }
        i += 1;
    }
    assert forall|j: int| 0 <= j < digits.len() implies is_digit(#[trigger] digits[j]) by {
        assert(digits[j] == chars@[from + j]);
    }
    match parse_decimal(chars, from, n) {
        None => None,
        Some(days) => if days <= i64::MAX as u128 || (chars[0] == '-' && days == i64::MAX as u128
            + 1) {
            Some(days as u64)
        } else {
            None
        },
    }
}

/// Reads a time filter and counts it back from the start of today.
pub fn get_filter_time_operator(
    option_value: Option<&String>,
    current_date_epoch_seconds: i64,
) -> (r: Result<Option<(Operator, i64)>, TimeFilterError>)
    ensures
        match option_value {
            None => r == Ok::<Option<(Operator, i64)>, TimeFilterError>(None),
            Some(text) => r == (match filter_of(text@, current_date_epoch_seconds) {
                Ok(filter) => Ok(Some(filter)),
                Err(error) => Err(error),
            }),
        },
        r matches Ok(filter) ==> filter_in_range(filter),
{
    let text = match option_value {
        None => {
            return Ok(None);
        },
        Some(text) => text,
    };
    let chars = chars_of(text.as_str());
    let days = match parse_days(&chars) {
        None => {
            return Err(TimeFilterError::Invalid);
        },
        Some(days) => days,
    };
    let span: i128 = days as i128 * DAY_SECONDS as i128;
    let time: i128 = current_date_epoch_seconds as i128 - span;
    let bound: i128 = if chars[0] == '-' {
        time
    } else {
        time - DAY_SECONDS as i128
    };
    if span > i64::MAX as i128 || bound < i64::MIN as i128 {
        return Err(TimeFilterError::OutOfRange);
    }
    let operator = if chars[0] == '+' {
        Operator::LessThan
    } else if chars[0] == '-' {
        Operator::GreaterThan
    } else {
        Operator::Equal
    };
    Ok(Some((operator, bound as i64)))
}

fn filter_from_today(value: &Option<String>) -> (r: Result<
    Option<(Operator, i64)>,
    TimeFilterError,
>)
    ensures
        *value is None ==> r == Ok::<Option<(Operator, i64)>, TimeFilterError>(None),
        *value matches Some(text) ==> follows_filter(text@, r),
        r matches Ok(filter) ==> filter_in_range(filter),
{
    match value {
        None => Ok(None),
        Some(text) => {
            let today = get_current_date_epoch_seconds();
            let r = get_filter_time_operator(Some(text), today);
            assert(follows_filter(text@, r)) by {
                let date = choose|date: chrono::NaiveDate| #[trigger] starts_day(date, today);
                assert(starts_day(date, today));
            }
            r
        },
    }
}

// --------------------------------------------------------------------------
// Least sizes
// --------------------------------------------------------------------------

/// A size on the command line that is none.
#[derive(Debug, Clone, Copy, PartialEq, Eq, Structural)]
pub struct InvalidMinSize;

/// The length of the run of digits that starts at `i`.
pub open spec fn digit_run(text: Seq<char>, i: int) -> int
    decreases text.len() - i,
{
    if 0 <= i < text.len() && is_digit(text[i]) {
        1 + digit_run(text, i + 1)
    } else {
        0
    }
}

/// A letter of ASCII.
pub open spec fn is_letter(c: char) -> bool {
    ('a' <= c && c <= 'z') || ('A' <= c && c <= 'Z')
}

/// The parts of a size: its digits, those behind the point, and its unit.
pub struct SizeParts {
    pub whole: Seq<char>,
    pub fraction: Seq<char>,
    pub unit: Seq<char>,
}

/// A text read as a size: digits, then a point and digits, which may be
/// missing, then the letters of a unit, if any.
pub open spec fn size_parts(text: Seq<char>) -> Option<SizeParts> {
    let n = digit_run(text, 0);
    let m = if n < text.len() && text[n] == '.' {
        digit_run(text, n + 1)
    } else {
        0
    };
    let end = if m > 0 {
        n + 1 + m
    } else {
        n
    };
    if n == 0 || exists|i: int| end <= i < text.len() && !is_letter(#[trigger] text[i]) {
        None
    } else {
        Some(
            SizeParts {
                whole: text.take(n),
                fraction: if m > 0 {
                    text.subrange(n + 1, end)
                } else {
                    Seq::empty()
                },
                unit: text.skip(end),
            },
        )
    }
}

/// Ten to the given power.
pub open spec fn ten_to(n: nat) -> nat
    decreases n,
{
    if n == 0 {
        1
    } else {
        10 * ten_to((n - 1) as nat)
    }
}

/// The bytes that a unit stands for; no unit stands for one.
pub open spec fn unit_bytes(unit: Seq<char>) -> Option<int> {
    if unit.len() == 0 {
        Some(1)
    } else {
        match number_format(unit.map_values(|c: char| lower_char(c))) {
            Some((bytes, _)) => Some(bytes as int),
            None => None,
        }
    }
}

/// What the digits behind the point amount to, rounded to whole bytes with
/// halves rounded up.
pub open spec fn fraction_bytes(fraction: Seq<char>, unit: int) -> int {
    let parts = ten_to(fraction.len()) as int;
    (decimal_value(fraction) * unit + parts / 2) / parts
}

/// The digits behind the point are not too many to be counted with.
pub open spec fn fraction_fits(fraction: Seq<char>, unit: int) -> bool {
    &&& ten_to(fraction.len()) <= u128::MAX
    &&& decimal_value(fraction) * unit + ten_to(fraction.len()) as int / 2 <= u128::MAX
}

/// The number of bytes that a text stands for, if it stands for one.
pub open spec fn min_size_value(text: Seq<char>) -> Option<usize> {
    match size_parts(text) {
        None => None,
        Some(parts) => match unit_bytes(parts.unit) {
            None => None,
            Some(unit) => {
                let size = decimal_value(parts.whole) * unit + (if parts.fraction.len() > 0 {
                    fraction_bytes(parts.fraction, unit)
                } else {
                    0
                });
                if (parts.fraction.len() > 0 ==> fraction_fits(parts.fraction, unit)) && size
                    <= usize::MAX {
                    Some(size as usize)
                } else {
                    None
                }
            },
        },
    }
}

/// The least size that is shown. A text on the command line has to stand for
/// one; a text of the configuration that does not is passed over.
pub open spec fn least_size(given: Option<Seq<char>>, configured: Option<Seq<char>>) -> Result<
    Option<usize>,
    InvalidMinSize,
> {
    match given {
        Some(text) => match min_size_value(text) {
            Some(size) => Ok(Some(size)),
            None => Err(InvalidMinSize),
        },
        None => match configured {
            Some(text) => Ok(min_size_value(text)),
            None => Ok(None),
        },
    }
}

pub(crate) proof fn lemma_digit_run(text: Seq<char>, i: int)
    requires
        0 <= i <= text.len(),
    ensures
        0 <= digit_run(text, i) <= text.len() - i,
        forall|j: int| i <= j < i + digit_run(text, i) ==> is_digit(#[trigger] text[j]),
    decreases text.len() - i,
{
    if i < text.len() && is_digit(text[i]) {
        lemma_digit_run(text, i + 1);
    }
}

fn count_digits(chars: &Vec<char>, from: usize) -> (r: usize)
    requires
        from <= chars.len(),
    ensures
        r == digit_run(chars@, from as int),
        from + r <= chars.len(),
        forall|j: int| from <= j < from + r ==> is_digit(#[trigger] chars@[j]),
{
    proof {
        lemma_digit_run(chars@, from as int);
    }
    let mut i: usize = from;
    while i < chars.len() && '0' <= chars[i] && chars[i] <= '9'
        invariant
            from <= i <= chars.len(),
            digit_run(chars@, from as int) == (i - from) + digit_run(chars@, i as int),
        decreases chars.len() - i,
    {
        i += 1;
    }
    i - from
}

fn ten_to_the(n: usize) -> (r: Option<u128>)
    ensures
        match r {
            Some(value) => value == ten_to(n as nat),
            None => ten_to(n as nat) > u128::MAX,
        },
{
    let mut value: u128 = 1;
    let mut i: usize = 0;
    while i < n
        invariant
            i <= n,
            value == ten_to(i as nat),
        decreases n - i,
    {
        proof {
            lemma_ten_to_grows((i + 1) as nat, n as nat);
        }
        value = match value.checked_mul(10) {
            Some(next) => next,
            None => {
                return None;
            },
        };
        i += 1;
    }
    Some(value)
}

pub(crate) proof fn lemma_ten_to_grows(m: nat, n: nat)
    requires
        m <= n,
    ensures
        1 <= ten_to(m) <= ten_to(n),
    decreases n,
{
    if m < n {
        lemma_ten_to_grows(m, (n - 1) as nat);
    } else if m > 0 {
        lemma_ten_to_grows((m - 1) as nat, (m - 1) as nat);
    }
}

fn bytes_of_unit(chars: &Vec<char>, from: usize) -> (r: Option<u64>)
    requires
        from <= chars.len(),
    ensures
        match r {
            Some(bytes) => unit_bytes(chars@.skip(from as int)) == Some(bytes as int) && bytes >= 1,
            None => unit_bytes(chars@.skip(from as int)) is None,
        },
{
    let n = chars.len();
    if from == n {
        return Some(1);
    }
    let ghost unit = chars@.skip(from as int);
    let mut letters = String::new();
    let mut i: usize = from;
    assert(letters@ =~= unit.take(0).map_values(|c: char| lower_char(c)));
    while i < n
        invariant
            from <= i <= n,
            n == chars.len(),
            unit == chars@.skip(from as int),
            letters@ == unit.take(i - from).map_values(|c: char| lower_char(c)),
        decreases n - i,
    {
        letters.push(to_lower_char(chars[i]));
        assert(letters@ =~= unit.take(i - from + 1).map_values(|c: char| lower_char(c)));
        i += 1;
    }
    assert(unit.take(n - from) =~= unit);
    match get_number_format(letters.as_str()) {
        Some((bytes, _)) => Some(bytes),
        None => None,
    }
}

fn bytes_of_fraction(chars: &Vec<char>, from: usize, to: usize, unit: u64) -> (r: Option<u128>)
    requires
        from <= to <= chars.len(),
        unit >= 1,
        forall|j: int| from <= j < to ==> is_digit(#[trigger] chars@[j]),
    ensures
        match r {
            Some(bytes) => {
                &&& fraction_fits(chars@.subrange(from as int, to as int), unit as int)
                &&& bytes == fraction_bytes(chars@.subrange(from as int, to as int), unit as int)
            },
            None => !fraction_fits(chars@.subrange(from as int, to as int), unit as int),
        },
{
    let ghost fraction = chars@.subrange(from as int, to as int);
    let ghost value = decimal_value(fraction) as int;
    let digits = match parse_decimal(chars, from, to) {
        Some(digits) => digits,
        None => {
            assert(value * unit >= value) by (nonlinear_arith)
                requires
                    unit >= 1,
                    value >= 0,
            ;
            return None;
        },
    };
    let parts = match ten_to_the(to - from) {
        Some(parts) => parts,
        None => {
            return None;
        },
    };
    proof {
        lemma_ten_to_grows(0, (to - from) as nat);
        assert(value * unit >= 0) by (nonlinear_arith)
            requires
                value >= 0,
                unit >= 1,
        ;
    }
    let scaled = match digits.checked_mul(unit as u128) {
        Some(scaled) => scaled,
        None => {
            return None;
        },
    };
    match scaled.checked_add(parts / 2) {
        Some(sum) => Some(sum / parts),
        None => None,
    }
}

/// Reads a size such as `512`, `10Ki` or `1.5k`.
pub fn parse_min_size(input: &str) -> (r: Option<usize>)
    ensures
        r == min_size_value(input@),
{
    let chars = chars_of(input);
    let n = count_digits(&chars, 0);
    if n == 0 {
        return None;
    }
    let m: usize = if n < chars.len() && chars[n] == '.' {
        count_digits(&chars, n + 1)
    } else {
        0
    };
    let end: usize = if m > 0 {
        n + 1 + m
    } else {
        n
    };
    let mut i: usize = end;
    while i < chars.len()
        invariant
            end <= i <= chars.len(),
            chars@ == input@,
            n == digit_run(input@, 0),
            n > 0,
            m == (if n < input@.len() && input@[n as int] == '.' {
                digit_run(input@, n + 1)
            } else {
                0
            }),
            end == (if m > 0 {
                n + 1 + m
            } else {
                n as int
            }),
            forall|j: int| end <= j < i ==> is_letter(#[trigger] input@[j]),
        decreases chars.len() - i,
    {
        let c = chars[i];
        if !(('a' <= c && c <= 'z') || ('A' <= c && c <= 'Z')) {
            assert(!is_letter(input@[i as int]));
            return None;
        }
        i += 1;
    }
    let ghost parts = size_parts(input@)->Some_0;
    assert(size_parts(input@) is Some);
    assert(parts.whole =~= chars@.subrange(0, n as int));
    let unit = match bytes_of_unit(&chars, end) {
        Some(unit) => unit,
        None => {
            return None;
        },
    };
    let ghost value = decimal_value(parts.whole) as int;
    let ghost extra = if parts.fraction.len() > 0 {
        fraction_bytes(parts.fraction, unit as int)
    } else {
        0
    };
    let fraction: u128 = if m > 0 {
        match bytes_of_fraction(&chars, n + 1, end, unit) {
            Some(bytes) => bytes,
            None => {
                return None;
            },
        }
    } else {
        0
    };
    assert(extra == fraction);
    assert(value * unit >= value) by (nonlinear_arith)
        requires
            unit >= 1,
            value >= 0,
    ;
    let whole = match parse_decimal(&chars, 0, n) {
        Some(whole) => whole,
        None => {
            return None;
        },
    };
    let total = match whole.checked_mul(unit as u128) {
        Some(total) => total,
        None => {
            return None;
        },
    };
    let total = match total.checked_add(fraction) {
        Some(total) => total,
        None => {
            return None;
        },
    };
    if total <= usize::MAX as u128 {
        Some(total as usize)
    } else {
        None
    }
}

/// Reads a size of the configuration; one that is none is passed over.
pub fn convert_min_size(input: &str) -> (r: Option<usize>)
    ensures
        r == min_size_value(input@),
{
    parse_min_size(input)
}

// --------------------------------------------------------------------------
// Configuration files
// --------------------------------------------------------------------------

/// The path of an entry of a directory, by the name of the entry.
pub open spec fn below(dir: PathView, name: Seq<char>) -> PathView {
    joined(dir, PathView { platform: dir.platform, text: vstd::utf8::encode_utf8(name) })
}

/// The directory for the configuration files of this program.
pub open spec fn config_dir(base: PathView, config_home: Option<PathView>) -> PathView {
    match config_home {
        Some(home) => below(home, "zdu"@),
        None => below(below(base, ".config"@), "zdu"@),
    }
}

fn entry_of(dir: &PathBuf, name: &str) -> (r: PathBuf)
    ensures
        r@ == below(dir@, name@),
{
    dir.join(&PathBuf::from_text(dir.platform(), name))
}

/// Where the configuration file is looked for, in this order.
pub fn get_config_locations(base: &PathBuf, config_home: Option<&PathBuf>) -> (r: Vec<PathBuf>)
    ensures
        r.len() == 2,
        r@[0]@ == below(base@, ".zdu.toml"@),
        r@[1]@ == below(
            config_dir(
                base@,
                match config_home {
                    Some(home) => Some(home@),
                    None => None,
                },
            ),
            "config.toml"@,
        ),
{
    let dir = match config_home {
        Some(home) => entry_of(home, "zdu"),
        None => entry_of(&entry_of(base, ".config"), "zdu"),
    };
    let mut locations: Vec<PathBuf> = Vec::with_capacity(2);
    locations.push(entry_of(base, ".zdu.toml"));
    locations.push(entry_of(&dir, "config.toml"));
    locations
}

/// Tells whether a directory for configuration files that was set is used: it
/// has to be an absolute path.
pub fn is_usable_config_home(path: &PathBuf) -> (r: bool)
    ensures
        r == (path@.text.len() > 0 && is_absolute_path(path@)),
{
    path.text().len() > 0 && path.is_absolute()
}

} // verus!
