//! The command line as plain values.

use vstd::prelude::*;

verus! {

/// The timestamp named by `--filetime`.
#[derive(Clone, Copy, Debug, PartialEq, Eq, Structural)]
pub enum FileTime {
    /// `a` or `accessed`.
    Accessed,
    /// `c` or `changed`.
    Changed,
    /// `m` or `modified`.
    Modified,
}

/// What was given on the command line.
#[derive(Debug)]
pub struct Cli {
    pub depth: Option<usize>,
    pub threads: Option<usize>,
    pub config: Option<String>,
    pub number_of_lines: Option<usize>,
    pub full_paths: bool,
    pub ignore_directory: Option<Vec<String>>,
    pub ignore_all_in_file: Option<String>,
    pub dereference_links: bool,
    pub limit_filesystem: bool,
    pub apparent_size: bool,
    pub reverse: bool,
    pub no_colors: bool,
    pub force_colors: bool,
    pub no_percent_bars: bool,
    pub bars_on_right: bool,
    pub min_size: Option<String>,
    pub screen_reader: bool,
    pub skip_total: bool,
    pub filecount: bool,
    pub ignore_hidden: bool,
    pub invert_filter: Option<Vec<String>>,
    pub filter: Option<Vec<String>>,
    pub file_types: bool,
    pub terminal_width: Option<usize>,
    pub no_progress: bool,
    pub print_errors: bool,
    pub only_dir: bool,
    pub only_file: bool,
    pub output_format: Option<String>,
    pub stack_size: Option<usize>,
    pub params: Option<Vec<String>>,
    pub output_json: bool,
    pub mtime: Option<String>,
    pub atime: Option<String>,
    pub ctime: Option<String>,
    pub files0_from: Option<String>,
    pub files_from: Option<String>,
    pub collapse: Option<Vec<String>>,
    pub filetime: Option<FileTime>,
    pub dim: bool,
}

impl Default for Cli {
    /// A command line without arguments.
    fn default() -> (r: Self)
        ensures
            r.depth is None,
            r.threads is None,
            r.config is None,
            r.number_of_lines is None,
            !r.full_paths,
            r.ignore_directory is None,
            r.ignore_all_in_file is None,
            !r.dereference_links,
            !r.limit_filesystem,
            !r.apparent_size,
            !r.reverse,
            !r.no_colors,
            !r.force_colors,
            !r.no_percent_bars,
            !r.bars_on_right,
            r.min_size is None,
            !r.screen_reader,
            !r.skip_total,
            !r.filecount,
            !r.ignore_hidden,
            r.invert_filter is None,
            r.filter is None,
            !r.file_types,
            r.terminal_width is None,
            !r.no_progress,
            !r.print_errors,
            !r.only_dir,
            !r.only_file,
            r.output_format is None,
            r.stack_size is None,
            r.params is None,
            !r.output_json,
            r.mtime is None,
            r.atime is None,
            r.ctime is None,
            r.files0_from is None,
            r.files_from is None,
            r.collapse is None,
            r.filetime is None,
            !r.dim,
    {
        Cli {
            depth: None,
            threads: None,
            config: None,
            number_of_lines: None,
            full_paths: false,
            ignore_directory: None,
            ignore_all_in_file: None,
            dereference_links: false,
            limit_filesystem: false,
            apparent_size: false,
            reverse: false,
            no_colors: false,
            force_colors: false,
            no_percent_bars: false,
            bars_on_right: false,
            min_size: None,
            screen_reader: false,
            skip_total: false,
            filecount: false,
            ignore_hidden: false,
            invert_filter: None,
            filter: None,
            file_types: false,
            terminal_width: None,
            no_progress: false,
            print_errors: false,
            only_dir: false,
            only_file: false,
            output_format: None,
            stack_size: None,
            params: None,
            output_json: false,
            mtime: None,
            atime: None,
            ctime: None,
            files0_from: None,
            files_from: None,
            collapse: None,
            filetime: None,
            dim: false,
        }
    }
}

} // verus!
