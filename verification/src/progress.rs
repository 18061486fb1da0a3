//! What a walk reports while it runs, and what went wrong in it.

use vstd::hash_set::StringHashSet;
use vstd::prelude::*;
use vstd::string::StringExecFns;
use vstd::utf8::encode_utf8;

use crate::display::{human_readable_number, readable_size};
use crate::path::{path_text, PathBuf};
use crate::text::{decimal_text, push_decimal, string_views};

verus! {

/// What a walk is doing.
#[derive(Debug, Clone, Copy, PartialEq, Eq, Structural)]
pub enum Operation {
    INDEXING,
    PREPARING,
}

/// How far a walk has come.
pub struct PAtomicInfo {
    pub num_files: usize,
    pub total_file_size: u64,
    pub state: Operation,
    pub current_path: String,
}

impl Default for PAtomicInfo {
    fn default() -> (r: Self)
        ensures
            r.num_files == 0,
            r.total_file_size == 0,
            r.state == Operation::INDEXING,
            r.current_path@.len() == 0,
    {
        PAtomicInfo {
            num_files: 0,
            total_file_size: 0,
            state: Operation::INDEXING,
            current_path: String::new(),
        }
    }
}

impl PAtomicInfo {
    /// Starts anew at a directory.
    pub fn clear_state(&mut self, dir: &PathBuf)
        ensures
            final(self).state == Operation::INDEXING,
            final(self).current_path@ == path_text(dir@),
            final(self).total_file_size == 0,
            final(self).num_files == 0,
    {
        self.state = Operation::INDEXING;
        self.current_path = dir.to_lossy();
        self.total_file_size = 0;
        self.num_files = 0;
    }

    /// Counts one more file of `size` bytes. The counters wrap around.
    pub fn count_file(&mut self, size: u64)
        ensures
            final(self).num_files == wrapped_usize(old(self).num_files + 1),
            final(self).total_file_size == wrapped_u64(old(self).total_file_size + size),
            final(self).state == old(self).state,
            final(self).current_path == old(self).current_path,
    {
        self.num_files = self.num_files.wrapping_add(1);
        self.total_file_size = self.total_file_size.wrapping_add(size);
    }
}

/// A sum of two counts as a counter of the size of an address shows it.
pub open spec fn wrapped_usize(sum: int) -> usize {
    (if sum > usize::MAX {
        sum - usize::MAX - 1
    } else {
        sum
    }) as usize
}

/// A sum of two sizes as a counter shows it.
pub open spec fn wrapped_u64(sum: int) -> u64 {
    (if sum > u64::MAX {
        sum - u64::MAX - 1
    } else {
        sum
    }) as u64
}

/// A list of messages in which no message occurs twice, in the order of their
/// first occurrence.
pub struct Messages {
    seen: StringHashSet,
    list: Vec<String>,
}

/// A list of messages after one more was recorded.
pub open spec fn recorded(messages: Seq<Seq<char>>, message: Seq<char>) -> Seq<Seq<char>> {
    if messages.contains(message) {
        messages
    } else {
        messages.push(message)
    }
}

impl View for Messages {
    type V = Seq<Seq<char>>;

    closed spec fn view(&self) -> Seq<Seq<char>> {
        string_views(self.list@)
    }
}

impl Messages {
    #[verifier::type_invariant]
    spec fn no_message_twice(self) -> bool {
        &&& string_views(self.list@).no_duplicates()
        &&& forall|s: Seq<char>| #[trigger] self.seen@.contains(s) <==> string_views(self.list@).contains(s)
    }

    /// An empty list.
    pub fn new() -> (r: Self)
        ensures
            r@ == Seq::<Seq<char>>::empty(),
    {
        let r = Messages { seen: StringHashSet::new(), list: Vec::new() };
        assert(string_views(r.list@) =~= Seq::empty());
        r
    }

    /// Records a message, unless it was recorded before.
    pub fn insert(&mut self, message: String)
        ensures
            final(self)@ == recorded(old(self)@, message@),
    {
        proof {
            use_type_invariant(&*self);
        }
        let ghost before = self.list@;
        let mut whole = Messages::new();
        std::mem::swap(&mut whole, self);
        let Messages { mut seen, mut list } = whole;
        if seen.insert(message.clone()) {
            list.push(message);
            proof {
                let now = string_views(before).push(message@);
                assert(string_views(list@) =~= now);
                assert forall|s: Seq<char>| #[trigger] seen@.contains(s) implies now.contains(s) by {
                    if s == message@ {
                        assert(now.last() == s);
                    } else {
                        let i = choose|i: int| 0 <= i < before.len() && string_views(before)[i] == s;
                        assert(now[i] == s);
                    }
                }
                assert forall|s: Seq<char>| now.contains(s) implies #[trigger] seen@.contains(s) by {
                    let i = choose|i: int| 0 <= i < now.len() && now[i] == s;
                    if i < before.len() {
                        assert(string_views(before)[i] == s);
                    }
                }
            }
        }
        *self = Messages { seen, list };
    }

    /// The messages.
    pub fn messages(&self) -> (r: &Vec<String>)
        ensures
            string_views(r@) == self@,
            self@.no_duplicates(),
    {
        proof {
            use_type_invariant(self);
        }
        &self.list
    }

    /// Tells whether a message was recorded.
    pub fn contains(&self, message: &str) -> (r: bool)
        ensures
            r == self@.contains(message@),
    {
        proof {
            use_type_invariant(self);
        }
        self.seen.contains(message)
    }

    /// Tells whether nothing was recorded.
    pub fn is_empty(&self) -> (r: bool)
        ensures
            r == (self@.len() == 0),
    {
        self.list.len() == 0
    }
}

/// What went wrong in a walk.
pub struct RuntimeErrors {
    pub no_permissions: Messages,
    pub file_not_found: Messages,
    pub not_a_directory: Messages,
    pub eintr_exhausted: Messages,
    pub unknown_error: Messages,
    pub metadata_unavailable: Messages,
    pub interrupted_error: i32,
}

/// The messages of a walk, as values.
#[verifier::ext_equal]
pub struct ErrorsView {
    pub no_permissions: Seq<Seq<char>>,
    pub file_not_found: Seq<Seq<char>>,
    pub not_a_directory: Seq<Seq<char>>,
    pub eintr_exhausted: Seq<Seq<char>>,
    pub unknown_error: Seq<Seq<char>>,
    pub metadata_unavailable: Seq<Seq<char>>,
    pub interrupted_error: i32,
}

impl View for RuntimeErrors {
    type V = ErrorsView;

    open spec fn view(&self) -> ErrorsView {
        ErrorsView {
            no_permissions: self.no_permissions@,
            file_not_found: self.file_not_found@,
            not_a_directory: self.not_a_directory@,
            eintr_exhausted: self.eintr_exhausted@,
            unknown_error: self.unknown_error@,
            metadata_unavailable: self.metadata_unavailable@,
            interrupted_error: self.interrupted_error,
        }
    }
}

impl Default for RuntimeErrors {
    fn default() -> (r: Self)
        ensures
            r@.no_permissions.len() == 0,
            r@.file_not_found.len() == 0,
            r@.not_a_directory.len() == 0,
            r@.eintr_exhausted.len() == 0,
            r@.unknown_error.len() == 0,
            r@.metadata_unavailable.len() == 0,
            r@.interrupted_error == 0,
    {
        RuntimeErrors {
            no_permissions: Messages::new(),
            file_not_found: Messages::new(),
            not_a_directory: Messages::new(),
            eintr_exhausted: Messages::new(),
            unknown_error: Messages::new(),
            metadata_unavailable: Messages::new(),
            interrupted_error: 0,
        }
    }
}

// --------------------------------------------------------------------------
// The progress line
// --------------------------------------------------------------------------

/// The characters of the spinner.
pub open spec fn spinner_chars() -> Seq<char> {
    seq!['-', '\\', '|', '/']
}

/// The character of the spinner at a step.
pub fn spinner_char(step: usize) -> (r: char)
    requires
        step < 4,
    ensures
        r == spinner_chars()[step as int],
{
    if step == 0 {
        '-'
    } else if step == 1 {
        '\\'
    } else if step == 2 {
        '|'
    } else {
        '/'
    }
}

/// The step of the spinner after this one.
pub fn next_spinner_step(step: usize) -> (r: usize)
    requires
        step < 4,
    ensures
        r < 4,
        r == (step + 1) % 4,
{
    (step + 1) % 4
}

/// What is shown while the output is prepared.
pub open spec fn preparing_text(
    prog_char: char,
    path: Seq<char>,
    size: u64,
    format: Seq<char>,
) -> Seq<char> {
    ("Preparing: "@ + path + " "@ + readable_size(size, format) + " ... "@).push(prog_char)
}

/// What is shown while directories are walked.
pub open spec fn indexing_text(
    prog_char: char,
    path: Seq<char>,
    num_files: usize,
    size: u64,
    format: Seq<char>,
) -> Seq<char> {
    ("Indexing: "@ + path + " "@ + decimal_text(num_files as nat) + " files, "@ + readable_size(
        size,
        format,
    ) + " ... "@).push(prog_char)
}

/// What is shown of a walk that is being prepared for output.
pub fn format_preparing_str(prog_char: char, data: &PAtomicInfo, output_display: &str) -> (r: String)
    ensures
        r@ == preparing_text(
            prog_char,
            data.current_path@,
            data.total_file_size,
            output_display@,
        ),
{
    let mut out = "Preparing: ".to_string();
    out.append(data.current_path.as_str());
    out.append(" ");
    out.append(human_readable_number(data.total_file_size, output_display).as_str());
    out.append(" ... ");
    out.push(prog_char);
    out
}

/// What is shown of a walk under way.
pub fn format_indexing_str(prog_char: char, data: &PAtomicInfo, output_display: &str) -> (r: String)
    ensures
        r@ == indexing_text(
            prog_char,
            data.current_path@,
            data.num_files,
            data.total_file_size,
            output_display@,
        ),
{
    let mut out = "Indexing: ".to_string();
    out.append(data.current_path.as_str());
    out.append(" ");
    push_decimal(&mut out, data.num_files as u128);
    out.append(" files, ");
    out.append(human_readable_number(data.total_file_size, output_display).as_str());
    out.append(" ... ");
    out.push(prog_char);
    out
}

/// What is shown of a walk.
pub fn progress_message(prog_char: char, data: &PAtomicInfo, output_display: &str) -> (r: String)
    ensures
        r@ == (match data.state {
            Operation::INDEXING => indexing_text(
                prog_char,
                data.current_path@,
                data.num_files,
                data.total_file_size,
                output_display@,
            ),
            Operation::PREPARING => preparing_text(
                prog_char,
                data.current_path@,
                data.total_file_size,
                output_display@,
            ),
        }),
{
    match data.state {
        Operation::INDEXING => format_indexing_str(prog_char, data, output_display),
        Operation::PREPARING => format_preparing_str(prog_char, data, output_display),
    }
}

/// So many blanks.
pub open spec fn blanks(n: nat) -> Seq<char> {
    Seq::new(n, |i: int| ' ')
}

/// What covers a message that was shown: a return to the start of the line, and
/// as many blanks as the message has bytes, at least one.
pub fn clear_line(message: &str) -> (r: String)
    ensures
        r@ == seq!['\r'] + blanks(
            if encode_utf8(message@).len() == 0 {
                1
            } else {
                encode_utf8(message@).len()
            },
        ),
{
    let bytes = message.as_bytes();
    let n = if bytes.len() == 0 {
        1
    } else {
        bytes.len()
    };
    let mut out = String::new();
    out.push('\r');
    let mut i: usize = 0;
    assert(out@ =~= seq!['\r'] + blanks(0));
    while i < n
        invariant
            i <= n,
            out@ == seq!['\r'] + blanks(i as nat),
        decreases n - i,
    {
        out.push(' ');
        i += 1;
        assert(out@ =~= seq!['\r'] + blanks(i as nat));
    }
    out
}

// --------------------------------------------------------------------------
// The report
// --------------------------------------------------------------------------

/// Messages one after the other, with commas between them.
pub open spec fn listed(messages: Seq<Seq<char>>) -> Seq<char>
    decreases messages.len(),
{
    if messages.len() == 0 {
        Seq::empty()
    } else if messages.len() == 1 {
        messages[0]
    } else {
        listed(messages.drop_last()) + ", "@ + messages.last()
    }
}

/// A line that lists messages, if there are any.
pub open spec fn line_of(start: Seq<char>, messages: Seq<Seq<char>>) -> Seq<Seq<char>> {
    if messages.len() == 0 {
        Seq::empty()
    } else {
        seq![start + listed(messages)]
    }
}

/// The line on directories that could not be read.
pub open spec fn permissions_line(print_errors: bool, messages: Seq<Seq<char>>) -> Seq<Seq<char>> {
    if messages.len() == 0 || print_errors {
        line_of("Did not have permissions for directories: "@, messages)
    } else {
        seq!["Did not have permissions for all directories (add --print-errors to see errors)"@]
    }
}

/// What is reported of what went wrong, line by line.
pub open spec fn report(print_errors: bool, errors: ErrorsView) -> Seq<Seq<char>> {
    line_of("No such file or directory: "@, errors.file_not_found) + line_of(
        "Not a directory: "@,
        errors.not_a_directory,
    ) + line_of(
        "Gave up listing after repeated interruptions (subtrees not counted): "@,
        errors.eintr_exhausted,
    ) + permissions_line(print_errors, errors.no_permissions) + line_of(
        "Unknown Error: "@,
        errors.unknown_error,
    ) + line_of(
        "Could not get metadata for (subtrees not counted): "@,
        errors.metadata_unavailable,
    )
}

fn push_listed(out: &mut String, messages: &Vec<String>)
    ensures
        final(out)@ == old(out)@ + listed(string_views(messages@)),
{
    let ghost before = out@;
    let ghost views = string_views(messages@);
    let mut i: usize = 0;
    assert(views.take(0) =~= Seq::empty());
    assert(out@ =~= before + listed(views.take(0)));
    while i < messages.len()
        invariant
            i <= messages.len(),
            views == string_views(messages@),
            out@ == before + listed(views.take(i as int)),
        decreases messages.len() - i,
    {
        assert(views.take(i + 1).drop_last() =~= views.take(i as int));
        assert(views.take(i + 1).last() == messages@[i as int]@);
        if i > 0 {
            out.append(", ");
        }
        out.append(messages[i].as_str());
        assert(out@ =~= before + listed(views.take(i + 1)));
        i += 1;
    }
    assert(views.take(messages.len() as int) =~= views);
}

fn report_line(lines: &mut Vec<String>, start: &str, messages: &Messages)
    ensures
        string_views(final(lines)@) == string_views(old(lines)@) + line_of(start@, messages@),
{
    let ghost before = string_views(lines@);
    if messages.is_empty() {
        assert(before + line_of(start@, messages@) =~= before);
        return;
    }
    let mut line = start.to_string();
    push_listed(&mut line, messages.messages());
    lines.push(line);
    assert(string_views(lines@) =~= before + line_of(start@, messages@));
}

/// Reports what went wrong, line by line.
pub fn error_report(print_errors: bool, final_errors: &RuntimeErrors) -> (r: Vec<String>)
    ensures
        string_views(r@) == report(print_errors, final_errors@),
{
    let mut lines: Vec<String> = Vec::new();
    assert(string_views(lines@) =~= Seq::empty());
    report_line(&mut lines, "No such file or directory: ", &final_errors.file_not_found);
    report_line(&mut lines, "Not a directory: ", &final_errors.not_a_directory);
    report_line(
        &mut lines,
        "Gave up listing after repeated interruptions (subtrees not counted): ",
        &final_errors.eintr_exhausted,
    );
    let ghost before = string_views(lines@);
    if print_errors || final_errors.no_permissions.is_empty() {
        report_line(
            &mut lines,
            "Did not have permissions for directories: ",
            &final_errors.no_permissions,
        );
    } else {
        lines.push(
            "Did not have permissions for all directories (add --print-errors to see errors)".to_string(),
        );
        assert(string_views(lines@) =~= before + permissions_line(
            print_errors,
            final_errors@.no_permissions,
        ));
    }
    report_line(&mut lines, "Unknown Error: ", &final_errors.unknown_error);
    report_line(
        &mut lines,
        "Could not get metadata for (subtrees not counted): ",
        &final_errors.metadata_unavailable,
    );
    assert(string_views(lines@) =~= report(print_errors, final_errors@));
    lines
}

/// Tells whether the walk failed as a whole: nothing is shown, and an argument
/// could not be walked.
pub fn walk_failed(nothing_shown: bool, final_errors: &RuntimeErrors) -> (r: bool)
    ensures
        r == (nothing_shown && (final_errors@.file_not_found.len() > 0
            || final_errors@.not_a_directory.len() > 0 || final_errors@.eintr_exhausted.len() > 0)),
{
    nothing_shown && !(final_errors.file_not_found.is_empty()
        && final_errors.not_a_directory.is_empty() && final_errors.eintr_exhausted.is_empty())
}

} // verus!
