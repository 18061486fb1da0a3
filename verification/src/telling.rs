//! What is told of a walk: what went wrong, and how far it has come.

use vstd::prelude::*;

use crate::clock::{start_of_day, LocalInstants};
use crate::progress::{
    indexing_text, listed, preparing_text, report, wrapped_u64, wrapped_usize, ErrorsView,
};
use crate::size_text::{lemma_numeral, lemma_text_stands_for_size, numeral, stands_for};
use crate::startup::wants_color;
use crate::text::{decimal_text, lemma_decimal_round_trip};

verus! {

// --------------------------------------------------------------------------
// What went wrong
// --------------------------------------------------------------------------

/// One where there are messages, and else zero.
pub open spec fn is_told(messages: Seq<Seq<char>>) -> int {
    if messages.len() > 0 {
        1
    } else {
        0
    }
}

/// A text stands in another.
pub open spec fn stands_in(part: Seq<char>, text: Seq<char>) -> bool {
    exists|i: int|
        0 <= i <= text.len() - part.len() && #[trigger] text.subrange(i, i + part.len()) == part
}

/// Every message stands in the line that lists it.
pub proof fn lemma_every_message_is_listed(messages: Seq<Seq<char>>, k: int)
    requires
        0 <= k < messages.len(),
    ensures
        stands_in(messages[k], listed(messages)),
    decreases messages.len(),
{
    let all = listed(messages);
    let m = messages[k];
    if messages.len() == 1 {
        assert(all.subrange(0, 0 + m.len() as int) =~= m);
    } else if k == messages.len() - 1 {
        let i = all.len() - m.len();
        assert(all.subrange(i, i + m.len()) =~= m);
    } else {
        let rest = messages.drop_last();
        lemma_every_message_is_listed(rest, k);
        let before = listed(rest);
        let i = choose|i: int|
            0 <= i <= before.len() - m.len() && #[trigger] before.subrange(i, i + m.len()) == m;
        assert(all.subrange(i, i + m.len()) =~= before.subrange(i, i + m.len()));
    }
}

/// Each kind of trouble that there was is told in one line of its own, in this order,
/// and nothing else is: a walk without trouble has nothing to tell. Directories
/// without permission are named only where that is asked for.
pub proof fn lemma_report_tells_all(print_errors: bool, errors: ErrorsView)
    ensures
        ({
            let lines = report(print_errors, errors);
            let a = is_told(errors.file_not_found);
            let b = a + is_told(errors.not_a_directory);
            let c = b + is_told(errors.eintr_exhausted);
            let d = c + is_told(errors.no_permissions);
            let e = d + is_told(errors.unknown_error);
            &&& lines.len() == e + is_told(errors.metadata_unavailable)
            &&& errors.file_not_found.len() > 0 ==> lines[0] == "No such file or directory: "@
                + listed(errors.file_not_found)
            &&& errors.not_a_directory.len() > 0 ==> lines[a] == "Not a directory: "@ + listed(
                errors.not_a_directory,
            )
            &&& errors.eintr_exhausted.len() > 0 ==> lines[b]
                == "Gave up listing after repeated interruptions (subtrees not counted): "@
                + listed(errors.eintr_exhausted)
            &&& errors.no_permissions.len() > 0 && print_errors ==> lines[c]
                == "Did not have permissions for directories: "@ + listed(errors.no_permissions)
            &&& errors.no_permissions.len() > 0 && !print_errors ==> lines[c]
                == "Did not have permissions for all directories (add --print-errors to see errors)"@
            &&& errors.unknown_error.len() > 0 ==> lines[d] == "Unknown Error: "@ + listed(
                errors.unknown_error,
            )
            &&& errors.metadata_unavailable.len() > 0 ==> lines[e]
                == "Could not get metadata for (subtrees not counted): "@ + listed(
                errors.metadata_unavailable,
            )
        }),
{
}

// --------------------------------------------------------------------------
// How far a walk has come
// --------------------------------------------------------------------------

/// While a walk is under way, its path, the number of its files in decimal digits
/// and a text that stands for their size are shown, in this order, and the
/// character of the spinner comes last.
pub proof fn lemma_progress_shows_path_and_numbers(
    prog_char: char,
    path: Seq<char>,
    num_files: usize,
    size: u64,
    format: Seq<char>,
)
    ensures
        exists|count: Seq<char>, amount: Seq<char>|
            #[trigger] numeral(count) == num_files && #[trigger] stands_for(amount, size as int)
                && indexing_text(prog_char, path, num_files, size, format) == "Indexing: "@ + path
                + " "@ + count + " files, "@ + amount + " ... "@
                + seq![prog_char],
        exists|amount: Seq<char>| #[trigger]
            stands_for(amount, size as int) && preparing_text(prog_char, path, size, format)
                == "Preparing: "@ + path + " "@ + amount + " ... "@ + seq![prog_char],
{
    let count = decimal_text(num_files as nat);
    let amount = crate::display::readable_size(size, format);
    lemma_decimal_round_trip(num_files as nat);
    lemma_numeral(count);
    lemma_text_stands_for_size(size, format);
    let shown = indexing_text(prog_char, path, num_files, size, format);
    assert(shown =~= "Indexing: "@ + path + " "@ + count + " files, "@ + amount + " ... "@
        + seq![prog_char]);
    let prepared = preparing_text(prog_char, path, size, format);
    assert(prepared =~= "Preparing: "@ + path + " "@ + amount + " ... "@ + seq![prog_char]);
    assert(stands_for(amount, size as int) && numeral(count) == num_files);
}

/// Counters count: a sum that can be held is what is shown.
pub proof fn lemma_counters_count(a: int, b: int)
    requires
        0 <= a,
        0 <= b,
    ensures
        a + b <= usize::MAX ==> wrapped_usize(a + b) == a + b,
        a + b <= u64::MAX ==> wrapped_u64(a + b) == a + b,
{
}

// --------------------------------------------------------------------------
// Colors and days
// --------------------------------------------------------------------------

/// Colors that are forced are wanted whatever else is set; otherwise they are not
/// wanted where they are switched off, by argument or by variable, nor outside a
/// terminal, and wanted in all other cases.
pub proof fn lemma_colors(no_color: bool, no_color_is_set: bool, in_terminal: bool)
    ensures
        wants_color(no_color, true, no_color_is_set, in_terminal),
        !wants_color(true, false, no_color_is_set, in_terminal),
        !wants_color(no_color, false, true, in_terminal),
        !wants_color(no_color, false, no_color_is_set, false),
        wants_color(false, false, false, true),
{
}

/// A day starts where the clocks show midnight, the first time that they do, and
/// where they never do at midnight in UTC.
pub proof fn lemma_day_starts_at_midnight(a: i64, b: i64, utc: i64)
    ensures
        start_of_day(LocalInstants::Single(a), utc) == a,
        start_of_day(LocalInstants::Ambiguous(a, b), utc) == a,
        start_of_day(LocalInstants::Skipped, utc) == utc,
{
}

} // verus!
