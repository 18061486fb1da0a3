//! What the texts of settings mean: ages in days, and sizes.

use vstd::arithmetic::div_mod::{lemma_fundamental_div_mod, lemma_mod_bound};
use vstd::prelude::*;

use crate::config::{
    digit_run, filter_days, filter_of, first_given, is_letter, least_size, lemma_ten_to_grows,
    min_size_value, size_parts, ten_to, unit_bytes, unsigned_part, InvalidMinSize, SizeParts,
    TimeFilterError,
};
use crate::determinism::names_differ;
use crate::dir_walker::{passed_over, Operator, WalkData};
use crate::display_node::DisplayNodeView;
use crate::exclusion::{is_asked_for, lemma_each_time_filter_holds};
use crate::filter::{first_pool, shows, AggregateData};
use crate::node::{EntryMetadata, NodeView};
use crate::path::{PathBuf, PathView};
use crate::selection::{all_below, lemma_options_keep_out};
use crate::size_text::{asked_unit, lemma_numeral, lemma_unit_is_asked_for, numeral};
use crate::text::{decimal_text, decimal_value, is_digit, lemma_decimal_round_trip, lower_char};

verus! {

// --------------------------------------------------------------------------
// Ages
// --------------------------------------------------------------------------

/// There are digits, and nothing else.
pub open spec fn is_number(digits: Seq<char>) -> bool {
    digits.len() > 0 && forall|i: int|
        0 <= i < digits.len() ==> '0' <= #[trigger] digits[i] && digits[i] <= '9'
}

proof fn lemma_days(text: Seq<char>, digits: Seq<char>)
    requires
        is_number(digits),
        text == digits || (text.len() > 0 && (text[0] == '+' || text[0] == '-') && text.skip(1)
            == digits),
    ensures
        unsigned_part(text) == digits,
        decimal_value(digits) == numeral(digits),
        filter_days(text) == (if numeral(digits) <= i64::MAX || (text[0] == '-' && numeral(digits)
            == i64::MAX + 1) {
            Some(numeral(digits))
        } else {
            None
        }),
{
    assert(is_digit(digits[0]));
    assert forall|i: int| 0 <= i < digits.len() implies is_digit(#[trigger] digits[i]) by {}
    lemma_numeral(digits);
}

/// A number of days asks for what was touched on the day that lies so many days
/// before the start of today, `+` and a number for what is older than that day or
/// started with it, and `-` and a number for what is not older than so many days.
pub proof fn lemma_age_is_counted_in_days(digits: Seq<char>, today: i64, time: i64)
    requires
        is_number(digits),
        today - (numeral(digits) + 1) * 86400 >= i64::MIN,
        numeral(digits) * 86400 <= i64::MAX,
    ensures
        filter_of(digits, today) matches Ok(filter) && is_asked_for(Some(filter), time) == (today - (
        numeral(digits) + 1) * 86400 <= time < today - numeral(digits) * 86400),
        filter_of(seq!['+'] + digits, today) matches Ok(filter) && is_asked_for(
            Some(filter),
            time,
        ) == (time <= today - (numeral(digits) + 1) * 86400),
        filter_of(seq!['-'] + digits, today) matches Ok(filter) && is_asked_for(
            Some(filter),
            time,
        ) == (today - numeral(digits) * 86400 <= time),
{
    assert((seq!['+'] + digits).skip(1) =~= digits);
    assert((seq!['-'] + digits).skip(1) =~= digits);
    assert(numeral(digits) >= 0) by {
        lemma_days(digits, digits);
    }
    lemma_days(digits, digits);
    lemma_days(seq!['+'] + digits, digits);
    lemma_days(seq!['-'] + digits, digits);
    assert(digits[0] != '+' && digits[0] != '-');
    assert((seq!['+'] + digits)[0] == '+');
    assert((seq!['-'] + digits)[0] == '-');
}

/// Every time is asked for by a number of days, by the number after `-` or by the
/// number after `+`; by the number alone and after `-` never at once, and by the
/// number alone and after `+` only at the very start of the day.
pub proof fn lemma_ages_cover_all_times(digits: Seq<char>, today: i64, time: i64)
    requires
        is_number(digits),
        today - (numeral(digits) + 1) * 86400 >= i64::MIN,
        numeral(digits) * 86400 <= i64::MAX,
    ensures
        ({
            let on = is_asked_for(Some(filter_of(digits, today)->Ok_0), time);
            let before = is_asked_for(Some(filter_of(seq!['+'] + digits, today)->Ok_0), time);
            let since = is_asked_for(Some(filter_of(seq!['-'] + digits, today)->Ok_0), time);
            &&& on || before || since
            &&& !(on && since)
            &&& !(before && since)
            &&& on && before ==> !is_asked_for(
                Some(filter_of(seq!['+'] + digits, today)->Ok_0),
                (time + 1) as i64,
            )
        }),
{
    lemma_age_is_counted_in_days(digits, today, time);
    lemma_age_is_counted_in_days(digits, today, (time + 1) as i64);
}

/// A text that is no number, with or without a sign, is refused as no number of
/// days, and so is one that is too large for a number; a day before all timestamps
/// is refused as such.
pub proof fn lemma_odd_ages_are_refused(text: Seq<char>, today: i64)
    ensures
        !is_number(text) && !(text.len() > 0 && (text[0] == '+' || text[0] == '-') && is_number(
            text.skip(1),
        )) ==> filter_of(text, today) == Err::<(Operator, i64), _>(TimeFilterError::Invalid),
        is_number(text) && numeral(text) > i64::MAX ==> filter_of(text, today) == Err::<
            (Operator, i64),
            _,
        >(TimeFilterError::Invalid),
        is_number(text) && numeral(text) <= i64::MAX && today - (numeral(text) + 1) * 86400
            < i64::MIN ==> filter_of(text, today) == Err::<(Operator, i64), _>(
            TimeFilterError::OutOfRange,
        ),
        text.len() > 0 && text[0] == '+' && is_number(text.skip(1)) ==> {
            let days = numeral(text.skip(1));
            &&& days > i64::MAX ==> filter_of(text, today) == Err::<(Operator, i64), _>(
                TimeFilterError::Invalid,
            )
            &&& days <= i64::MAX && today - (days + 1) * 86400 < i64::MIN ==> filter_of(text, today)
                == Err::<(Operator, i64), _>(TimeFilterError::OutOfRange)
        },
        text.len() > 0 && text[0] == '-' && is_number(text.skip(1)) ==> {
            let days = numeral(text.skip(1));
            &&& days > i64::MAX + 1 ==> filter_of(text, today) == Err::<(Operator, i64), _>(
                TimeFilterError::Invalid,
            )
            &&& days <= i64::MAX + 1 && today - days * 86400 < i64::MIN ==> filter_of(text, today)
                == Err::<(Operator, i64), _>(TimeFilterError::OutOfRange)
        },
{
    let digits = unsigned_part(text);
    if text.len() > 0 && (text[0] == '+' || text[0] == '-') && is_number(text.skip(1)) {
        lemma_days(text, text.skip(1));
    }
    if is_number(text) {
        lemma_days(text, text);
        assert(text[0] != '+' && text[0] != '-');
    } else if !(text.len() > 0 && (text[0] == '+' || text[0] == '-') && is_number(text.skip(1))) {
        assert(!is_number(digits));
        if digits.len() > 0 {
            let i = choose|i: int|
                0 <= i < digits.len() && !('0' <= #[trigger] digits[i] && digits[i] <= '9');
            assert(!is_digit(digits[i]));
        }
    }
}

// --------------------------------------------------------------------------
// Sizes
// --------------------------------------------------------------------------

/// The bytes of a unit that is named by its letters, in upper or lower case; one
/// where there are no letters, and zero where there is no such unit.
pub open spec fn bytes_named(unit: Seq<char>) -> int {
    if unit.len() == 0 {
        1
    } else {
        asked_unit(unit.map_values(|c: char| lower_char(c)))
    }
}

/// There are letters of ASCII, and nothing else.
pub open spec fn are_letters(unit: Seq<char>) -> bool {
    forall|i: int|
        0 <= i < unit.len() ==> (('a' <= #[trigger] unit[i] && unit[i] <= 'z') || ('A' <= unit[i]
            && unit[i] <= 'Z'))
}

proof fn lemma_digit_run(text: Seq<char>, i: int, n: int)
    requires
        0 <= i,
        0 <= n,
        i + n <= text.len(),
        forall|j: int| i <= j < i + n ==> is_digit(#[trigger] text[j]),
        i + n < text.len() ==> !is_digit(text[i + n]),
    ensures
        digit_run(text, i) == n,
    decreases n,
{
    if n > 0 {
        assert(is_digit(text[i]));
        lemma_digit_run(text, i + 1, n - 1);
    }
}

proof fn lemma_bytes_named(unit: Seq<char>)
    ensures
        unit_bytes(unit) == (if bytes_named(unit) > 0 {
            Some(bytes_named(unit))
        } else {
            None
        }),
{
    lemma_unit_is_asked_for(unit.map_values(|c: char| lower_char(c)));
}

proof fn lemma_parts(text: Seq<char>, whole: Seq<char>, fraction: Seq<char>, unit: Seq<char>)
    requires
        is_number(whole),
        are_letters(unit),
        fraction.len() == 0 || is_number(fraction),
        text == (if fraction.len() == 0 {
            whole + unit
        } else {
            whole + seq!['.'] + fraction + unit
        }),
    ensures
        size_parts(text) == Some(SizeParts { whole, fraction, unit }),
        decimal_value(whole) == numeral(whole),
        decimal_value(fraction) == numeral(fraction),
{
    let n = whole.len() as int;
    let m = fraction.len() as int;
    assert forall|j: int| 0 <= j < n implies is_digit(#[trigger] text[j]) by {
        assert(text[j] == whole[j]);
    }
    assert forall|j: int| 0 <= j < n implies is_digit(#[trigger] whole[j]) by {}
    assert forall|j: int| 0 <= j < m implies is_digit(#[trigger] fraction[j]) by {}
    lemma_numeral(whole);
    lemma_numeral(fraction);
    if m == 0 {
        assert(n < text.len() ==> text[n] == unit[0]);
        lemma_digit_run(text, 0, n);
        assert forall|i: int| n <= i < text.len() implies is_letter(#[trigger] text[i]) by {
            assert(text[i] == unit[i - n]);
        }
        assert(n < text.len() ==> text[n] != '.');
        assert(text.take(n) =~= whole);
        assert(text.skip(n) =~= unit);
        assert(fraction =~= Seq::empty());
    } else {
        let end = n + 1 + m;
        assert(text[n] == '.');
        lemma_digit_run(text, 0, n);
        assert forall|j: int| n + 1 <= j < end implies is_digit(#[trigger] text[j]) by {
            assert(text[j] == fraction[j - n - 1]);
        }
        assert(end < text.len() ==> text[end] == unit[0]);
        lemma_digit_run(text, n + 1, m);
        assert forall|i: int| end <= i < text.len() implies is_letter(#[trigger] text[i]) by {
            assert(text[i] == unit[i - end]);
        }
        assert(text.take(n) =~= whole);
        assert(text.subrange(n + 1, end) =~= fraction);
        assert(text.skip(end) =~= unit);
    }
}

/// A number and a unit stand for so many times the bytes of the unit, if that can
/// be held; a number alone stands for itself.
pub proof fn lemma_whole_size(whole: Seq<char>, unit: Seq<char>)
    requires
        is_number(whole),
        are_letters(unit),
    ensures
        min_size_value(whole + unit) == (if bytes_named(unit) > 0 && numeral(whole) * bytes_named(
            unit,
        ) <= usize::MAX {
            Some((numeral(whole) * bytes_named(unit)) as usize)
        } else {
            None
        }),
{
    lemma_parts(whole + unit, whole, Seq::empty(), unit);
    lemma_bytes_named(unit);
}

/// A number with digits behind the point stands for the nearest number of bytes to
/// what it says, and of two as near for the greater.
pub proof fn lemma_broken_size(whole: Seq<char>, fraction: Seq<char>, unit: Seq<char>)
    requires
        is_number(whole),
        is_number(fraction),
        are_letters(unit),
        bytes_named(unit) > 0,
        // nothing is too large to be counted with
        ten_to(fraction.len()) <= u64::MAX,
        (numeral(whole) + 1) * bytes_named(unit) <= usize::MAX,
    ensures
        ({
            let said = (numeral(whole) * ten_to(fraction.len()) + numeral(fraction)) * bytes_named(
                unit,
            );
            min_size_value(whole + seq!['.'] + fraction + unit) matches Some(size) && -ten_to(
                fraction.len(),
            ) < 2 * size * ten_to(fraction.len()) - 2 * said <= ten_to(fraction.len())
        }),
{
    let text = whole + seq!['.'] + fraction + unit;
    let u = bytes_named(unit);
    let parts = ten_to(fraction.len()) as int;
    let (w, f) = (numeral(whole), numeral(fraction));
    lemma_parts(text, whole, fraction, unit);
    lemma_bytes_named(unit);
    lemma_numeral_is_small(fraction);
    lemma_ten_to_grows(1, fraction.len());
    assert(ten_to(1) == 10 * ten_to(0));
    lemma_ten_to_is_even(fraction.len());
    assert(0 <= w) by {
        assert(w == decimal_value(whole));
    }
    assert(0 <= f * u && f * u < parts * u && u <= u64::MAX) by (nonlinear_arith)
        requires
            0 <= f < parts,
            0 < u,
            0 <= w,
            (w + 1) * u <= usize::MAX,
    ;
    assert(parts * u <= u64::MAX * u64::MAX) by (nonlinear_arith)
        requires
            0 < parts <= u64::MAX,
            0 < u <= u64::MAX,
    ;
    let x = f * u + parts / 2;
    let q = x / parts;
    lemma_fundamental_div_mod(x, parts);
    lemma_mod_bound(x, parts);
    assert(q <= u) by (nonlinear_arith)
        requires
            f * u + parts / 2 == parts * q + x % parts,
            0 <= x % parts,
            f * u < parts * u,
            0 < parts,
    ;
    assert(0 <= q) by (nonlinear_arith)
        requires
            q == x / parts,
            0 <= x,
            0 < parts,
    ;
    assert(w * u + q <= usize::MAX) by (nonlinear_arith)
        requires
            q <= u,
            (w + 1) * u <= usize::MAX,
    ;
    assert(0 <= w * u) by (nonlinear_arith)
        requires
            0 <= w,
            0 < u,
    ;
    let size = w * u + q;
    assert(min_size_value(text) == Some(size as usize));
    assert(2 * size * parts - 2 * ((w * parts + f) * u) == 2 * (parts * q) - 2 * (f * u))
        by (nonlinear_arith)
        requires
            size == w * u + q,
    ;
}

proof fn lemma_numeral_is_small(digits: Seq<char>)
    requires
        forall|i: int|
            0 <= i < digits.len() ==> '0' <= #[trigger] digits[i] && digits[i] <= '9',
    ensures
        0 <= numeral(digits) < ten_to(digits.len()),
    decreases digits.len(),
{
    if digits.len() > 0 {
        let rest = digits.drop_last();
        assert forall|i: int| 0 <= i < rest.len() implies '0' <= #[trigger] rest[i] && rest[i]
            <= '9' by {
            assert(rest[i] == digits[i]);
        }
        lemma_numeral_is_small(rest);
        assert(digits.last() == digits[digits.len() - 1]);
    }
}

proof fn lemma_ten_to_is_even(n: nat)
    requires
        n > 0,
    ensures
        ten_to(n) % 2 == 0,
{
    assert(ten_to(n) == 10 * ten_to((n - 1) as nat));
}

/// What does not start with a digit stands for no size, nor does a number with
/// something behind it that is neither a point and digits nor letters.
pub proof fn lemma_odd_sizes_are_refused(text: Seq<char>, i: int)
    ensures
        text.len() == 0 || !('0' <= text[0] && text[0] <= '9') ==> min_size_value(text) is None,
        0 <= i < text.len() && !('0' <= text[i] && text[i] <= '9') && text[i] != '.' && !(('a'
            <= text[i] && text[i] <= 'z') || ('A' <= text[i] && text[i] <= 'Z'))
            ==> min_size_value(text) is None,
{
    crate::config::lemma_digit_run(text, 0);
    let n = digit_run(text, 0);
    let m = if n < text.len() && text[n] == '.' {
        digit_run(text, n + 1)
    } else {
        0
    };
    if n < text.len() && text[n] == '.' {
        crate::config::lemma_digit_run(text, n + 1);
    }
    let end = if m > 0 {
        n + 1 + m
    } else {
        n
    };
    if 0 <= i < text.len() && !('0' <= text[i] && text[i] <= '9') && text[i] != '.' && !is_letter(
        text[i],
    ) {
        assert(!is_digit(text[i]));
        if i < end {
            assert(i < n ==> is_digit(text[i]));
        } else {
            assert(!is_letter(text[i]));
        }
    }
}

/// The number of bytes of a size, written out, is read as that size.
pub proof fn lemma_bytes_are_read_back(n: nat)
    requires
        n <= usize::MAX,
    ensures
        min_size_value(decimal_text(n)) == Some(n as usize),
{
    let digits = decimal_text(n);
    lemma_decimal_round_trip(n);
    lemma_numeral(digits);
    assert forall|i: int| 0 <= i < digits.len() implies '0' <= #[trigger] digits[i] && digits[i]
        <= '9' by {
        assert(is_digit(digits[i]));
    }
    lemma_whole_size(digits, Seq::empty());
    assert(digits + Seq::<char>::empty() =~= digits);
}

/// A size on the command line is the one that holds, whatever is configured, and
/// one that is none is refused; a configured one that is none is as good as none.
pub proof fn lemma_given_size_wins(
    given: Seq<char>,
    configured: Option<Seq<char>>,
    other: Option<Seq<char>>,
)
    ensures
        least_size(Some(given), configured) == least_size(Some(given), other),
        min_size_value(given) matches Some(size) ==> least_size(Some(given), configured) == Ok::<
            _,
            InvalidMinSize,
        >(Some(size)),
        min_size_value(given) is None ==> least_size(Some(given), configured) == Err::<
            Option<usize>,
            _,
        >(InvalidMinSize),
        least_size(None, Some(given)) == Ok::<_, InvalidMinSize>(min_size_value(given)),
        least_size(None, None) == Ok::<Option<usize>, InvalidMinSize>(None),
{
}

// --------------------------------------------------------------------------
// Who wins
// --------------------------------------------------------------------------

/// What is given on the command line wins over what is configured, and what is
/// configured holds where nothing is given.
pub proof fn lemma_command_line_wins<T>(given: T, configured: Option<T>)
    ensures
        first_given(Some(given), configured) == Some(given),
        first_given(None, configured) == configured,
{
}

/// Upper-case letters of ASCII become the lower-case ones, each 32 further on, and
/// nothing else changes.
pub proof fn lemma_lower_letters(c: char)
    ensures
        'A' <= c && c <= 'Z' ==> lower_char(c) as u32 == c as u32 + 32,
        !('A' <= c && c <= 'Z') ==> lower_char(c) == c,
{
}

// --------------------------------------------------------------------------
// What settings do
// --------------------------------------------------------------------------

/// With `-` and a number of days as the filter for modification times, a file that
/// was last modified before so many days ago is left out; with `+` one that was
/// modified since the start of the day before them; with the number alone one that
/// was modified before that day or after it.
pub proof fn lemma_files_of_other_days_are_left_out(
    walk_data: &WalkData,
    digits: Seq<char>,
    today: i64,
    path: PathView,
    data: EntryMetadata,
    canonical_dir: Option<PathView>,
    resolved: Option<PathView>,
)
    requires
        is_number(digits),
        today - (numeral(digits) + 1) * 86400 >= i64::MIN,
        numeral(digits) * 86400 <= i64::MAX,
    ensures
        ({
            let start = today - (numeral(digits) + 1) * 86400;
            let end = today - numeral(digits) * 86400;
            let time = data.2.0;
            let is_out = passed_over(walk_data, path, true, Some(data), canonical_dir, resolved);
            let filter = walk_data.filter_modified_time;
            &&& filter == Some(filter_of(seq!['-'] + digits, today)->Ok_0) && time < end ==> is_out
            &&& filter == Some(filter_of(seq!['+'] + digits, today)->Ok_0) && time > start
                ==> is_out
            &&& filter == Some(filter_of(digits, today)->Ok_0) && !(start <= time < end) ==> is_out
        }),
{
    lemma_age_is_counted_in_days(digits, today, data.2.0);
    lemma_each_time_filter_holds(walk_data, path, data, canonical_dir, resolved);
}

/// With a number and a unit as the least size, every node that is shown below the
/// root is larger than so many times the unit.
pub proof fn lemma_least_size_holds(
    options: &AggregateData,
    keep_collapsed: Seq<PathBuf>,
    root: NodeView,
    roots: int,
    tree: DisplayNodeView,
    whole: Seq<char>,
    unit: Seq<char>,
)
    requires
        is_number(whole),
        are_letters(unit),
        bytes_named(unit) > 0,
        numeral(whole) * bytes_named(unit) <= usize::MAX,
        options.min_size == min_size_value(whole + unit),
        shows(options, keep_collapsed, first_pool(options, root, roots), root, tree),
        options.only_file || names_differ(root.children),
    ensures
        all_below(
            tree,
            |d: DisplayNodeView| d.size > (numeral(whole) * bytes_named(unit)) as usize,
        ),
{
    lemma_whole_size(whole, unit);
    lemma_options_keep_out(options, keep_collapsed, root, roots, tree);
}

} // verus!
