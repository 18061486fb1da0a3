//! How names and sizes are written.

use vstd::prelude::*;
use vstd::utf8::encode_utf8;

use crate::path::{
    component_text, component_views, components_of, name_text, text_of_component, text_of_name,
    Component, PathBuf, PathView,
};
use crate::size_text::{
    asked_unit, fits_format, lemma_text_stands_for_size, lemma_unit_is_asked_for, stands_for,
};
use crate::text::{chars_of, decimal_text, escape, escaped_text, push_decimal};

verus! {

/// The bytes of a path that are shown: the last component alone where paths are
/// shortened and there is one below a root.
pub open spec fn shown_bytes(path: PathView, short_paths: bool) -> Seq<u8> {
    let parts = components_of(path);
    if short_paths && parts.len() > 0 && !(parts.last() is Prefix) && !(parts.last() is RootDir) {
        component_text(path.platform, parts.last())
    } else {
        path.text
    }
}

/// The name that a path is shown by.
pub open spec fn printable_name(path: PathView, short_paths: bool) -> Seq<char> {
    escaped_text(encode_utf8(name_text(path.platform, shown_bytes(path, short_paths))))
}

/// The name that a path is shown by: its last component or the whole of it,
/// with what is not printable escaped.
pub fn get_printable_name(dir_name: &PathBuf, short_paths: bool) -> (r: String)
    ensures
        r@ == printable_name(dir_name@, short_paths),
{
    let cs = dir_name.components();
    if short_paths && cs.len() > 0 {
        let last = &cs[cs.len() - 1];
        assert(component_views(cs@).last() == last@);
        match last {
            Component::Prefix(_) | Component::RootDir => {},
            _ => {
                let platform = dir_name.platform();
                let base = text_of_name(platform, &text_of_component(platform, last));
                return escape(base.as_str().as_bytes());
            },
        }
    }
    escape(dir_name.to_lossy().as_str().as_bytes())
}

// --------------------------------------------------------------------------
// Sizes
// --------------------------------------------------------------------------

/// What a thousand is in a format: 1000 in `si` and in a unit of several
/// letters without an `i`, and 1024 otherwise.
pub open spec fn thousand(format: Seq<char>) -> u64 {
    if format.len() > 1 && (format == seq!['s', 'i'] || !format.contains('i')) {
        1000
    } else {
        1024
    }
}

/// The letters of the units, from a thousand on.
pub open spec fn unit_letter(power: int) -> char {
    if power == 1 {
        'K'
    } else if power == 2 {
        'M'
    } else if power == 3 {
        'G'
    } else if power == 4 {
        'T'
    } else {
        'P'
    }
}

/// The power of a thousand that the letter of a unit stands for.
pub open spec fn letter_power(letter: char) -> Option<int> {
    if letter == 'b' {
        Some(0)
    } else if letter == 'k' {
        Some(1)
    } else if letter == 'm' {
        Some(2)
    } else if letter == 'g' {
        Some(3)
    } else if letter == 't' {
        Some(4)
    } else if letter == 'p' {
        Some(5)
    } else {
        None
    }
}

/// The bytes of the unit that is so many thousands of thousands.
pub open spec fn unit_size(thousand: u64, power: int) -> u64 {
    if power <= 0 {
        1
    } else if power == 1 {
        thousand
    } else if power == 2 {
        if thousand == 1000 {
            1_000_000
        } else {
            1_048_576
        }
    } else if power == 3 {
        if thousand == 1000 {
            1_000_000_000
        } else {
            1_073_741_824
        }
    } else if power == 4 {
        if thousand == 1000 {
            1_000_000_000_000
        } else {
            1_099_511_627_776
        }
    } else {
        if thousand == 1000 {
            1_000_000_000_000_000
        } else {
            1_125_899_906_842_624
        }
    }
}

/// Each unit is a thousand of the one before it.
pub proof fn lemma_unit_size(thousand: u64, power: int)
    requires
        thousand == 1000 || thousand == 1024,
        1 <= power <= 5,
    ensures
        unit_size(thousand, power) == thousand * unit_size(thousand, power - 1),
{
}

/// The number of bytes of the unit that a format starts with, and its letter.
pub open spec fn number_format(format: Seq<char>) -> Option<(u64, char)> {
    if format.len() == 0 {
        None
    } else {
        match letter_power(format[0]) {
            None => None,
            Some(power) => if power == 0 {
                Some((1, 'B'))
            } else {
                Some((unit_size(thousand(format), power), unit_letter(power)))
            },
        }
    }
}

fn thousand_of(format: &Vec<char>) -> (r: u64)
    ensures
        r == thousand(format@),
{
    if format.len() <= 1 {
        return 1024;
    }
    if format.len() == 2 && format[0] == 's' && format[1] == 'i' {
        assert(format@ =~= seq!['s', 'i']);
        return 1000;
    }
    assert(format@ != seq!['s', 'i']);
    let mut i: usize = 0;
    while i < format.len()
        invariant
            i <= format.len(),
            format.len() > 1,
            format@ != seq!['s', 'i'],
            forall|j: int| 0 <= j < i ==> format@[j] != 'i',
        decreases format.len() - i,
    {
        if format[i] == 'i' {
            assert(format@.contains(format@[i as int]));
            return 1024;
        }
        i += 1;
    }
    1000
}

fn power_of_letter(letter: char) -> (r: Option<u8>)
    ensures
        match r {
            Some(power) => letter_power(letter) == Some(power as int) && power <= 5,
            None => letter_power(letter) is None,
        },
{
    if letter == 'b' {
        Some(0)
    } else if letter == 'k' {
        Some(1)
    } else if letter == 'm' {
        Some(2)
    } else if letter == 'g' {
        Some(3)
    } else if letter == 't' {
        Some(4)
    } else if letter == 'p' {
        Some(5)
    } else {
        None
    }
}

fn size_of_unit(thousand: u64, power: u8) -> (r: u64)
    ensures
        r == unit_size(thousand, power as int),
        thousand > 0 ==> r > 0,
{
    if power == 0 {
        1
    } else if power == 1 {
        thousand
    } else if power == 2 {
        if thousand == 1000 {
            1_000_000
        } else {
            1_048_576
        }
    } else if power == 3 {
        if thousand == 1000 {
            1_000_000_000
        } else {
            1_073_741_824
        }
    } else if power == 4 {
        if thousand == 1000 {
            1_000_000_000_000
        } else {
            1_099_511_627_776
        }
    } else {
        if thousand == 1000 {
            1_000_000_000_000_000
        } else {
            1_125_899_906_842_624
        }
    }
}

fn letter_of_unit(power: u8) -> (r: char)
    ensures
        r == unit_letter(power as int),
{
    if power == 1 {
        'K'
    } else if power == 2 {
        'M'
    } else if power == 3 {
        'G'
    } else if power == 4 {
        'T'
    } else {
        'P'
    }
}

/// Reads the unit that a format starts with: the number of its bytes, and its
/// letter.
pub fn get_number_format(output_str: &str) -> (r: Option<(u64, char)>)
    ensures
        r == number_format(output_str@),
        r is Some <==> asked_unit(output_str@) > 0,
        r matches Some((unit, _)) ==> unit == asked_unit(output_str@),
{
    proof {
        lemma_unit_is_asked_for(output_str@);
    }
    let format = chars_of(output_str);
    if format.len() == 0 {
        return None;
    }
    match power_of_letter(format[0]) {
        None => None,
        Some(power) => if power == 0 {
            Some((1, 'B'))
        } else {
            Some((size_of_unit(thousand_of(&format), power), letter_of_unit(power)))
        },
    }
}

/// The nearest whole number to a quotient; halves are rounded up.
pub open spec fn rounded(amount: int, unit: int) -> nat {
    ((amount + unit / 2) / unit) as nat
}

/// The name of a unit: its letter, with an `i` where a thousand is 1024.
pub open spec fn unit_name(thousand: u64, letter: char) -> Seq<char> {
    if thousand == 1024 && letter != 'B' {
        seq![letter, 'i']
    } else {
        seq![letter]
    }
}

/// A size in a unit, with one digit behind the point where it is below ten.
/// What rounds up to a thousand is shown as one of the next unit.
pub open spec fn size_in_unit(size: u64, thousand: u64, power: int) -> Seq<char> {
    let unit = unit_size(thousand, power) as int;
    let tenths = rounded(size * 10, unit);
    let whole = rounded(size as int, unit);
    if tenths < 100 {
        decimal_text(tenths / 10).push('.') + decimal_text(tenths % 10) + unit_name(
            thousand,
            unit_letter(power),
        )
    } else if whole >= thousand && power < 5 {
        seq!['1', '.', '0'] + unit_name(thousand, unit_letter(power + 1))
    } else {
        decimal_text(whole) + unit_name(thousand, unit_letter(power))
    }
}

/// The greatest power of a thousand whose unit is not larger than a size.
pub open spec fn greatest_power(size: u64, thousand: u64) -> int {
    if size >= unit_size(thousand, 5) {
        5
    } else if size >= unit_size(thousand, 4) {
        4
    } else if size >= unit_size(thousand, 3) {
        3
    } else if size >= unit_size(thousand, 2) {
        2
    } else if size >= thousand {
        1
    } else {
        0
    }
}

/// A size as it is shown: in the unit of the format, or in the greatest that is
/// not larger than the size.
pub open spec fn readable_size(size: u64, format: Seq<char>) -> Seq<char> {
    let power = greatest_power(size, thousand(format));
    match number_format(format) {
        Some((unit, letter)) => decimal_text(rounded(size as int, unit as int)) + unit_name(
            thousand(format),
            letter,
        ),
        None => if power == 0 {
            decimal_text(size as nat).push('B')
        } else {
            size_in_unit(size, thousand(format), power)
        },
    }
}

fn round(amount: u128, unit: u64) -> (r: u128)
    requires
        unit > 0,
        amount <= 0xffff_ffff_ffff_ffff_ffff,
    ensures
        r == rounded(amount as int, unit as int),
{
    (amount + (unit / 2) as u128) / unit as u128
}

fn push_unit(out: &mut String, thousand: u64, letter: char)
    ensures
        final(out)@ == old(out)@ + unit_name(thousand, letter),
{
    let ghost before = out@;
    out.push(letter);
    if thousand == 1024 && letter != 'B' {
        out.push('i');
    }
    assert(out@ =~= before + unit_name(thousand, letter));
}

/// Writes a size as it is shown.
pub fn human_readable_number(size: u64, output_str: &str) -> (r: String)
    ensures
        r@ == readable_size(size, output_str@),
        stands_for(r@, size as int),
        fits_format(r@, size as int, output_str@),
{
    proof {
        lemma_text_stands_for_size(size, output_str@);
    }
    let format = chars_of(output_str);
    let thousand = thousand_of(&format);
    let mut out = String::new();
    assert(out@ =~= Seq::empty());
    if let Some((unit, letter)) = get_number_format(output_str) {
        push_decimal(&mut out, round(size as u128, unit));
        push_unit(&mut out, thousand, letter);
        assert(out@ =~= readable_size(size, output_str@));
        return out;
    }
    let mut power: u8 = 5;
    while power > 0 && size < size_of_unit(thousand, power)
        invariant
            power <= 5,
            thousand == 1000 || thousand == 1024,
            forall|p: int| power < p <= 5 ==> size < #[trigger] unit_size(thousand, p),
        decreases power,
    {
        power -= 1;
    }
    assert(greatest_power(size, thousand) == power) by {
        assert(power < 5 ==> size < unit_size(thousand, 5));
        assert(power < 4 ==> size < unit_size(thousand, 4));
        assert(power < 3 ==> size < unit_size(thousand, 3));
        assert(power < 2 ==> size < unit_size(thousand, 2));
        assert(power < 1 ==> size < unit_size(thousand, 1));
    }
    if power == 0 {
        push_decimal(&mut out, size as u128);
        out.push('B');
        assert(out@ =~= readable_size(size, output_str@));
        return out;
    }
    let unit = size_of_unit(thousand, power);
    let tenths = round(size as u128 * 10, unit);
    let whole = round(size as u128, unit);
    if tenths < 100 {
        push_decimal(&mut out, tenths / 10);
        out.push('.');
        push_decimal(&mut out, tenths % 10);
        push_unit(&mut out, thousand, letter_of_unit(power));
    } else if whole >= thousand as u128 && power < 5 {
        out.push('1');
        out.push('.');
        out.push('0');
        push_unit(&mut out, thousand, letter_of_unit(power + 1));
    } else {
        push_decimal(&mut out, whole);
        push_unit(&mut out, thousand, letter_of_unit(power));
    }
    assert(out@ =~= readable_size(size, output_str@));
    out
}

} // verus!
