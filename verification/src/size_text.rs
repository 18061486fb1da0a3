//! What the text of a size says: it is read back to the size that it stands for.

use vstd::arithmetic::div_mod::{lemma_fundamental_div_mod, lemma_mod_bound};
use vstd::prelude::*;

use crate::display::{
    greatest_power, number_format, readable_size, rounded, size_in_unit, thousand, unit_letter,
    unit_name, unit_size,
};
use crate::text::{decimal_text, decimal_value, is_digit, lemma_decimal_round_trip};

verus! {

// --------------------------------------------------------------------------
// Reading
// --------------------------------------------------------------------------

/// The number that decimal digits are read as.
pub open spec fn numeral(digits: Seq<char>) -> int
    decreases digits.len(),
{
    if digits.len() == 0 {
        0
    } else {
        10 * numeral(digits.drop_last()) + (digits.last() as u32 - 48)
    }
}

/// How many digits a text starts with.
pub open spec fn digits_at_start(text: Seq<char>) -> int
    decreases text.len(),
{
    if text.len() > 0 && '0' <= text[0] <= '9' {
        1 + digits_at_start(text.skip(1))
    } else {
        0
    }
}

/// The bytes that the name of a unit stands for; zero where it is none.
pub open spec fn bytes_of_name(name: Seq<char>) -> int {
    if name.len() == 1 && name[0] == 'B' {
        1
    } else if name.len() == 1 && name[0] == 'K' {
        1_000
    } else if name.len() == 1 && name[0] == 'M' {
        1_000_000
    } else if name.len() == 1 && name[0] == 'G' {
        1_000_000_000
    } else if name.len() == 1 && name[0] == 'T' {
        1_000_000_000_000
    } else if name.len() == 1 && name[0] == 'P' {
        1_000_000_000_000_000
    } else if name.len() == 2 && name[0] == 'K' && name[1] == 'i' {
        1_024
    } else if name.len() == 2 && name[0] == 'M' && name[1] == 'i' {
        1_048_576
    } else if name.len() == 2 && name[0] == 'G' && name[1] == 'i' {
        1_073_741_824
    } else if name.len() == 2 && name[0] == 'T' && name[1] == 'i' {
        1_099_511_627_776
    } else if name.len() == 2 && name[0] == 'P' && name[1] == 'i' {
        1_125_899_906_842_624
    } else {
        0
    }
}

/// What the text of a size says.
pub struct SizeRead {
    /// The number, in tenths.
    pub tenths: int,
    /// A digit stands behind a point.
    pub has_point: bool,
    /// The bytes of the unit.
    pub unit: int,
}

/// Reads the text of a size: digits, maybe a point and a digit behind it, and
/// the name of a unit.
pub open spec fn read_size(text: Seq<char>) -> SizeRead {
    let n = digits_at_start(text);
    let rest = text.skip(n);
    if rest.len() > 1 && rest[0] == '.' {
        SizeRead {
            tenths: 10 * numeral(text.take(n)) + numeral(rest.subrange(1, 2)),
            has_point: true,
            unit: bytes_of_name(rest.skip(2)),
        }
    } else {
        SizeRead {
            tenths: 10 * numeral(text.take(n)),
            has_point: false,
            unit: bytes_of_name(rest),
        }
    }
}

/// The text stands for the size: what it says differs from the size by at most
/// half a unit of the last digit that it shows. Where two texts are as near, it is
/// the one that says more.
pub open spec fn stands_for(text: Seq<char>, size: int) -> bool {
    let said = read_size(text);
    &&& digits_at_start(text) > 0
    &&& said.unit > 0
    &&& if said.has_point {
        // a twentieth of the unit
        -said.unit < 2 * said.tenths * said.unit - 20 * size <= said.unit
    } else if said.unit == 1 {
        said.tenths == 10 * size
    } else {
        // half of the unit
        -10 * said.unit < 2 * said.tenths * said.unit - 20 * size <= 10 * said.unit
    }
}

/// What a thousand is where sizes are written in this format.
pub open spec fn base_of(format: Seq<char>) -> int {
    if format == seq!['s', 'i'] {
        1000
    } else if format.len() >= 2 && forall|i: int| 0 <= i < format.len() ==> format[i] != 'i' {
        1000
    } else {
        1024
    }
}

/// A number multiplied with itself so many times.
pub open spec fn times(base: int, n: nat) -> int
    decreases n,
{
    if n == 0 {
        1
    } else {
        base * times(base, (n - 1) as nat)
    }
}

/// The bytes of the unit that a format asks for; zero where it asks for none.
pub open spec fn asked_unit(format: Seq<char>) -> int {
    if format.len() == 0 {
        0
    } else if format[0] == 'b' {
        1
    } else if format[0] == 'k' {
        base_of(format)
    } else if format[0] == 'm' {
        times(base_of(format), 2)
    } else if format[0] == 'g' {
        times(base_of(format), 3)
    } else if format[0] == 't' {
        times(base_of(format), 4)
    } else if format[0] == 'p' {
        times(base_of(format), 5)
    } else {
        0
    }
}

/// The unit that a text shows is the one that a format wants.
pub open spec fn fits_format(text: Seq<char>, size: int, format: Seq<char>) -> bool {
    let said = read_size(text);
    let base = base_of(format);
    if asked_unit(format) > 0 {
        said.unit == asked_unit(format) && !said.has_point
    } else if size < base {
        said.unit == 1 && !said.has_point
    } else {
        &&& exists|n: nat| 1 <= n <= 5 && said.unit == #[trigger] times(base, n)
        // there is a digit behind the point below ten, and only there
        &&& said.has_point <==> said.tenths < 100
        // the number is at least one, and less than a thousand of any unit but the last
        &&& 10 <= said.tenths
        &&& said.tenths < 10 * base || said.unit == times(base, 5)
    }
}

// --------------------------------------------------------------------------
// Written sizes are read back
// --------------------------------------------------------------------------

pub(crate) proof fn lemma_numeral(digits: Seq<char>)
    requires
        forall|i: int| 0 <= i < digits.len() ==> is_digit(#[trigger] digits[i]),
    ensures
        numeral(digits) == decimal_value(digits),
    decreases digits.len(),
{
    if digits.len() > 0 {
        let rest = digits.drop_last();
        assert forall|i: int| 0 <= i < rest.len() implies is_digit(#[trigger] rest[i]) by {
            assert(rest[i] == digits[i]);
        }
        lemma_numeral(rest);
        assert(is_digit(digits[digits.len() - 1]));
    }
}

proof fn lemma_digits_at_start(digits: Seq<char>, rest: Seq<char>)
    requires
        forall|i: int| 0 <= i < digits.len() ==> is_digit(#[trigger] digits[i]),
        rest.len() == 0 || !is_digit(rest[0]),
    ensures
        digits_at_start(digits + rest) == digits.len(),
    decreases digits.len(),
{
    let text = digits + rest;
    if digits.len() > 0 {
        let fewer = digits.skip(1);
        assert(is_digit(digits[0]));
        assert forall|i: int| 0 <= i < fewer.len() implies is_digit(#[trigger] fewer[i]) by {
            assert(fewer[i] == digits[i + 1]);
        }
        lemma_digits_at_start(fewer, rest);
        assert(text.skip(1) =~= fewer + rest);
        assert(text[0] == digits[0]);
        assert(digits_at_start(text) == 1 + digits_at_start(fewer + rest));
    } else {
        assert(text =~= rest);
    }
}

/// A number and the name of a unit are read back.
pub proof fn lemma_whole_read_back(n: nat, name: Seq<char>)
    requires
        name.len() > 0,
        !is_digit(name[0]),
        name[0] != '.',
    ensures
        read_size(decimal_text(n) + name) == (SizeRead {
            tenths: 10 * n as int,
            has_point: false,
            unit: bytes_of_name(name),
        }),
        digits_at_start(decimal_text(n) + name) > 0,
{
    let digits = decimal_text(n);
    let text = digits + name;
    lemma_decimal_round_trip(n);
    lemma_numeral(digits);
    lemma_digits_at_start(digits, name);
    assert(text.take(digits.len() as int) =~= digits);
    assert(text.skip(digits.len() as int) =~= name);
}

/// A number, a digit behind the point and the name of a unit are read back.
pub proof fn lemma_tenths_read_back(n: nat, tenth: nat, name: Seq<char>)
    requires
        tenth < 10,
    ensures
        read_size(decimal_text(n).push('.') + decimal_text(tenth) + name) == (SizeRead {
            tenths: 10 * (n as int) + tenth,
            has_point: true,
            unit: bytes_of_name(name),
        }),
        digits_at_start(decimal_text(n).push('.') + decimal_text(tenth) + name) > 0,
{
    let digits = decimal_text(n);
    let last = decimal_text(tenth);
    let text = digits.push('.') + last + name;
    let rest = seq!['.'] + last + name;
    lemma_decimal_round_trip(n);
    lemma_decimal_round_trip(tenth);
    lemma_numeral(digits);
    lemma_numeral(last);
    lemma_digits_at_start(digits, rest);
    assert(text =~= digits + rest);
    assert(text.take(digits.len() as int) =~= digits);
    assert(text.skip(digits.len() as int) =~= rest);
    assert(last.len() == 1);
    assert(rest.subrange(1, 2) =~= last);
    assert(rest.skip(2) =~= name);
}

proof fn lemma_rounded(amount: int, unit: int)
    requires
        0 <= amount,
        unit > 0,
        unit == 1 || unit % 2 == 0,
    ensures
        unit == 1 ==> rounded(amount, unit) == amount,
        unit % 2 == 0 ==> -unit < 2 * (rounded(amount, unit) * unit) - 2 * amount <= unit,
{
    let x = amount + unit / 2;
    let q = x / unit;
    lemma_fundamental_div_mod(x, unit);
    lemma_mod_bound(x, unit);
    assert(0 <= q) by (nonlinear_arith)
        requires
            0 <= x,
            unit > 0,
            q == x / unit,
    ;
    assert(rounded(amount, unit) == q);
    assert(unit * q == q * unit) by (nonlinear_arith);
}

proof fn lemma_base(format: Seq<char>)
    ensures
        base_of(format) == thousand(format),
        thousand(format) == 1000 || thousand(format) == 1024,
{
    if format.len() >= 2 && format != seq!['s', 'i'] {
        if format.contains('i') {
            let i = choose|i: int| 0 <= i < format.len() && format[i] == 'i';
            assert(format[i] == 'i');
        } else {
            assert forall|i: int| 0 <= i < format.len() implies format[i] != 'i' by {
                assert(format.contains(format[i]));
            }
        }
    }
}

proof fn lemma_units(base: int, power: int)
    requires
        base == 1000 || base == 1024,
        0 <= power <= 5,
    ensures
        times(base, power as nat) == unit_size(base as u64, power),
        unit_size(base as u64, power) > 0,
        unit_size(base as u64, power) == 1 || unit_size(base as u64, power) % 2 == 0,
        power > 0 ==> unit_size(base as u64, power) > 1,
        power > 0 ==> bytes_of_name(unit_name(base as u64, unit_letter(power))) == unit_size(
            base as u64,
            power,
        ),
        bytes_of_name(seq!['B']) == 1,
        unit_name(base as u64, 'B') == seq!['B'],
        !is_digit(unit_name(base as u64, unit_letter(power))[0]),
        unit_name(base as u64, unit_letter(power))[0] != '.',
{
    assert(times(base, 0) == 1);
    assert(times(base, 1) == base * times(base, 0));
    assert(times(base, 2) == base * times(base, 1));
    assert(times(base, 3) == base * times(base, 2));
    assert(times(base, 4) == base * times(base, 3));
    assert(times(base, 5) == base * times(base, 4));
    let letter = unit_letter(power);
    let name = unit_name(base as u64, letter);
    assert(name[0] == letter);
}

proof fn lemma_in_unit(size: u64, base: int, power: int)
    requires
        base == 1000 || base == 1024,
        1 <= power <= 5,
        unit_size(base as u64, power) <= size,
        power < 5 ==> size < unit_size(base as u64, power + 1),
    ensures
        ({
            let text = size_in_unit(size, base as u64, power);
            let said = read_size(text);
            &&& stands_for(text, size as int)
            &&& said.unit == times(base, power as nat) || (power < 5 && said.unit == times(
                base,
                (power + 1) as nat,
            ))
            &&& said.has_point <==> said.tenths < 100
            &&& 10 <= said.tenths
            &&& said.tenths < 10 * base || said.unit == times(base, 5)
        }),
{
    let t = base as u64;
    let unit = unit_size(t, power) as int;
    let tenths = rounded(size * 10, unit);
    let whole = rounded(size as int, unit);
    let name = unit_name(t, unit_letter(power));
    lemma_units(base, power);
    lemma_rounded(size * 10, unit);
    lemma_rounded(size as int, unit);
    assert(tenths >= 10) by (nonlinear_arith)
        requires
            2 * (tenths * unit) - 2 * (size * 10) > -unit,
            size >= unit,
            unit > 0,
    ;
    if tenths < 100 {
        lemma_tenths_read_back((tenths / 10) as nat, (tenths % 10) as nat, name);
        assert(2 * tenths * unit == 2 * (tenths * unit)) by (nonlinear_arith);
        assert(read_size(size_in_unit(size, t, power)).tenths == tenths);
        assert(stands_for(size_in_unit(size, t, power), size as int));
    } else if whole >= t && power < 5 {
        let next = unit_size(t, power + 1) as int;
        lemma_units(base, power + 1);
        crate::display::lemma_unit_size(t, power + 1);
        lemma_tenths_read_back(1, 0, unit_name(t, unit_letter(power + 1)));
        let text = size_in_unit(size, t, power);
        assert(decimal_text(1) == seq!['1']);
        assert(decimal_text(0) == seq!['0']);
        assert(text =~= decimal_text(1).push('.') + decimal_text(0) + unit_name(
            t,
            unit_letter(power + 1),
        ));
        assert(next == base * unit);
        assert(whole <= base) by (nonlinear_arith)
            requires
                2 * (whole * unit) - 2 * size <= unit,
                size < base * unit,
                unit > 0,
        ;
        assert(2 * size + unit >= 2 * (base * unit)) by (nonlinear_arith)
            requires
                2 * (whole * unit) - 2 * size <= unit,
                whole >= base,
                unit > 0,
        ;
        assert(unit * 1000 <= next) by (nonlinear_arith)
            requires
                next == base * unit,
                base >= 1000,
                unit > 0,
        ;
        assert(read_size(text).unit == next);
        assert(read_size(text).tenths == 10);
        let said = read_size(text);
        assert(2 * said.tenths * said.unit == 20 * next) by (nonlinear_arith)
            requires
                said.tenths == 10,
                said.unit == next,
        ;
        assert(stands_for(text, size as int));
    } else {
        lemma_whole_read_back(whole, name);
        assert(whole >= 10) by (nonlinear_arith)
            requires
                2 * (whole * unit) - 2 * size > -unit,
                2 * (tenths * unit) - 2 * (size * 10) <= unit,
                tenths >= 100,
                unit > 0,
        ;
        assert(2 * (10 * whole) * unit == 20 * (whole * unit)) by (nonlinear_arith);
        assert(stands_for(size_in_unit(size, t, power), size as int));
    }
}

/// The text of a size stands for the size, in the unit that the format asks for.
/// Where it asks for none, it is the largest in which the number is at least one,
/// with a digit behind the point where the number is below ten.
pub proof fn lemma_text_stands_for_size(size: u64, format: Seq<char>)
    ensures
        stands_for(readable_size(size, format), size as int),
        fits_format(readable_size(size, format), size as int, format),
{
    let base = base_of(format);
    let t = thousand(format);
    let text = readable_size(size, format);
    lemma_base(format);
    lemma_units(base, 1);
    lemma_units(base, 2);
    lemma_units(base, 3);
    lemma_units(base, 4);
    lemma_units(base, 5);
    match number_format(format) {
        Some((unit, letter)) => {
            lemma_rounded(size as int, unit as int);
            let n = rounded(size as int, unit as int);
            lemma_whole_read_back(n, unit_name(t, letter));
            assert(2 * (10 * n) * unit == 20 * (n * unit)) by (nonlinear_arith);
        },
        None => {
            let power = greatest_power(size, t);
            if power == 0 {
                lemma_whole_read_back(size as nat, seq!['B']);
                assert(text =~= decimal_text(size as nat) + seq!['B']);
            } else {
                lemma_in_unit(size, base, power);
            }
        },
    }
}

/// The unit that is read from a format is the one that it asks for.
pub proof fn lemma_unit_is_asked_for(format: Seq<char>)
    ensures
        number_format(format) is Some <==> asked_unit(format) > 0,
        number_format(format) matches Some((unit, _)) ==> unit == asked_unit(format),
{
    let base = base_of(format);
    lemma_base(format);
    lemma_units(base, 1);
    lemma_units(base, 2);
    lemma_units(base, 3);
    lemma_units(base, 4);
    lemma_units(base, 5);
}

} // verus!
