//! Text and bytes.

use vstd::prelude::*;
use vstd::std_specs::iter::IteratorSpec;
use vstd::utf8::{encode_utf8, valid_utf8};

verus! {

/// The text that `String::from_utf8_lossy` reads from bytes.
pub uninterp spec fn lossy_text(bytes: Seq<u8>) -> Seq<char>;

/// `String::from_utf8_lossy`, with the result owned.
///
/// Claimed: the text is a function of the bytes, and bytes that are UTF-8 are
/// kept as they are. Which replacement characters stand for bytes that are not
/// UTF-8 is left unsaid.
#[verifier::external_body]
pub(crate) fn from_utf8_lossy(bytes: &Vec<u8>) -> (r: String)
    ensures
        r@ == lossy_text(bytes@),
        valid_utf8(bytes@) ==> encode_utf8(r@) == bytes@,
{
    String::from_utf8_lossy(bytes).into_owned()
}

/// `std::str::from_utf8`, without the error.
///
/// Claimed: bytes that are UTF-8 are read as the text that they encode, and
/// other bytes are refused.
#[verifier::external_body]
pub(crate) fn from_utf8(bytes: &[u8]) -> (r: Option<&str>)
    ensures
        r is Some <==> valid_utf8(bytes@),
        r matches Some(text) ==> encode_utf8(text@) == bytes@,
{
    std::str::from_utf8(bytes).ok()
}

/// Printable ASCII without a backslash.
pub open spec fn is_plain(bytes: Seq<u8>) -> bool {
    forall|i: int| 0 <= i < bytes.len() ==> 0x20 <= #[trigger] bytes[i] <= 0x7e && bytes[i] != 0x5c
}

/// The text that `stfu8::encode_u8` writes bytes as.
pub uninterp spec fn escaped_text(bytes: Seq<u8>) -> Seq<char>;

/// `stfu8::encode_u8`: bytes as text in which what is not printable is escaped.
///
/// Claimed: the text is a function of the bytes, and printable ASCII without a
/// backslash is kept as it is. How other bytes are written is left unsaid.
#[verifier::external_body]
pub(crate) fn escape(bytes: &[u8]) -> (r: String)
    ensures
        r@ == escaped_text(bytes@),
        is_plain(bytes@) ==> encode_utf8(r@) == bytes@,
{
    stfu8::encode_u8(bytes)
}

/// `String::push`: the character is appended.
pub assume_specification[ String::push ](s: &mut String, ch: char)
    ensures
        final(s)@ == old(s)@.push(ch),
;

// --------------------------------------------------------------------------
// Characters
// --------------------------------------------------------------------------

/// The characters of a text.
pub fn chars_of(text: &str) -> (r: Vec<char>)
    ensures
        r@ == text@,
{
    broadcast use vstd::string::axiom_spec_iter, vstd::string::next_postcondition;

    let mut chars: Vec<char> = Vec::new();
    let mut rest = text.chars();
    assert(chars@ + rest.remaining() =~= text@);
    loop
        invariant_except_break
            chars@ + rest.remaining() == text@,
        ensures
            chars@ == text@,
        decreases text@.len() - chars.len(),
    {
        let ghost before = rest.remaining();
        match rest.next() {
            Some(c) => {
                chars.push(c);
                assert(chars@ + rest.remaining() =~= text@);
            },
            None => {
                assert(chars@ + rest.remaining() =~= chars@);
                break;
            },
        }
    }
    chars
}

/// A part of a list of characters as a text.
pub fn text_between(chars: &Vec<char>, from: usize, to: usize) -> (r: String)
    requires
        from <= to <= chars.len(),
    ensures
        r@ == chars@.subrange(from as int, to as int),
{
    let mut text = String::new();
    let mut i: usize = from;
    assert(text@ =~= chars@.subrange(from as int, from as int));
    while i < to
        invariant
            from <= i <= to <= chars.len(),
            text@ == chars@.subrange(from as int, i as int),
        decreases to - i,
    {
        text.push(chars[i]);
        assert(text@ =~= chars@.subrange(from as int, i + 1));
        i += 1;
    }
    text
}

/// The pieces of a text between separators, empty ones too.
pub open spec fn split_text(text: Seq<char>, separator: char) -> Seq<Seq<char>>
    decreases text.len(),
{
    if text.len() == 0 {
        seq![Seq::<char>::empty()]
    } else {
        let before = split_text(text.drop_last(), separator);
        if text.last() == separator {
            before.push(Seq::<char>::empty())
        } else {
            before.drop_last().push(before.last().push(text.last()))
        }
    }
}

/// The texts of a list of strings.
pub open spec fn string_views(list: Seq<String>) -> Seq<Seq<char>> {
    list.map_values(|s: String| s@)
}

/// Splits a text at separators.
pub fn split_at_char(text: &str, separator: char) -> (r: Vec<String>)
    ensures
        string_views(r@) == split_text(text@, separator),
        r.len() > 0,
{
    let chars = chars_of(text);
    let mut pieces: Vec<String> = Vec::new();
    let mut piece = String::new();
    let mut i: usize = 0;
    assert(text@.take(0) =~= Seq::empty());
    assert(string_views(pieces@).push(piece@) =~= split_text(text@.take(0), separator));
    while i < chars.len()
        invariant
            i <= chars.len(),
            chars@ == text@,
            string_views(pieces@).push(piece@) == split_text(text@.take(i as int), separator),
        decreases chars.len() - i,
    {
        let c = chars[i];
        let ghost before = string_views(pieces@);
        assert(text@.take(i + 1).drop_last() =~= text@.take(i as int));
        assert(text@.take(i + 1).last() == c);
        if c == separator {
            let ghost ended = piece@;
            pieces.push(piece);
            piece = String::new();
            assert(string_views(pieces@) =~= before.push(ended));
            assert(piece@ =~= Seq::empty());
        } else {
            let ghost ended = piece@;
            piece.push(c);
            assert(before.push(ended).drop_last() =~= before);
        }
        i += 1;
    }
    assert(text@.take(chars.len() as int) =~= text@);
    let ghost before = string_views(pieces@);
    let ghost last = piece@;
    pieces.push(piece);
    assert(string_views(pieces@) =~= before.push(last));
    pieces
}

/// A text without the carriage return at its end, if there is one.
pub open spec fn without_return(text: Seq<char>) -> Seq<char> {
    if text.len() > 0 && text.last() == '\r' {
        text.drop_last()
    } else {
        text
    }
}

/// The lines of a text, without their ends.
pub open spec fn text_lines(text: Seq<char>) -> Seq<Seq<char>> {
    let pieces = split_text(text, '\n');
    let ended = pieces.drop_last().map_values(|line: Seq<char>| without_return(line));
    if pieces.last().len() == 0 {
        ended
    } else {
        ended.push(pieces.last())
    }
}

/// Splits a text into its lines. A line ends at a line feed, with the carriage
/// return before it, or at the end of the text.
pub fn split_lines(text: &str) -> (r: Vec<String>)
    ensures
        string_views(r@) == text_lines(text@),
{
    let pieces = split_at_char(text, '\n');
    let ghost views = string_views(pieces@);
    let ghost ended = views.drop_last().map_values(|line: Seq<char>| without_return(line));
    let mut lines: Vec<String> = Vec::with_capacity(pieces.len());
    let mut i: usize = 0;
    assert(string_views(lines@) =~= ended.take(0));
    while i < pieces.len() - 1
        invariant
            i < pieces.len(),
            views == string_views(pieces@),
            ended == views.drop_last().map_values(|line: Seq<char>| without_return(line)),
            string_views(lines@) == ended.take(i as int),
        decreases pieces.len() - i,
    {
        let ghost before = string_views(lines@);
        let chars = chars_of(pieces[i].as_str());
        assert(chars@ == views[i as int]);
        let n = chars.len();
        let line = if n > 0 && chars[n - 1] == '\r' {
            assert(chars@.subrange(0, n - 1) =~= chars@.drop_last());
            text_between(&chars, 0, n - 1)
        } else {
            pieces[i].clone()
        };
        assert(line@ == ended[i as int]);
        lines.push(line);
        assert(string_views(lines@) =~= before.push(line@));
        assert(ended.take(i + 1) =~= ended.take(i as int).push(line@));
        i += 1;
    }
    assert(ended.take(ended.len() as int) =~= ended);
    let last = pieces[i].clone();
    assert(last@ == views.last());
    let ghost before = string_views(lines@);
    if !is_empty(last.as_str()) {
        lines.push(last);
        assert(string_views(lines@) =~= before.push(last@));
    }
    lines
}

/// Tells whether a text is empty.
pub fn is_empty(text: &str) -> (r: bool)
    ensures
        r == (text@.len() == 0),
{
    let mut rest = text.chars();
    broadcast use vstd::string::axiom_spec_iter, vstd::string::next_postcondition;

    rest.next().is_none()
}

/// A character with the property `White_Space` of Unicode.
pub open spec fn is_space(c: char) -> bool {
    let u = c as u32;
    ||| 0x9 <= u <= 0xd
    ||| u == 0x20
    ||| u == 0x85
    ||| u == 0xa0
    ||| u == 0x1680
    ||| 0x2000 <= u <= 0x200a
    ||| u == 0x2028
    ||| u == 0x2029
    ||| u == 0x202f
    ||| u == 0x205f
    ||| u == 0x3000
}

/// Whether a character is whitespace.
fn whitespace(c: char) -> (r: bool)
    ensures
        r == is_space(c),
{
    let u = c as u32;
    (0x09 <= u && u <= 0x0d) || u == 0x20 || u == 0x85 || u == 0xa0 || u == 0x1680 || (0x2000 <= u
        && u <= 0x200a) || u == 0x2028 || u == 0x2029 || u == 0x202f || u == 0x205f || u == 0x3000
}

/// The first character that is no whitespace, from `i` on.
pub open spec fn first_visible(text: Seq<char>, i: int) -> Option<char>
    decreases text.len() - i,
{
    if i < 0 || i >= text.len() {
        None
    } else if is_space(text[i]) {
        first_visible(text, i + 1)
    } else {
        Some(text[i])
    }
}

/// Finds the first character of a text that is no whitespace.
pub fn find_visible(text: &str) -> (r: Option<char>)
    ensures
        r == first_visible(text@, 0),
{
    let chars = chars_of(text);
    let mut i: usize = 0;
    while i < chars.len()
        invariant
            i <= chars.len(),
            chars@ == text@,
            first_visible(text@, 0) == first_visible(text@, i as int),
        decreases chars.len() - i,
    {
        let c = chars[i];
        if !whitespace(c) {
            return Some(c);
        }
        i += 1;
    }
    None
}

/// The text that `str::to_lowercase` makes of a text.
pub uninterp spec fn lower_text(text: Seq<char>) -> Seq<char>;

/// A character with an upper-case ASCII letter made lower-case.
pub open spec fn lower_char(c: char) -> char {
    if 'A' <= c && c <= 'Z' {
        ((c as u32 + 32) as u8) as char
    } else {
        c
    }
}

/// `str::to_lowercase`.
///
/// Claimed: the result is a function of the text, and in a text of ASCII
/// characters the upper-case letters become lower-case ones and nothing else
/// changes.
#[verifier::external_body]
pub(crate) fn to_lowercase(text: &str) -> (r: String)
    ensures
        r@ == lower_text(text@),
        (forall|i: int| 0 <= i < text@.len() ==> (#[trigger] text@[i]) as u32 <= 127) ==> r@
            == text@.map_values(|c: char| lower_char(c)),
{
    text.to_lowercase()
}

/// Makes an upper-case ASCII letter lower-case.
pub fn to_lower_char(c: char) -> (r: char)
    ensures
        r == lower_char(c),
{
    if 'A' <= c && c <= 'Z' {
        ((c as u32 + 32) as u8) as char
    } else {
        c
    }
}

// --------------------------------------------------------------------------
// Numbers
// --------------------------------------------------------------------------

/// A decimal digit.
pub open spec fn is_digit(c: char) -> bool {
    '0' <= c && c <= '9'
}

/// What decimal digits stand for.
pub open spec fn decimal_value(digits: Seq<char>) -> nat
    decreases digits.len(),
{
    if digits.len() == 0 {
        0
    } else {
        decimal_value(digits.drop_last()) * 10 + (digits.last() as u32 - '0' as u32) as nat
    }
}

/// More digits stand for no less.
proof fn lemma_decimal_value_grows(digits: Seq<char>, n: int)
    requires
        0 <= n <= digits.len(),
    ensures
        decimal_value(digits.take(n)) <= decimal_value(digits),
    decreases digits.len(),
{
    if n < digits.len() {
        lemma_decimal_value_grows(digits.drop_last(), n);
        assert(digits.drop_last().take(n) =~= digits.take(n));
    } else {
        assert(digits.take(n) =~= digits);
    }
}

/// Reads decimal digits, if what they stand for is not too large.
pub fn parse_decimal(chars: &Vec<char>, from: usize, to: usize) -> (r: Option<u128>)
    requires
        from <= to <= chars.len(),
        forall|i: int| from <= i < to ==> is_digit(#[trigger] chars@[i]),
    ensures
        match r {
            Some(value) => value == decimal_value(chars@.subrange(from as int, to as int)),
            None => decimal_value(chars@.subrange(from as int, to as int)) > u128::MAX,
        },
{
    let ghost digits = chars@.subrange(from as int, to as int);
    let mut value: u128 = 0;
    let mut i: usize = from;
    assert(digits.take(0) =~= Seq::empty());
    while i < to
        invariant
            from <= i <= to <= chars.len(),
            digits == chars@.subrange(from as int, to as int),
            forall|j: int| from <= j < to ==> is_digit(#[trigger] chars@[j]),
            value == decimal_value(digits.take(i - from)),
        decreases to - i,
    {
        let c = chars[i];
        let digit: u128 = (c as u32 - '0' as u32) as u128;
        proof {
            assert(digits.take(i - from + 1).drop_last() =~= digits.take(i - from));
            assert(digits.take(i - from + 1).last() == c);
            lemma_decimal_value_grows(digits, i - from + 1);
        }
        value = match value.checked_mul(10) {
            Some(tens) => match tens.checked_add(digit) {
                Some(sum) => sum,
                None => {
                    return None;
                },
            },
            None => {
                return None;
            },
        };
        i += 1;
    }
    assert(digits.take(to - from) =~= digits);
    Some(value)
}

/// The digit for a number below ten.
pub open spec fn digit_char(n: int) -> char {
    (('0' as u32 + n) as u8) as char
}

/// A number in decimal digits.
pub open spec fn decimal_text(n: nat) -> Seq<char>
    decreases n,
{
    if n < 10 {
        seq![digit_char(n as int)]
    } else {
        decimal_text(n / 10).push(digit_char((n % 10) as int))
    }
}

/// Writes a number in decimal digits.
pub fn push_decimal(out: &mut String, n: u128)
    ensures
        final(out)@ == old(out)@ + decimal_text(n as nat),
    decreases n,
{
    let ghost before = out@;
    if n >= 10 {
        push_decimal(out, n / 10);
    }
    let digit = (0x30u8 + (n % 10) as u8) as char;
    out.push(digit);
    assert(out@ =~= before + decimal_text(n as nat));
}

/// Reading what was written gives the number back.
pub proof fn lemma_decimal_round_trip(n: nat)
    ensures
        decimal_value(decimal_text(n)) == n,
        decimal_text(n).len() > 0,
        forall|i: int| 0 <= i < decimal_text(n).len() ==> is_digit(#[trigger] decimal_text(n)[i]),
    decreases n,
{
    if n < 10 {
        let s = decimal_text(n);
        assert(s.drop_last() =~= Seq::empty());
        assert(decimal_value(s.drop_last()) == 0);
    } else {
        lemma_decimal_round_trip(n / 10);
        let s = decimal_text(n);
        assert(s.drop_last() =~= decimal_text(n / 10));
        assert forall|i: int| 0 <= i < s.len() implies is_digit(#[trigger] s[i]) by {
            if i < s.len() - 1 {
                assert(s[i] == decimal_text(n / 10)[i]);
            }
        }
    }
}

} // verus!
