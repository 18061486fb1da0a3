//! How texts come apart: pieces between separators, lines, the paths of a list and
//! the patterns of a file.

use vstd::prelude::*;

use crate::pattern::compiled;
use crate::startup::{accepted, compiled_all, holds_pattern, paths_in, rejected};
use crate::text::{first_visible, is_space, split_text, text_lines, without_return};

verus! {

// --------------------------------------------------------------------------
// Pieces
// --------------------------------------------------------------------------

/// Texts one after the other, with a separator between them.
pub open spec fn joined_text(pieces: Seq<Seq<char>>, separator: char) -> Seq<char>
    decreases pieces.len(),
{
    if pieces.len() == 0 {
        Seq::empty()
    } else if pieces.len() == 1 {
        pieces[0]
    } else {
        joined_text(pieces.drop_last(), separator).push(separator) + pieces.last()
    }
}

proof fn lemma_joined_push(pieces: Seq<Seq<char>>, separator: char, piece: Seq<char>)
    requires
        pieces.len() > 0,
    ensures
        joined_text(pieces.push(piece), separator) == joined_text(pieces, separator).push(separator)
            + piece,
{
    assert(pieces.push(piece).drop_last() =~= pieces);
}

/// The pieces of a text, put together with the separator, are the text again; there
/// is at least one, and none holds the separator.
pub proof fn lemma_pieces_make_the_text(text: Seq<char>, separator: char)
    ensures
        joined_text(split_text(text, separator), separator) == text,
        split_text(text, separator).len() > 0,
        forall|i: int|
            0 <= i < split_text(text, separator).len() ==> !(#[trigger] split_text(
                text,
                separator,
            )[i]).contains(separator),
    decreases text.len(),
{
    let pieces = split_text(text, separator);
    if text.len() == 0 {
        assert(joined_text(pieces, separator) =~= text);
    } else {
        let rest = text.drop_last();
        let before = split_text(rest, separator);
        let c = text.last();
        lemma_pieces_make_the_text(rest, separator);
        if c == separator {
            lemma_joined_push(before, separator, Seq::empty());
            assert(joined_text(pieces, separator) =~= text);
            assert forall|i: int| 0 <= i < pieces.len() implies !(#[trigger] pieces[i]).contains(
                separator,
            ) by {
                if i < before.len() {
                    assert(pieces[i] == before[i]);
                }
            }
        } else {
            let most = before.drop_last();
            let last = before.last();
            assert(before =~= most.push(last));
            assert(pieces == most.push(last.push(c)));
            if most.len() > 0 {
                lemma_joined_push(most, separator, last);
                lemma_joined_push(most, separator, last.push(c));
                assert(joined_text(pieces, separator) =~= joined_text(before, separator).push(c));
            } else {
                assert(pieces.len() == 1 && before.len() == 1);
                assert(joined_text(pieces, separator) == last.push(c));
                assert(joined_text(before, separator) == last);
            }
            assert(rest.push(c) =~= text);
            assert forall|i: int| 0 <= i < pieces.len() implies !(#[trigger] pieces[i]).contains(
                separator,
            ) by {
                if i < most.len() {
                    assert(pieces[i] == before[i]);
                } else {
                    assert(!before[before.len() - 1].contains(separator));
                    assert forall|j: int| 0 <= j < pieces[i].len() implies pieces[i][j]
                        != separator by {
                        if j < last.len() {
                            assert(last.contains(last[j]));
                        }
                    }
                }
            }
        }
    }
}

/// A text is split in one way: pieces without the separator, put together with it,
/// come apart into themselves.
pub proof fn lemma_pieces_come_apart(pieces: Seq<Seq<char>>, separator: char)
    requires
        pieces.len() > 0,
        forall|i: int| 0 <= i < pieces.len() ==> !(#[trigger] pieces[i]).contains(separator),
    ensures
        split_text(joined_text(pieces, separator), separator) == pieces,
    decreases pieces.len(), pieces.last().len(),
{
    let most = pieces.drop_last();
    let last = pieces.last();
    let text = joined_text(pieces, separator);
    assert(pieces =~= most.push(last));
    if last.len() == 0 {
        if most.len() == 0 {
            assert(text =~= Seq::empty());
            assert(pieces =~= seq![Seq::<char>::empty()]);
        } else {
            assert forall|i: int| 0 <= i < most.len() implies !(#[trigger] most[i]).contains(
                separator,
            ) by {
                assert(most[i] == pieces[i]);
            }
            lemma_pieces_come_apart(most, separator);
            lemma_joined_push(most, separator, last);
            assert(text =~= joined_text(most, separator).push(separator));
            assert(text.drop_last() =~= joined_text(most, separator));
            assert(last =~= Seq::empty());
        }
    } else {
        let c = last.last();
        let fewer = most.push(last.drop_last());
        assert(!pieces[pieces.len() - 1].contains(separator));
        assert(last.contains(c));
        assert forall|i: int| 0 <= i < fewer.len() implies !(#[trigger] fewer[i]).contains(
            separator,
        ) by {
            if i < most.len() {
                assert(fewer[i] == pieces[i]);
            } else {
                assert forall|j: int| 0 <= j < fewer[i].len() implies fewer[i][j] != separator by {
                    assert(last.contains(last[j]));
                }
            }
        }
        lemma_pieces_come_apart(fewer, separator);
        if most.len() > 0 {
            lemma_joined_push(most, separator, last);
            lemma_joined_push(most, separator, last.drop_last());
        }
        assert(text =~= joined_text(fewer, separator).push(c));
        assert(text.drop_last() =~= joined_text(fewer, separator));
        assert(fewer.drop_last() =~= most);
        assert(fewer.last().push(c) =~= last);
    }
}

// --------------------------------------------------------------------------
// Lines
// --------------------------------------------------------------------------

/// Lines without line feeds and without carriage returns at their ends, each ended
/// by a line feed, are the lines of the text that they make; so they are where the
/// last is not ended, if it is not empty, and where each ends in a carriage return
/// and a line feed.
pub proof fn lemma_lines_are_read(lines: Seq<Seq<char>>)
    requires
        lines.len() > 0,
        forall|i: int|
            0 <= i < lines.len() ==> !(#[trigger] lines[i]).contains('\n') && (lines[i].len() > 0
                ==> lines[i].last() != '\r'),
    ensures
        text_lines(joined_text(lines, '\n').push('\n')) == lines,
        lines.last().len() > 0 ==> text_lines(joined_text(lines, '\n')) == lines,
        text_lines(
            joined_text(lines.map_values(|line: Seq<char>| line.push('\r')), '\n').push('\n'),
        ) == lines,
{
    let strip = |line: Seq<char>| without_return(line);
    let ended = lines.push(Seq::<char>::empty());
    assert forall|i: int| 0 <= i < ended.len() implies !(#[trigger] ended[i]).contains('\n') by {
        if i < lines.len() {
            assert(ended[i] == lines[i]);
        }
    }
    lemma_pieces_come_apart(ended, '\n');
    lemma_joined_push(lines, '\n', Seq::empty());
    assert(joined_text(ended, '\n') =~= joined_text(lines, '\n').push('\n'));
    assert(ended.drop_last() =~= lines);
    assert(lines.map_values(strip) =~= lines) by {
        assert forall|i: int| 0 <= i < lines.len() implies without_return(lines[i]) == lines[i] by {
            assert(!lines[i].contains('\n'));
        }
    }
    if lines.last().len() > 0 {
        lemma_pieces_come_apart(lines, '\n');
        let most = lines.drop_last();
        assert(most.map_values(strip) =~= most) by {
            assert forall|i: int| 0 <= i < most.len() implies without_return(most[i])
                == most[i] by {
                assert(!lines[i].contains('\n'));
            }
        }
        assert(most.push(lines.last()) =~= lines);
    }
    let dos = lines.map_values(|line: Seq<char>| line.push('\r'));
    let dos_ended = dos.push(Seq::<char>::empty());
    assert forall|i: int| 0 <= i < dos_ended.len() implies !(#[trigger] dos_ended[i]).contains(
        '\n',
    ) by {
        if i < lines.len() {
            assert(!lines[i].contains('\n'));
            assert forall|j: int| 0 <= j < dos[i].len() implies dos[i][j] != '\n' by {
                if j < lines[i].len() {
                    assert(lines[i].contains(lines[i][j]));
                }
            }
        }
    }
    lemma_pieces_come_apart(dos_ended, '\n');
    lemma_joined_push(dos, '\n', Seq::empty());
    assert(joined_text(dos_ended, '\n') =~= joined_text(dos, '\n').push('\n'));
    assert(dos_ended.drop_last() =~= dos);
    assert(dos.map_values(strip) =~= lines) by {
        assert forall|i: int| 0 <= i < lines.len() implies without_return(dos[i]) == lines[i] by {
            assert(dos[i].drop_last() =~= lines[i]);
        }
    }
}

/// An empty text has no lines.
pub proof fn lemma_no_lines()
    ensures
        text_lines(Seq::empty()) == Seq::<Seq<char>>::empty(),
{
    assert(split_text(Seq::empty(), '\n').drop_last() =~= Seq::empty());
    assert(text_lines(Seq::empty()) =~= Seq::empty());
}

/// The paths of a list that are ended by NUL characters are read back; empty ones
/// are passed over.
pub proof fn lemma_paths_are_read(paths: Seq<Seq<char>>)
    requires
        paths.len() > 0,
        forall|i: int|
            0 <= i < paths.len() ==> !(#[trigger] paths[i]).contains('\0') && paths[i].len() > 0,
    ensures
        paths_in(joined_text(paths, '\0').push('\0'), true) == paths,
        paths_in(joined_text(paths, '\0'), true) == paths,
{
    let keep = |path: Seq<char>| path.len() > 0;
    let ended = paths.push(Seq::<char>::empty());
    assert forall|i: int| 0 <= i < ended.len() implies !(#[trigger] ended[i]).contains('\0') by {
        if i < paths.len() {
            assert(ended[i] == paths[i]);
        }
    }
    lemma_pieces_come_apart(paths, '\0');
    lemma_pieces_come_apart(ended, '\0');
    lemma_joined_push(paths, '\0', Seq::empty());
    assert(joined_text(ended, '\0') =~= joined_text(paths, '\0').push('\0'));
    lemma_all_kept(paths);
    reveal(Seq::filter);
    assert(ended.drop_last() =~= paths);
    assert(ended.filter(keep) =~= paths.filter(keep));
}

proof fn lemma_all_kept(paths: Seq<Seq<char>>)
    requires
        forall|i: int| 0 <= i < paths.len() ==> (#[trigger] paths[i]).len() > 0,
    ensures
        paths.filter(|path: Seq<char>| path.len() > 0) == paths,
    decreases paths.len(),
{
    reveal(Seq::filter);
    if paths.len() > 0 {
        let rest = paths.drop_last();
        assert forall|i: int| 0 <= i < rest.len() implies (#[trigger] rest[i]).len() > 0 by {
            assert(rest[i] == paths[i]);
        }
        lemma_all_kept(rest);
        assert(paths[paths.len() - 1].len() > 0);
        assert(rest.push(paths.last()) =~= paths);
    }
}

// --------------------------------------------------------------------------
// Patterns
// --------------------------------------------------------------------------

/// A line holds a pattern if something is visible in it, and a number sign is not
/// the first of that.
pub proof fn lemma_comments_hold_no_pattern(line: Seq<char>, i: int)
    requires
        0 <= i < line.len(),
        forall|j: int| 0 <= j < i ==> is_space(#[trigger] line[j]),
        !is_space(line[i]),
    ensures
        holds_pattern(line) <==> line[i] != '#',
{
    lemma_first_visible(line, i, 0);
}

/// A line of blanks holds no pattern.
pub proof fn lemma_blanks_hold_no_pattern(line: Seq<char>)
    requires
        forall|j: int| 0 <= j < line.len() ==> is_space(#[trigger] line[j]),
    ensures
        !holds_pattern(line),
{
    lemma_nothing_visible(line, 0);
}

proof fn lemma_first_visible(line: Seq<char>, i: int, from: int)
    requires
        0 <= from <= i < line.len(),
        forall|j: int| 0 <= j < i ==> is_space(#[trigger] line[j]),
        !is_space(line[i]),
    ensures
        first_visible(line, from) == Some(line[i]),
    decreases i - from,
{
    if from < i {
        assert(is_space(line[from]));
        lemma_first_visible(line, i, from + 1);
    }
}

proof fn lemma_nothing_visible(line: Seq<char>, from: int)
    requires
        0 <= from <= line.len(),
        forall|j: int| 0 <= j < line.len() ==> is_space(#[trigger] line[j]),
    ensures
        first_visible(line, from) is None,
    decreases line.len() - from,
{
    if from < line.len() {
        assert(is_space(line[from]));
        lemma_nothing_visible(line, from + 1);
    }
}

/// Every pattern is accounted for: it is among the expressions if it is one, and
/// else among those that are refused, with the reason; nothing else is in either.
pub proof fn lemma_patterns_are_sorted_out(patterns: Seq<Seq<char>>)
    ensures
        accepted(compiled_all(patterns)).len() + rejected(patterns, compiled_all(patterns)).len()
            == patterns.len(),
        forall|i: int|
            0 <= i < patterns.len() ==> match compiled(#[trigger] patterns[i]) {
                Ok(regex) => accepted(compiled_all(patterns)).contains(regex),
                Err(reason) => rejected(patterns, compiled_all(patterns)).contains(
                    (patterns[i], reason),
                ),
            },
    decreases patterns.len(),
{
    let results = compiled_all(patterns);
    let good = accepted(results);
    let bad = rejected(patterns, results);
    if patterns.len() > 0 {
        let rest = patterns.drop_last();
        lemma_patterns_are_sorted_out(rest);
        assert(results.drop_last() =~= compiled_all(rest));
        let (a, b) = (accepted(compiled_all(rest)), rejected(rest, compiled_all(rest)));
        assert(results.last() == compiled(patterns.last()));
        assert forall|i: int| 0 <= i < patterns.len() implies match compiled(
            #[trigger] patterns[i],
        ) {
            Ok(regex) => good.contains(regex),
            Err(reason) => bad.contains((patterns[i], reason)),
        } by {
            if i < rest.len() {
                assert(rest[i] == patterns[i]);
                match compiled(patterns[i]) {
                    Ok(regex) => {
                        assert(a.contains(regex));
                        let k = choose|k: int| 0 <= k < a.len() && a[k] == regex;
                        assert(good[k] == regex);
                    },
                    Err(reason) => {
                        assert(b.contains((patterns[i], reason)));
                        let k = choose|k: int| 0 <= k < b.len() && b[k] == (patterns[i], reason);
                        assert(bad[k] == (patterns[i], reason));
                    },
                }
            } else {
                match compiled(patterns[i]) {
                    Ok(regex) => {
                        assert(good[a.len() as int] == regex);
                    },
                    Err(reason) => {
                        assert(bad[b.len() as int] == (patterns[i], reason));
                    },
                }
            }
        }
    }
}

/// Paths on lines are the lines, empty ones too.
pub proof fn lemma_paths_on_lines(text: Seq<char>)
    ensures
        paths_in(text, false) == text_lines(text),
{
}

/// The first pattern that is none is the first that is refused.
pub proof fn lemma_first_refusal(patterns: Seq<Seq<char>>, i: int)
    requires
        0 <= i < patterns.len(),
        compiled(patterns[i]) is Err,
        forall|j: int| 0 <= j < i ==> compiled(#[trigger] patterns[j]) is Ok,
    ensures
        rejected(patterns, compiled_all(patterns)).len() > 0,
        rejected(patterns, compiled_all(patterns))[0] == (
            patterns[i],
            compiled(patterns[i])->Err_0,
        ),
    decreases patterns.len(),
{
    let rest = patterns.drop_last();
    let results = compiled_all(patterns);
    assert(results.drop_last() =~= compiled_all(rest));
    assert(results.last() == compiled(patterns.last()));
    if i < rest.len() {
        assert(rest[i] == patterns[i]);
        assert forall|j: int| 0 <= j < i implies compiled(#[trigger] rest[j]) is Ok by {
            assert(rest[j] == patterns[j]);
        }
        lemma_first_refusal(rest, i);
    } else {
        assert forall|j: int| 0 <= j < rest.len() implies compiled(#[trigger] rest[j]) is Ok by {
            assert(rest[j] == patterns[j]);
        }
        lemma_nothing_refused(rest);
    }
}

proof fn lemma_nothing_refused(patterns: Seq<Seq<char>>)
    requires
        forall|j: int| 0 <= j < patterns.len() ==> compiled(#[trigger] patterns[j]) is Ok,
    ensures
        rejected(patterns, compiled_all(patterns)).len() == 0,
    decreases patterns.len(),
{
    if patterns.len() > 0 {
        let rest = patterns.drop_last();
        let results = compiled_all(patterns);
        assert(results.drop_last() =~= compiled_all(rest));
        assert(results.last() == compiled(patterns[patterns.len() - 1]));
        assert forall|j: int| 0 <= j < rest.len() implies compiled(#[trigger] rest[j]) is Ok by {
            assert(rest[j] == patterns[j]);
        }
        lemma_nothing_refused(rest);
    }
}

/// The characters that are not visible: blanks, tabs and what ends lines and pages,
/// among those of ASCII, and the spaces of other scripts.
pub proof fn lemma_spaces(c: char)
    ensures
        is_space(c) <==> {
            ||| c == '\t' || c == '\n' || c == '\u{b}' || c == '\u{c}' || c == '\r' || c == ' '
            ||| c == '\u{85}' || c == '\u{a0}' || c == '\u{1680}'
            ||| '\u{2000}' <= c && c <= '\u{200a}'
            ||| c == '\u{2028}' || c == '\u{2029}' || c == '\u{202f}' || c == '\u{205f}'
            ||| c == '\u{3000}'
        },
{
}

/// A line that no line feed ends is a line as it stands, with a carriage return that
/// may be at its end.
pub proof fn lemma_unended_line(line: Seq<char>)
    requires
        line.len() > 0,
        !line.contains('\n'),
    ensures
        text_lines(line) == seq![line],
{
    let one = seq![line];
    assert(joined_text(one, '\n') == line);
    lemma_pieces_come_apart(one, '\n');
    assert(text_lines(line) =~= one);
}

} // verus!
