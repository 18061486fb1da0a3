//! Regular expressions.

use vstd::prelude::*;

verus! {

/// `regex::Regex`: a compiled regular expression.
#[verifier::external_type_specification]
#[verifier::external_body]
pub struct ExRegex(regex::Regex);

/// `regex::Error`: why a pattern was refused.
#[verifier::external_type_specification]
#[verifier::external_body]
pub struct ExRegexError(regex::Error);

/// What `regex::Regex::new` makes of a pattern: a regular expression, or the
/// reason why the pattern is none.
pub uninterp spec fn compiled(pattern: Seq<char>) -> Result<regex::Regex, regex::Error>;

/// Whether `regex::Regex::is_match` finds the expression in a text.
pub uninterp spec fn found_in(regex: regex::Regex, text: Seq<char>) -> bool;

/// `regex::Regex::new`.
///
/// Claimed: the expression that a pattern is compiled to, or the reason why it is
/// refused, is a function of the pattern.
#[verifier::external_body]
pub(crate) fn compile(pattern: &str) -> (r: Result<regex::Regex, regex::Error>)
    ensures
        r == compiled(pattern@),
{
    regex::Regex::new(pattern)
}

/// `regex::Regex::is_match`.
///
/// Claimed: whether there is a match is a function of the expression and the
/// text.
#[verifier::external_body]
fn is_match(regex: &regex::Regex, text: &str) -> (r: bool)
    ensures
        r == found_in(*regex, text@),
{
    regex.is_match(text)
}

/// For each expression of a list, whether it is found in the text.
pub open spec fn matches_of(regexes: Seq<regex::Regex>, text: Seq<char>) -> Seq<bool> {
    regexes.map_values(|regex: regex::Regex| found_in(regex, text))
}

/// Looks for each expression of a list in a text.
pub fn find_all(regexes: &[regex::Regex], text: &str) -> (r: Vec<bool>)
    ensures
        r@ == matches_of(regexes@, text@),
{
    let mut found: Vec<bool> = Vec::with_capacity(regexes.len());
    let mut i: usize = 0;
    while i < regexes.len()
        invariant
            i <= regexes.len(),
            found.len() == i,
            forall|j: int| 0 <= j < i ==> #[trigger] found@[j] == found_in(regexes@[j], text@),
        decreases regexes.len() - i,
    {
        found.push(is_match(&regexes[i], text));
        i += 1;
    }
    assert(found@ =~= matches_of(regexes@, text@));
    found
}

/// Tells whether a list of answers holds a `true`.
pub fn any_found(found: &Vec<bool>) -> (r: bool)
    ensures
        r == found@.contains(true),
{
    let mut i: usize = 0;
    while i < found.len()
        invariant
            i <= found.len(),
            forall|j: int| 0 <= j < i ==> !#[trigger] found@[j],
        decreases found.len() - i,
    {
        if found[i] {
            return true;
        }
        i += 1;
    }
    false
}

} // verus!
