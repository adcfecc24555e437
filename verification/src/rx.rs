//! The regular-expression boundary.
//!
//! Linter output is pattern-matched with the `regex` crate.  What the
//! engine computes — which patterns it accepts, the names of a pattern's
//! capture groups, and what the groups of every non-overlapping match
//! capture — is a function of the pattern and the text alone; these
//! functions are named here, and the calls into the engine are stated
//! over the names.  Everything the library then does with the captured
//! values is verified.

use vstd::prelude::*;

verus! {

/// Which pattern strings the engine accepts: what `regex::Regex::new`
/// answers `Ok` to.
pub uninterp spec fn regex_compiles(pattern: Seq<char>) -> bool;

/// The capture-group names of a compiling pattern, leftmost first:
/// nothing for the implicit whole-match group and for unnamed groups,
/// as `regex::Regex::capture_names` yields them.
pub uninterp spec fn group_names_of(pattern: Seq<char>) -> Seq<Option<Seq<char>>>;

/// For each successive non-overlapping match of the pattern in the text,
/// in order, what its named groups `file`, `line` and `message`
/// captured, when they took part in the match.
pub uninterp spec fn captures_of(pattern: Seq<char>, text: Seq<char>) -> Seq<
    (Option<Seq<char>>, Option<Seq<char>>, Option<Seq<char>>),
>;

/// Relies on regex::Regex::capture_names, after regex::Regex::new: the
/// compiled pattern's capture-group names in order, None for the
/// unnamed ones; and nothing at all when the pattern does not compile.
#[verifier::external_body]
pub(crate) fn regex_group_names(pattern: &str) -> (r: Option<Vec<Option<String>>>)
    ensures
        r is Some <==> regex_compiles(pattern@),
        r is Some ==> r.unwrap().deep_view() == group_names_of(pattern@),
{
    match regex::Regex::new(pattern) {
        Ok(re) => Some(re.capture_names().map(|n| n.map(|s| s.to_string())).collect()),
        Err(_) => None,
    }
}

/// Relies on regex::Regex::captures_iter and regex::Captures::name,
/// after regex::Regex::new: every non-overlapping match of the pattern
/// in the text, in order, reduced to what its `file`, `line` and
/// `message` groups captured; and nothing at all when the pattern does
/// not compile.
#[verifier::external_body]
pub(crate) fn regex_captures(pattern: &str, text: &str) -> (r: Option<
    Vec<(Option<String>, Option<String>, Option<String>)>,
>)
    ensures
        r is Some <==> regex_compiles(pattern@),
        r is Some ==> r.unwrap().deep_view() == captures_of(pattern@, text@),
{
    let re = match regex::Regex::new(pattern) {
        Ok(re) => re,
        Err(_) => return None,
    };
    let mut out = Vec::new();
    for cap in re.captures_iter(text) {
        out.push((
            cap.name("file").map(|m| m.as_str().to_string()),
            cap.name("line").map(|m| m.as_str().to_string()),
            cap.name("message").map(|m| m.as_str().to_string()),
        ));
    }
    Some(out)
}

} // verus!
