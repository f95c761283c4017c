//! The search for variant groups, which the `regex` crate performs.

use regex::Regex;
use vstd::prelude::*;

verus! {

/// The pattern of a variant group: a prefix, then `-` or `:`, then a body in
/// parentheses. A prefix is made of word characters, of `! @ < ~ + : _ / -`
/// and of segments in square brackets. A body is made of word characters,
/// whitespace, some punctuation and segments in square brackets; outside
/// such a segment it holds no parentheses of its own.
pub const GROUP_PATTERN: &'static str =
    r"(?m)((?:[!@<~\w+:_/-]|\[&?>?:?\S*\])+?)(-|:)\(((?:[~!<>\w\s:/\\,%#.$?-]|\[.*?\])+?)\)";

/// What a search of `text` for every match of `pattern` reports: `None`
/// where `pattern` is no pattern that `regex` accepts; otherwise the matches
/// from left to right, and of each match the byte range of the whole match
/// followed by the byte range of each capture group, `None` for a group that
/// took no part in the match.
pub uninterp spec fn regex_captures(pattern: Seq<char>, text: Seq<char>) -> Option<
    Seq<Seq<Option<(usize, usize)>>>,
>;

/// Compiles `pattern` with `regex::Regex::new` and walks
/// `Regex::captures_iter` over `text`. Of each match, `Captures::iter` gives
/// the groups, and `Match::start` and `Match::end` the byte range of each.
/// The pattern is compiled anew for every search.
///
/// Nothing is proved of this function. Its contract gives the outcome the
/// name [`regex_captures`] and claims nothing else of it.
#[verifier::external_body]
pub(crate) fn find_captures(pattern: &str, text: &str) -> (found: Option<
    Vec<Vec<Option<(usize, usize)>>>,
>)
    ensures
        found.deep_view() == regex_captures(pattern@, text@),
{
    match Regex::new(pattern) {
        Ok(re) => Some(
            re.captures_iter(text)
                .map(|c| c.iter().map(|g| g.map(|m| (m.start(), m.end()))).collect())
                .collect(),
        ),
        Err(_) => None,
    }
}

} // verus!
