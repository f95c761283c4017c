//! Expansion of variant groups to a fixed point.
//!
//! One pass normalizes the whitespace of a text and rewrites the groups that
//! the search finds in it. A group that holds another group in its body is
//! not found before the inner one is rewritten, so passes are repeated until
//! one changes nothing, up to [`PASS_LIMIT`] times.

use crate::group::{holds_char, reports_group, rewrite_chars, rewritten};
use crate::group_lemmas::lemma_rewritten_without_paren;
use crate::pattern::{find_captures, regex_captures, GROUP_PATTERN};
use crate::text::{chars_of, normalize_chars, normalized, same_chars, string_of};
use vstd::prelude::*;

verus! {

/// The most passes that one expansion makes.
pub const PASS_LIMIT: u8 = 10;

/// The matches of the group pattern that the search reports in `text`.
pub open spec fn group_captures(text: Seq<char>) -> Seq<Seq<Option<(usize, usize)>>> {
    match regex_captures(GROUP_PATTERN@, text) {
        Some(found) => found,
        None => Seq::empty(),
    }
}

/// Whether the search finds a group in `text`.
pub open spec fn has_group(text: Seq<char>) -> bool {
    reports_group(text, group_captures(text))
}

/// `s` after one pass: its whitespace normalized, and the groups that the
/// search finds in the normalized text rewritten.
pub open spec fn pass(s: Seq<char>) -> Seq<char> {
    rewritten(normalized(s), group_captures(normalized(s)), 0)
}

/// `s` after `n` passes.
pub open spec fn passes(s: Seq<char>, n: nat) -> Seq<char>
    decreases n,
{
    if n == 0 {
        s
    } else {
        passes(pass(s), (n - 1) as nat)
    }
}

/// Whether a pass leaves `s` as it is.
pub open spec fn is_settled(s: Seq<char>) -> bool {
    pass(s) == s
}

/// `s` after passes are repeated until one leaves the text as it is, and
/// after `limit` passes at the latest.
pub open spec fn settled(s: Seq<char>, limit: nat) -> Seq<char>
    decreases limit,
{
    if limit == 0 || pass(s) == s {
        s
    } else {
        settled(pass(s), (limit - 1) as nat)
    }
}

/// The expansion of `s`: what [`transform`] returns.
pub open spec fn expansion(s: Seq<char>) -> Seq<char> {
    settled(s, PASS_LIMIT as nat)
}

/// One pass over `text`.
pub fn shallow_transform_chars(text: &Vec<char>) -> (out: Vec<char>)
    ensures
        out@ == pass(text@),
{
    let tidy = normalize_chars(text);
    if !holds_char(&tidy, '(') {
        proof {
            lemma_rewritten_without_paren(tidy@, group_captures(tidy@), 0);
            assert(tidy@.skip(0) == tidy@);
        }
        return tidy;
    }
    let searched = string_of(&tidy);
    match find_captures(GROUP_PATTERN, searched.as_str()) {
        Some(found) => rewrite_chars(&tidy, &found),
        None => {
            assert(tidy@.skip(0) == tidy@);
            tidy
        },
    }
}

/// One pass over `s`: normalizes its whitespace and rewrites the groups
/// that the search finds. Groups inside the body of another group are left
/// for a later pass.
pub fn shallow_transform(s: &str) -> (out: String)
    ensures
        out@ == pass(s@),
{
    let out = shallow_transform_chars(&chars_of(s));
    string_of(&out)
}

/// Expands the variant groups of `s`.
///
/// The result holds the words of `s` and, in place of each group, the items
/// of its members, nested groups included. Passes are repeated until one
/// changes nothing; after [`PASS_LIMIT`] passes the text is returned as it
/// then is.
pub fn transform(s: &str) -> (out: String)
    ensures
        out@ == expansion(s@),
{
    let mut current = chars_of(s);
    let mut left: u8 = PASS_LIMIT;
    while left > 0
        invariant
            settled(current@, left as nat) == expansion(s@),
        ensures
            current@ == expansion(s@),
        decreases left,
    {
        let next = shallow_transform_chars(&current);
        if same_chars(&next, &current) {
            break ;
        }
        current = next;
        left -= 1;
    }
    string_of(&current)
}

} // verus!
