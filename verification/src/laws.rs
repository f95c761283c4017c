//! What the library states of its texts, of rewriting and of expansion.
//!
//! The proofs here rest on the contracts and definitions of the other
//! modules. None of them looks into the search itself: what holds, holds
//! whatever the search reports.

use crate::expand::{
    expansion, group_captures, has_group, is_settled, pass, passes, settled, PASS_LIMIT,
};
use crate::group::{body_at, expanded_group, is_group, located, prefix_at, rewritten, Span};
use crate::group_lemmas::{
    groups_stand_apart, lemma_rewriting_keeps_order, lemma_rewritten_without_group,
    rewritten_words,
};
use crate::offsets::{
    char_index, lemma_char_index_complete, lemma_utf8_len_grows, lemma_utf8_len_of_last, utf8_len,
};
use crate::text::{is_blank, is_space, is_tidy, normalized, words};
use crate::text_lemmas::{
    lemma_blank_has_no_words, lemma_join_of_words_of_spaced, lemma_normalized_idempotent,
    lemma_normalized_is_tidy, lemma_normalized_keeps_chars, lemma_words_across_gap,
};
use vstd::prelude::*;

verus! {

/// The tidy texts are those that normalizing leaves as they are.
pub proof fn lemma_tidy_iff_normalized(s: Seq<char>)
    ensures
        is_tidy(s) <==> normalized(s) == s,
{
    if is_tidy(s) {
        lemma_join_of_words_of_spaced(s);
        if s.len() > 0 && is_space(s.last()) {
            assert(is_space(s[s.len() - 1]));
        }
    }
    if normalized(s) == s {
        lemma_normalized_is_tidy(s);
    }
}

/// In a text of ASCII characters, bytes and characters are counted alike.
pub proof fn lemma_char_index_of_ascii(s: Seq<char>, byte: int)
    requires
        forall|i: int| 0 <= i < s.len() ==> (#[trigger] s[i] as u32) < 0x80,
    ensures
        utf8_len(s) == s.len(),
        char_index(s, byte) == if 0 <= byte <= s.len() {
            Some(byte)
        } else {
            None
        },
    decreases s.len(),
{
    if s.len() > 0 {
        let init = s.drop_last();
        assert forall|i: int| 0 <= i < init.len() implies (#[trigger] init[i] as u32) < 0x80 by {
            assert(init[i] == s[i]);
        }
        lemma_char_index_of_ascii(init, byte);
        lemma_utf8_len_of_last(s);
        assert((s[s.len() - 1] as u32) < 0x80);
    }
}

/// The match that describes the group at `span` of `text`: the byte ranges
/// of the whole group, of its prefix, of its separator and of its body.
pub open spec fn capture_of(text: Seq<char>, span: Span) -> Seq<Option<(usize, usize)>> {
    let start = utf8_len(text.take(span.start));
    let sep = utf8_len(text.take(span.sep));
    let close = utf8_len(text.take(span.close));
    seq![
        Some((start as usize, (close + 1) as usize)),
        Some((start as usize, sep as usize)),
        Some((sep as usize, (sep + 1) as usize)),
        Some(((sep + 2) as usize, close as usize)),
    ]
}

/// Every group can be reported: the match that describes a group of `text`
/// is located at the span of that group.
pub proof fn lemma_located_finds_group(text: Seq<char>, span: Span)
    requires
        is_group(text, span),
        utf8_len(text) <= usize::MAX,
    ensures
        located(text, capture_of(text, span)) == Some(span),
{
    lemma_utf8_len_grows(text, 0, span.start);
    lemma_utf8_len_grows(text, span.start, span.sep);
    lemma_utf8_len_grows(text, span.sep, span.sep + 1);
    lemma_utf8_len_grows(text, span.sep + 1, span.sep + 2);
    lemma_utf8_len_grows(text, span.sep + 2, span.close);
    lemma_utf8_len_grows(text, span.close, span.close + 1);
    lemma_utf8_len_grows(text, span.close + 1, text.len() as int);
    assert(text.take(text.len() as int) == text);
    assert(text.take(span.sep + 1).drop_last() == text.take(span.sep));
    assert(text.take(span.sep + 2).drop_last() == text.take(span.sep + 1));
    assert(text.take(span.close + 1).drop_last() == text.take(span.close));
    lemma_utf8_len_of_last(text.take(span.sep + 1));
    lemma_utf8_len_of_last(text.take(span.sep + 2));
    lemma_utf8_len_of_last(text.take(span.close + 1));
    lemma_char_index_complete(text, span.start);
    lemma_char_index_complete(text, span.sep);
    lemma_char_index_complete(text, span.close);
}

/// Where the one match that is reported describes a group of `text`,
/// rewriting leaves what stands before and after the group as it is, and
/// puts the expanded group between them.
pub proof fn lemma_rewritten_single_group(
    text: Seq<char>,
    capture: Seq<Option<(usize, usize)>>,
    span: Span,
)
    requires
        located(text, capture) == Some(span),
        is_group(text, span),
    ensures
        rewritten(text, seq![capture], 0) == text.take(span.start) + expanded_group(
            prefix_at(text, span),
            text[span.sep],
            body_at(text, span),
        ) + text.skip(span.close + 1),
{
    assert(text.subrange(0, span.start) == text.take(span.start));
    assert(seq![capture].drop_first() == Seq::<Seq<Option<(usize, usize)>>>::empty());
    assert(rewritten(text, seq![capture].drop_first(), span.close + 1) == text.skip(
        span.close + 1,
    ));
}

/// Order preservation: where each group that a pass rewrites is a word of
/// its own, the pass keeps the words around the groups in their places and
/// in their order, and puts in place of each group the items of its
/// members, in the order of the members.
pub proof fn lemma_pass_keeps_order(s: Seq<char>)
    requires
        groups_stand_apart(normalized(s), group_captures(normalized(s)), 0),
    ensures
        words(pass(s)) == rewritten_words(normalized(s), group_captures(normalized(s)), 0),
{
    lemma_rewriting_keeps_order(normalized(s), group_captures(normalized(s)), 0);
}

/// Repeating passes leaves a settled text as it is.
pub proof fn lemma_settled_of_settled(s: Seq<char>, limit: nat)
    requires
        is_settled(s),
    ensures
        settled(s, limit) == s,
{
}

/// Any number of passes leaves a settled text as it is.
pub proof fn lemma_passes_of_settled(s: Seq<char>, n: nat)
    requires
        is_settled(s),
    ensures
        passes(s, n) == s,
    decreases n,
{
    if n > 0 {
        lemma_passes_of_settled(s, (n - 1) as nat);
    }
}

/// Where some pass before the last one that the limit allows changes
/// nothing, the result of repeating passes has settled.
pub proof fn lemma_settles_within_limit(s: Seq<char>, n: nat, limit: nat)
    requires
        n < limit,
        passes(s, n + 1) == passes(s, n),
    ensures
        is_settled(settled(s, limit)),
        settled(s, limit) == passes(s, n),
    decreases limit,
{
    if pass(s) == s {
        lemma_passes_of_settled(s, n);
    } else {
        if n == 0 {
            assert(passes(s, 1) == passes(pass(s), 0));
            assert(passes(s, 0) == s);
        } else {
            assert(passes(s, n + 1) == passes(pass(s), n));
            assert(passes(s, n) == passes(pass(s), (n - 1) as nat));
            lemma_settles_within_limit(pass(s), (n - 1) as nat, (limit - 1) as nat);
        }
    }
}

/// Idempotence: an expansion that has settled is its own expansion.
///
/// An expansion has settled unless the pass limit cut it short, so this
/// holds of every text that needs fewer passes than the limit allows (see
/// [`lemma_settles_within_limit`]).
pub proof fn lemma_expansion_idempotent(s: Seq<char>)
    requires
        is_settled(expansion(s)),
    ensures
        expansion(expansion(s)) == expansion(s),
{
}

/// Idempotence for texts that need fewer passes than the limit allows:
/// expanding the expansion of such a text changes nothing.
pub proof fn lemma_expansion_idempotent_within_limit(s: Seq<char>, n: nat)
    requires
        n < PASS_LIMIT,
        passes(s, n + 1) == passes(s, n),
    ensures
        expansion(expansion(s)) == expansion(s),
{
    lemma_settles_within_limit(s, n, PASS_LIMIT as nat);
}

/// A text in whose normalized form the search finds no group expands to
/// that normalized form.
pub proof fn lemma_ungrouped_expands_to_normalized(s: Seq<char>)
    requires
        !has_group(normalized(s)),
    ensures
        expansion(s) == normalized(s),
{
    let tidy = normalized(s);
    lemma_normalized_idempotent(s);
    lemma_rewritten_without_group(tidy, group_captures(tidy), 0);
    assert(tidy.skip(0) == tidy);
    assert(pass(s) == tidy);
    assert(pass(tidy) == tidy);
    if pass(s) != s {
        assert(settled(tidy, (PASS_LIMIT - 1) as nat) == tidy);
    }
}

/// A text without `(` holds no group: it expands to its normalized form.
pub proof fn lemma_text_without_paren_expands_to_normalized(s: Seq<char>)
    requires
        !s.contains('('),
    ensures
        expansion(s) == normalized(s),
{
    let tidy = normalized(s);
    assert(!tidy.contains('(')) by {
        if tidy.contains('(') {
            lemma_normalized_keeps_chars(s, '(');
        }
    }
    assert(!has_group(tidy)) by {
        let captures = group_captures(tidy);
        assert forall|i: int| 0 <= i < captures.len() && (#[trigger] located(tidy, captures[i]))
            is Some implies !is_group(tidy, located(tidy, captures[i])->0) by {
            let span = located(tidy, captures[i])->0;
            if is_group(tidy, span) {
                assert(tidy.contains(tidy[span.sep + 1]));
            }
        }
    }
    lemma_ungrouped_expands_to_normalized(s);
}

/// The result of repeating passes, with at least one pass allowed, depends
/// on the words of the text alone.
pub proof fn lemma_settled_ignores_spacing(a: Seq<char>, b: Seq<char>, limit: nat)
    requires
        words(a) == words(b),
        limit >= 1,
    ensures
        settled(a, limit) == settled(b, limit),
{
    let next = pass(a);
    assert(pass(b) == next);
    if next == a || next == b {
        // The text that the first pass left as it was is `next`; the other
        // one either is `next` too, or goes on from `next`, which is settled.
        assert(pass(next) == next);
        lemma_settled_of_settled(next, (limit - 1) as nat);
    }
}

/// Whitespace tolerance: the expansion of a text depends on its words
/// alone, not on how much whitespace, or which, lies around them.
pub proof fn lemma_expansion_ignores_spacing(a: Seq<char>, b: Seq<char>)
    requires
        words(a) == words(b),
    ensures
        expansion(a) == expansion(b),
{
    lemma_settled_ignores_spacing(a, b, PASS_LIMIT as nat);
}

/// Whitespace tolerance, spelled out: whichever whitespace parts two
/// stretches of a text, a newline and an indent or a single space, the
/// expansion is the same.
pub proof fn lemma_expansion_ignores_gap(a: Seq<char>, gap: Seq<char>, other: Seq<char>, b: Seq<char>)
    requires
        gap.len() > 0,
        is_blank(gap),
        other.len() > 0,
        is_blank(other),
    ensures
        expansion(a + gap + b) == expansion(a + other + b),
{
    lemma_words_across_gap(a, gap, b);
    lemma_words_across_gap(a, other, b);
    lemma_expansion_ignores_spacing(a + gap + b, a + other + b);
}

/// A text and its normalized form expand alike.
pub proof fn lemma_expansion_of_normalized(s: Seq<char>)
    ensures
        expansion(normalized(s)) == expansion(s),
{
    lemma_normalized_idempotent(s);
    lemma_expansion_ignores_spacing(normalized(s), s);
}

/// A text that holds nothing but whitespace, the empty text among them,
/// expands to the empty text.
pub proof fn lemma_blank_expands_to_empty(s: Seq<char>)
    requires
        is_blank(s),
    ensures
        expansion(s) == Seq::<char>::empty(),
{
    lemma_blank_has_no_words(s);
    assert(!s.contains('(')) by {
        if s.contains('(') {
            let i = choose|i: int| 0 <= i < s.len() && s[i] == '(';
            assert(is_space(s[i]));
        }
    }
    lemma_text_without_paren_expands_to_normalized(s);
}

/// The form of an expansion: one that has settled, and in which the search
/// finds no more groups, is tidy. Its words stand one space apart, and no
/// whitespace stands before the first or after the last.
pub proof fn lemma_settled_expansion_is_tidy(s: Seq<char>)
    requires
        is_settled(expansion(s)),
        !has_group(normalized(expansion(s))),
    ensures
        is_tidy(expansion(s)),
        normalized(expansion(s)) == expansion(s),
{
    let out = expansion(s);
    lemma_rewritten_without_group(normalized(out), group_captures(normalized(out)), 0);
    assert(normalized(out).skip(0) == normalized(out));
    lemma_normalized_is_tidy(out);
}

} // verus!
