//! What holds of rewriting.

use crate::group::{
    body_at, expanded_group, expanded_member, expanded_members, is_group, located, prefix_at,
    reports_group, rewritten, Span,
};
use crate::text::{all_words, is_space, space_free, words};
use crate::text_lemmas::{lemma_words_are_words, lemma_words_of_concat, lemma_words_of_join};
use vstd::prelude::*;

verus! {

/// Without a `(` in the text, no match is rewritten.
pub proof fn lemma_rewritten_without_paren(
    text: Seq<char>,
    captures: Seq<Seq<Option<(usize, usize)>>>,
    from: int,
)
    requires
        !text.contains('('),
    ensures
        rewritten(text, captures, from) == text.skip(from),
    decreases captures.len(),
{
    if captures.len() > 0 {
        match located(text, captures[0]) {
            Some(span) => {
                if is_group(text, span) {
                    assert(text.contains(text[span.sep + 1]));
                }
            },
            None => {},
        }
        lemma_rewritten_without_paren(text, captures.drop_first(), from);
    }
}

/// Where no match describes a group, rewriting changes nothing.
pub proof fn lemma_rewritten_without_group(
    text: Seq<char>,
    captures: Seq<Seq<Option<(usize, usize)>>>,
    from: int,
)
    requires
        !reports_group(text, captures),
    ensures
        rewritten(text, captures, from) == text.skip(from),
    decreases captures.len(),
{
    if captures.len() > 0 {
        let rest = captures.drop_first();
        assert(located(text, captures[0]) is Some ==> !is_group(
            text,
            located(text, captures[0])->0,
        ));
        assert(!reports_group(text, rest)) by {
            assert forall|i: int| 0 <= i < rest.len() && (#[trigger] located(text, rest[i]))
                is Some implies !is_group(text, located(text, rest[i])->0) by {
                assert(rest[i] == captures[i + 1]);
                assert(located(text, captures[i + 1]) is Some);
            }
        }
        lemma_rewritten_without_group(text, rest, from);
    }
}

/// The items that stand for the members of a group are words, as long as
/// the prefix is not empty and neither it nor the separator holds whitespace.
pub proof fn lemma_expanded_members_are_words(
    prefix: Seq<char>,
    sep: char,
    members: Seq<Seq<char>>,
)
    requires
        prefix.len() > 0,
        space_free(prefix),
        !is_space(sep),
        all_words(members),
    ensures
        all_words(expanded_members(prefix, sep, members)),
{
    let items = expanded_members(prefix, sep, members);
    assert forall|i: int| 0 <= i < items.len() implies (#[trigger] items[i]).len() > 0
        && space_free(items[i]) by {
        let member = members[i];
        let item = items[i];
        assert(member.len() > 0 && space_free(member));
        assert forall|k: int| 0 <= k < item.len() implies !is_space(#[trigger] item[k]) by {
            if member == seq!['~'] {
                assert(item[k] == prefix[k]);
            } else if member[0] == '!' {
                if k == 0 {
                } else if k <= prefix.len() {
                    assert(item[k] == prefix[k - 1]);
                } else if k == prefix.len() + 1 {
                } else {
                    assert(item[k] == member[k - prefix.len() - 1]);
                }
            } else {
                if k < prefix.len() {
                    assert(item[k] == prefix[k]);
                } else if k == prefix.len() {
                } else {
                    assert(item[k] == member[k - prefix.len() - 1]);
                }
            }
        }
    }
}

/// The members of a group keep their order: the words of the expanded group
/// are the items that stand for the words of its body, one for one. This
/// holds of every group of a text, whose prefix is never empty and never
/// holds whitespace.
pub proof fn lemma_members_keep_order(prefix: Seq<char>, sep: char, body: Seq<char>)
    requires
        prefix.len() > 0,
        space_free(prefix),
        !is_space(sep),
    ensures
        words(expanded_group(prefix, sep, body)) == expanded_members(prefix, sep, words(body)),
        words(expanded_group(prefix, sep, body)).len() == words(body).len(),
        forall|i: int|
            0 <= i < words(body).len() ==> #[trigger] words(expanded_group(prefix, sep, body))[i]
                == expanded_member(prefix, sep, words(body)[i]),
{
    lemma_words_are_words(body);
    lemma_expanded_members_are_words(prefix, sep, words(body));
    lemma_words_of_join(expanded_members(prefix, sep, words(body)));
}

/// Whether the group at `span` is a word of its own: whitespace or an end of
/// the text lies on either side of it.
pub open spec fn stands_apart(text: Seq<char>, span: Span) -> bool {
    &&& span.start == 0 || is_space(text[span.start - 1])
    &&& span.close + 1 == text.len() || is_space(text[span.close + 1])
}

/// Whether each group that [`rewritten`] rewrites is a word of its own.
pub open spec fn groups_stand_apart(
    text: Seq<char>,
    captures: Seq<Seq<Option<(usize, usize)>>>,
    from: int,
) -> bool
    decreases captures.len(),
{
    if captures.len() == 0 {
        true
    } else {
        match located(text, captures[0]) {
            Some(span) if from <= span.start && is_group(text, span) => {
                stands_apart(text, span) && groups_stand_apart(
                    text,
                    captures.drop_first(),
                    span.close + 1,
                )
            },
            _ => groups_stand_apart(text, captures.drop_first(), from),
        }
    }
}

/// The words of `text` from character `from` on, with the items of its
/// members in place of each group that [`rewritten`] rewrites.
pub open spec fn rewritten_words(
    text: Seq<char>,
    captures: Seq<Seq<Option<(usize, usize)>>>,
    from: int,
) -> Seq<Seq<char>>
    decreases captures.len(),
{
    if captures.len() == 0 {
        words(text.skip(from))
    } else {
        match located(text, captures[0]) {
            Some(span) if from <= span.start && is_group(text, span) => {
                words(text.subrange(from, span.start)) + expanded_members(
                    prefix_at(text, span),
                    text[span.sep],
                    words(body_at(text, span)),
                ) + rewritten_words(text, captures.drop_first(), span.close + 1)
            },
            _ => rewritten_words(text, captures.drop_first(), from),
        }
    }
}

/// Nothing is left to rewrite at the end of the text.
pub proof fn lemma_rewritten_at_end(text: Seq<char>, captures: Seq<Seq<Option<(usize, usize)>>>)
    ensures
        rewritten(text, captures, text.len() as int) == Seq::<char>::empty(),
    decreases captures.len(),
{
    if captures.len() > 0 {
        lemma_rewritten_at_end(text, captures.drop_first());
    }
}

/// Whitespace at which rewriting begins is the first character of what it gives.
pub proof fn lemma_rewritten_begins_with_space(
    text: Seq<char>,
    captures: Seq<Seq<Option<(usize, usize)>>>,
    from: int,
)
    requires
        0 <= from < text.len(),
        is_space(text[from]),
        groups_stand_apart(text, captures, from),
    ensures
        rewritten(text, captures, from).len() > 0,
        rewritten(text, captures, from)[0] == text[from],
    decreases captures.len(),
{
    if captures.len() > 0 {
        match located(text, captures[0]) {
            Some(span) if from <= span.start && is_group(text, span) => {
                assert(prefix_at(text, span)[0] == text[span.start]);
                assert(span.start > from);
                assert(text.subrange(from, span.start)[0] == text[from]);
            },
            _ => {
                lemma_rewritten_begins_with_space(text, captures.drop_first(), from);
            },
        }
    }
}

/// Order preservation: where each group is a word of its own, rewriting
/// keeps the words before, between and after the groups in their places, and
/// puts in place of each group the items of its members, in the order of the
/// members.
pub proof fn lemma_rewriting_keeps_order(
    text: Seq<char>,
    captures: Seq<Seq<Option<(usize, usize)>>>,
    from: int,
)
    requires
        0 <= from <= text.len(),
        groups_stand_apart(text, captures, from),
    ensures
        words(rewritten(text, captures, from)) == rewritten_words(text, captures, from),
    decreases captures.len(),
{
    if captures.len() > 0 {
        let later = captures.drop_first();
        match located(text, captures[0]) {
            Some(span) if from <= span.start && is_group(text, span) => {
                let kept = text.subrange(from, span.start);
                let prefix = prefix_at(text, span);
                let sep = text[span.sep];
                let items = expanded_group(prefix, sep, body_at(text, span));
                let rest = rewritten(text, later, span.close + 1);
                lemma_rewriting_keeps_order(text, later, span.close + 1);
                lemma_members_keep_order(prefix, sep, body_at(text, span));
                if span.close + 1 == text.len() {
                    lemma_rewritten_at_end(text, later);
                } else {
                    lemma_rewritten_begins_with_space(text, later, span.close + 1);
                }
                lemma_words_of_concat(items, rest);
                if kept.len() > 0 {
                    assert(kept.last() == text[span.start - 1]);
                }
                lemma_words_of_concat(kept, items + rest);
                assert(kept + items + rest == kept + (items + rest));
                assert(words(kept) + (words(items) + words(rest)) == words(kept) + words(items)
                    + words(rest));
            },
            _ => {
                lemma_rewriting_keeps_order(text, later, from);
            },
        }
    }
}

} // verus!
