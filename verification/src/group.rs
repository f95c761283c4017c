//! Variant groups and how one pass rewrites them.
//!
//! A group is written `prefix-(a b c)` or `prefix:(a b c)`. Rewriting puts,
//! in place of the group, one item for each member of its body: the prefix,
//! the separator and the member. A leading `!` of a member moves to the front
//! of its item, and the member `~` stands for the prefix alone.

use crate::offsets::{char_index, CharTable};
use crate::text::{
    append_chars, chars_of, copy_range, is_space, is_space_char, join, lemma_deep_view_chars,
    space_free, split_words, string_of, words,
};
use vstd::prelude::*;

verus! {

/// Where a group lies in a text, in characters: its prefix begins at `start`,
/// its separator is at `sep`, followed by `(`, and its `)` is at `close`.
pub struct Span {
    pub start: int,
    pub sep: int,
    pub close: int,
}

/// Executable form of [`Span`].
#[derive(Clone, Copy, Debug)]
pub struct GroupSpan {
    pub start: usize,
    pub sep: usize,
    pub close: usize,
}

impl View for GroupSpan {
    type V = Span;

    open spec fn view(&self) -> Span {
        Span { start: self.start as int, sep: self.sep as int, close: self.close as int }
    }
}

/// The prefix of the group at `span`.
pub open spec fn prefix_at(text: Seq<char>, span: Span) -> Seq<char> {
    text.subrange(span.start, span.sep)
}

/// The body of the group at `span`, without its parentheses.
pub open spec fn body_at(text: Seq<char>, span: Span) -> Seq<char> {
    text.subrange(span.sep + 2, span.close)
}

/// Whether `text` holds a group at `span`: a prefix that is not empty and
/// holds no whitespace, then `-` or `:`, and in parentheses a body that is
/// not empty.
pub open spec fn is_group(text: Seq<char>, span: Span) -> bool {
    &&& 0 <= span.start < span.sep
    &&& span.sep + 2 < span.close < text.len()
    &&& space_free(prefix_at(text, span))
    &&& (text[span.sep] == '-' || text[span.sep] == ':')
    &&& text[span.sep + 1] == '('
    &&& text[span.close] == ')'
}

/// The span that a reported match describes, which lists the byte range of
/// the whole match, of the prefix, of the separator and of the body.
///
/// There is one where the match has exactly these four ranges, where they
/// lie as in `prefix`, one byte of separator, `(`, `body`, `)`, and where the
/// prefix, the separator and the end of the body begin at characters of `text`.
pub open spec fn located(text: Seq<char>, capture: Seq<Option<(usize, usize)>>) -> Option<Span> {
    if capture.len() == 4 && capture[0] is Some && capture[1] is Some && capture[2] is Some
        && capture[3] is Some {
        let whole = capture[0]->0;
        let prefix = capture[1]->0;
        let sep = capture[2]->0;
        let body = capture[3]->0;
        let start = char_index(text, whole.0 as int);
        let sep_at = char_index(text, sep.0 as int);
        let close = char_index(text, body.1 as int);
        if prefix.0 == whole.0 && sep.0 == prefix.1 && sep.1 == sep.0 + 1 && body.0 == sep.1 + 1
            && whole.1 == body.1 + 1 && start is Some && sep_at is Some && close is Some {
            Some(Span { start: start->0, sep: sep_at->0, close: close->0 })
        } else {
            None
        }
    } else {
        None
    }
}

/// What stands for `member` of a group with this prefix and separator.
pub open spec fn expanded_member(prefix: Seq<char>, sep: char, member: Seq<char>) -> Seq<char> {
    if member == seq!['~'] {
        prefix
    } else if member.len() > 0 && member[0] == '!' {
        seq!['!'] + prefix + seq![sep] + member.drop_first()
    } else {
        prefix + seq![sep] + member
    }
}

/// What stands for each of `members`, in their order.
pub open spec fn expanded_members(prefix: Seq<char>, sep: char, members: Seq<Seq<char>>) -> Seq<
    Seq<char>,
> {
    Seq::new(members.len(), |i: int| expanded_member(prefix, sep, members[i]))
}

/// What stands for a whole group: the items of its members, joined by single spaces.
pub open spec fn expanded_group(prefix: Seq<char>, sep: char, body: Seq<char>) -> Seq<char> {
    join(expanded_members(prefix, sep, words(body)))
}

/// `text` from character `from` on, with each group that `captures` reports
/// rewritten in place.
///
/// The matches are taken from left to right. One that describes no span, or
/// a span at which `text` holds no group, or one that begins before the end
/// of the group rewritten last, leaves the text as it is.
pub open spec fn rewritten(
    text: Seq<char>,
    captures: Seq<Seq<Option<(usize, usize)>>>,
    from: int,
) -> Seq<char>
    decreases captures.len(),
{
    if captures.len() == 0 {
        text.skip(from)
    } else {
        match located(text, captures[0]) {
            Some(span) if from <= span.start && is_group(text, span) => {
                text.subrange(from, span.start) + expanded_group(
                    prefix_at(text, span),
                    text[span.sep],
                    body_at(text, span),
                ) + rewritten(text, captures.drop_first(), span.close + 1)
            },
            _ => rewritten(text, captures.drop_first(), from),
        }
    }
}

/// Whether one of `captures` describes a group of `text`.
pub open spec fn reports_group(text: Seq<char>, captures: Seq<Seq<Option<(usize, usize)>>>) -> bool {
    exists|i: int|
        0 <= i < captures.len() && (#[trigger] located(text, captures[i])) is Some && is_group(
            text,
            located(text, captures[i])->0,
        )
}

/// Whether `text` holds `c`.
pub fn holds_char(text: &Vec<char>, c: char) -> (found: bool)
    ensures
        found == text@.contains(c),
{
    let mut i: usize = 0;
    while i < text.len()
        invariant
            i <= text.len(),
            forall|k: int| 0 <= k < i ==> text@[k] != c,
        decreases text.len() - i,
    {
        if text[i] == c {
            return true;
        }
        i += 1;
    }
    false
}

/// Finds the span that a reported match describes in the text of `table`.
pub fn locate(table: &CharTable, capture: &Vec<Option<(usize, usize)>>) -> (found: Option<
    GroupSpan,
>)
    requires
        table.wf(),
    ensures
        match found {
            Some(span) => located(table.text(), capture.deep_view()) == Some(span@),
            None => located(table.text(), capture.deep_view()) is None,
        },
{
    if capture.len() != 4 {
        return None;
    }
    match (capture[0], capture[1], capture[2], capture[3]) {
        (Some(whole), Some(prefix), Some(sep), Some(body)) => {
            if prefix.0 != whole.0 || sep.0 != prefix.1 || sep.1 <= sep.0 || sep.1 - sep.0 != 1
                || body.0 <= sep.1 || body.0 - sep.1 != 1 || whole.1 <= body.1 || whole.1 - body.1
                != 1 {
                return None;
            }
            match (table.get(whole.0), table.get(sep.0), table.get(body.1)) {
                (Some(start), Some(sep_at), Some(close)) => Some(
                    GroupSpan { start, sep: sep_at, close },
                ),
                _ => None,
            }
        },
        _ => None,
    }
}

/// Whether no character of `text` from index `from` up to index `to` is whitespace.
pub fn holds_no_space(text: &Vec<char>, from: usize, to: usize) -> (free: bool)
    requires
        from <= to <= text.len(),
    ensures
        free == space_free(text@.subrange(from as int, to as int)),
{
    let mut i: usize = from;
    while i < to
        invariant
            from <= i <= to <= text.len(),
            forall|k: int| from <= k < i ==> !is_space(text@[k]),
        decreases to - i,
    {
        if is_space_char(text[i]) {
            assert(text@.subrange(from as int, to as int)[i - from] == text@[i as int]);
            return false;
        }
        i += 1;
    }
    assert forall|k: int| 0 <= k < to - from implies !is_space(
        #[trigger] text@.subrange(from as int, to as int)[k],
    ) by {
        assert(text@.subrange(from as int, to as int)[k] == text@[from + k]);
    }
    true
}

/// Whether `text` holds a group at `span`.
pub fn holds_group(text: &Vec<char>, span: &GroupSpan) -> (held: bool)
    ensures
        held == is_group(text@, span@),
{
    span.start < span.sep && span.sep < span.close && span.close < text.len() && span.close
        - span.sep > 2 && (text[span.sep] == '-' || text[span.sep] == ':') && text[span.sep + 1]
        == '(' && text[span.close] == ')' && holds_no_space(text, span.start, span.sep)
}

/// Appends to `out` what stands for `member` of a group with this prefix and separator.
pub fn push_expanded_member(out: &mut Vec<char>, prefix: &Vec<char>, sep: char, member: &Vec<char>)
    ensures
        final(out)@ == old(out)@ + expanded_member(prefix@, sep, member@),
{
    if member.len() == 1 && member[0] == '~' {
        assert(member@ == seq!['~']);
        append_chars(out, prefix);
    } else if member.len() > 0 && member[0] == '!' {
        out.push('!');
        append_chars(out, prefix);
        out.push(sep);
        let rest = copy_range(member, 1, member.len());
        append_chars(out, &rest);
        assert(member@.drop_first() == member@.subrange(1, member@.len() as int));
        assert(out@ == old(out)@ + (seq!['!'] + prefix@ + seq![sep] + member@.drop_first()));
    } else {
        append_chars(out, prefix);
        out.push(sep);
        append_chars(out, member);
        assert(out@ == old(out)@ + (prefix@ + seq![sep] + member@));
    }
}

/// What stands for the group with this prefix, separator and body.
pub fn expand_group_chars(prefix: &Vec<char>, sep: char, body: &Vec<char>) -> (items: Vec<char>)
    ensures
        items@ == expanded_group(prefix@, sep, body@),
{
    let members = split_words(body);
    let ghost all = expanded_members(prefix@, sep, words(body@));
    let mut items: Vec<char> = Vec::new();
    let mut i: usize = 0;
    assert(all.take(0) == Seq::<Seq<char>>::empty());
    while i < members.len()
        invariant
            i <= members.len(),
            members.deep_view() == words(body@),
            all == expanded_members(prefix@, sep, words(body@)),
            items@ == join(all.take(i as int)),
        decreases members.len() - i,
    {
        let ghost done = all.take(i as int);
        let ghost next = all.take(i + 1);
        assert(next.drop_last() == done);
        proof {
            lemma_deep_view_chars(members@[i as int]);
        }
        assert(next.last() == expanded_member(prefix@, sep, members@[i as int]@));
        if i > 0 {
            items.push(' ');
        }
        push_expanded_member(&mut items, prefix, sep, &members[i]);
        i += 1;
    }
    assert(all.take(i as int) == all);
    items
}

/// Rewrites in `text` each group that `captures` reports.
pub fn rewrite_chars(text: &Vec<char>, captures: &Vec<Vec<Option<(usize, usize)>>>) -> (out: Vec<
    char,
>)
    ensures
        out@ == rewritten(text@, captures.deep_view(), 0),
{
    let table = CharTable::new(text);
    let ghost all = captures.deep_view();
    let mut out: Vec<char> = Vec::new();
    let mut from: usize = 0;
    let mut k: usize = 0;
    assert(all.skip(0) == all);
    while k < captures.len()
        invariant
            k <= captures.len(),
            from <= text.len(),
            table.wf(),
            table.text() == text@,
            all == captures.deep_view(),
            rewritten(text@, all, 0) == out@ + rewritten(text@, all.skip(k as int), from as int),
        decreases captures.len() - k,
    {
        let ghost rest = all.skip(k as int);
        assert(rest.drop_first() == all.skip(k + 1));
        assert(rest[0] == captures@[k as int].deep_view());
        match locate(&table, &captures[k]) {
            Some(span) => {
                if from <= span.start && holds_group(text, &span) {
                    let kept = copy_range(text, from, span.start);
                    let prefix = copy_range(text, span.start, span.sep);
                    let body = copy_range(text, span.sep + 2, span.close);
                    let items = expand_group_chars(&prefix, text[span.sep], &body);
                    append_chars(&mut out, &kept);
                    append_chars(&mut out, &items);
                    from = span.close + 1;
                }
            },
            None => {},
        }
        k += 1;
    }
    assert(all.skip(k as int) == Seq::<Seq<Option<(usize, usize)>>>::empty());
    let tail = copy_range(text, from, text.len());
    append_chars(&mut out, &tail);
    assert(text@.skip(from as int) == text@.subrange(from as int, text@.len() as int));
    out
}

/// What stands for the group with this prefix, separator and body.
pub fn expand_group(prefix: &str, sep: char, body: &str) -> (items: String)
    ensures
        items@ == expanded_group(prefix@, sep, body@),
{
    let items = expand_group_chars(&chars_of(prefix), sep, &chars_of(body));
    string_of(&items)
}

/// Rewrites in `text` each group that `captures` reports.
///
/// Each item of `captures` describes one match: the byte range of the whole
/// group, of its prefix, of its separator and of its body, all of them in the
/// UTF-8 form of `text`.
pub fn rewrite_groups(text: &str, captures: &Vec<Vec<Option<(usize, usize)>>>) -> (out: String)
    ensures
        out@ == rewritten(text@, captures.deep_view(), 0),
{
    let out = rewrite_chars(&chars_of(text), captures);
    string_of(&out)
}

} // verus!
