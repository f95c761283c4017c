//! What holds of words, of joining and of normalizing.

use crate::text::{all_words, is_blank, is_space, is_tidy, join, normalized, space_free, words};
use vstd::prelude::*;

verus! {

/// `words(s)` holds words only, and at least one where `s` ends in a
/// character that is not whitespace.
pub proof fn lemma_words_are_words(s: Seq<char>)
    ensures
        all_words(words(s)),
        s.len() > 0 && !is_space(s.last()) ==> words(s).len() > 0,
    decreases s.len(),
{
    if s.len() > 0 {
        let init = s.drop_last();
        lemma_words_are_words(init);
        let before = words(init);
        let after = words(s);
        if !is_space(s.last()) {
            if s.len() >= 2 && !is_space(s[s.len() - 2]) {
                assert(init.last() == s[s.len() - 2]);
                let grown = before.last().push(s.last());
                assert forall|i: int| 0 <= i < after.len() implies (#[trigger] after[i]).len() > 0
                    && space_free(after[i]) by {
                    if i < after.len() - 1 {
                        assert(after[i] == before[i]);
                    } else {
                        assert(after[i] == grown);
                        assert forall|k: int| 0 <= k < grown.len() implies !is_space(
                            #[trigger] grown[k],
                        ) by {
                            if k < grown.len() - 1 {
                                assert(grown[k] == before.last()[k]);
                            }
                        }
                    }
                }
            } else {
                assert forall|i: int| 0 <= i < after.len() implies (#[trigger] after[i]).len() > 0
                    && space_free(after[i]) by {
                    if i < after.len() - 1 {
                        assert(after[i] == before[i]);
                    }
                }
            }
        }
    }
}

/// The words of two texts that meet at whitespace, or of which one is
/// empty, are the words of the first followed by the words of the second.
pub proof fn lemma_words_of_concat(a: Seq<char>, b: Seq<char>)
    requires
        a.len() == 0 || b.len() == 0 || is_space(a.last()) || is_space(b[0]),
    ensures
        words(a + b) == words(a) + words(b),
    decreases b.len(),
{
    if b.len() == 0 {
        assert(a + b == a);
        assert(words(a) + words(b) == words(a));
    } else {
        let head = b.drop_last();
        let c = b.last();
        let whole = a + b;
        assert(whole.drop_last() == a + head);
        assert(whole.last() == c);
        if head.len() > 0 {
            assert(head[0] == b[0]);
            assert(whole[whole.len() - 2] == head.last());
            assert(b[b.len() - 2] == head.last());
        }
        lemma_words_of_concat(a, head);
        if is_space(c) {
        } else if head.len() > 0 && !is_space(head.last()) {
            lemma_words_are_words(head);
            let before = words(head);
            let joint = words(a) + before;
            assert(joint.last() == before.last());
            assert(joint.drop_last() == words(a) + before.drop_last());
            assert(joint.drop_last().push(joint.last().push(c)) == words(a)
                + before.drop_last().push(before.last().push(c)));
        } else if head.len() > 0 {
            assert((words(a) + words(head)).push(seq![c]) == words(a) + words(head).push(
                seq![c],
            ));
        } else {
            assert(a + head == a);
            assert(words(head) == Seq::<Seq<char>>::empty());
            if a.len() > 0 {
                assert(whole[whole.len() - 2] == a.last());
            }
            assert(words(b) == seq![seq![c]]);
            assert(words(a).push(seq![c]) == words(a) + seq![seq![c]]);
        }
    }
}

/// A word is the one word of itself.
pub proof fn lemma_words_of_word(w: Seq<char>)
    requires
        w.len() > 0,
        space_free(w),
    ensures
        words(w) == seq![w],
    decreases w.len(),
{
    let head = w.drop_last();
    assert(!is_space(w[w.len() - 1]));
    if head.len() == 0 {
        assert(words(head) == Seq::<Seq<char>>::empty());
        assert(seq![w.last()] == w);
        assert(Seq::<Seq<char>>::empty().push(w) == seq![w]);
    } else {
        assert(space_free(head)) by {
            assert forall|i: int| 0 <= i < head.len() implies !is_space(#[trigger] head[i]) by {
                assert(head[i] == w[i]);
            }
        }
        lemma_words_of_word(head);
        assert(!is_space(w[w.len() - 2]));
        assert(seq![head].last().push(w.last()) == w);
        assert(seq![head].drop_last().push(w) == seq![w]);
    }
}

/// Appending a space and then a word to `a` appends that word to the words of `a`.
pub proof fn lemma_words_of_appended_word(a: Seq<char>, w: Seq<char>)
    requires
        w.len() > 0,
        space_free(w),
    ensures
        words(a + seq![' '] + w) == words(a).push(w),
{
    let spaced = a + seq![' '];
    assert(spaced.drop_last() == a);
    assert(words(spaced) == words(a));
    lemma_words_of_concat(spaced, w);
    lemma_words_of_word(w);
    assert(words(a) + seq![w] == words(a).push(w));
}

/// Splitting what [`join`] made of words gives the same words back.
pub proof fn lemma_words_of_join(ws: Seq<Seq<char>>)
    requires
        all_words(ws),
    ensures
        words(join(ws)) == ws,
    decreases ws.len(),
{
    if ws.len() == 0 {
    } else if ws.len() == 1 {
        lemma_words_of_word(ws[0]);
        assert(seq![ws[0]] == ws);
    } else {
        let init = ws.drop_last();
        assert(all_words(init)) by {
            assert forall|i: int| 0 <= i < init.len() implies (#[trigger] init[i]).len() > 0
                && space_free(init[i]) by {
                assert(init[i] == ws[i]);
            }
        }
        lemma_words_of_join(init);
        lemma_words_of_appended_word(join(init), ws.last());
        assert(init.push(ws.last()) == ws);
    }
}

/// Normalizing twice is normalizing once.
pub proof fn lemma_normalized_idempotent(s: Seq<char>)
    ensures
        words(normalized(s)) == words(s),
        normalized(normalized(s)) == normalized(s),
{
    lemma_words_are_words(s);
    lemma_words_of_join(words(s));
}

/// A text without words normalizes to the empty text, and a blank text has no words.
pub proof fn lemma_blank_has_no_words(s: Seq<char>)
    requires
        is_blank(s),
    ensures
        words(s) == Seq::<Seq<char>>::empty(),
        normalized(s) == Seq::<char>::empty(),
    decreases s.len(),
{
    if s.len() > 0 {
        let init = s.drop_last();
        assert(is_blank(init)) by {
            assert forall|i: int| 0 <= i < init.len() implies is_space(#[trigger] init[i]) by {
                assert(init[i] == s[i]);
            }
        }
        lemma_blank_has_no_words(init);
    }
}

/// Whitespace between two texts only parts their words: which whitespace
/// it is, and how much, makes no difference.
pub proof fn lemma_words_across_gap(a: Seq<char>, gap: Seq<char>, b: Seq<char>)
    requires
        gap.len() > 0,
        is_blank(gap),
    ensures
        words(a + gap + b) == words(a) + words(b),
{
    lemma_blank_has_no_words(gap);
    lemma_words_of_concat(a, gap);
    assert(is_space(gap[gap.len() - 1]));
    assert((a + gap).last() == gap.last());
    lemma_words_of_concat(a + gap, b);
    assert(words(a) + words(gap) == words(a));
}

/// Every character of a word of `s` is a character of `s`.
pub proof fn lemma_words_keep_chars(s: Seq<char>, i: int, k: int)
    requires
        0 <= i < words(s).len(),
        0 <= k < words(s)[i].len(),
    ensures
        s.contains(words(s)[i][k]),
    decreases s.len(),
{
    let init = s.drop_last();
    let before = words(init);
    let c = words(s)[i][k];
    if is_space(s.last()) {
        lemma_words_keep_chars(init, i, k);
        let at = choose|at: int| 0 <= at < init.len() && init[at] == c;
        assert(s[at] == c);
    } else if s.len() >= 2 && !is_space(s[s.len() - 2]) {
        assert(init.last() == s[s.len() - 2]);
        lemma_words_are_words(init);
        if i < before.len() - 1 || k < before.last().len() {
            assert(before[i][k] == c);
            lemma_words_keep_chars(init, i, k);
            let at = choose|at: int| 0 <= at < init.len() && init[at] == c;
            assert(s[at] == c);
        } else {
            assert(s[s.len() - 1] == c);
        }
    } else {
        if i < before.len() {
            assert(before[i][k] == c);
            lemma_words_keep_chars(init, i, k);
            let at = choose|at: int| 0 <= at < init.len() && init[at] == c;
            assert(s[at] == c);
        } else {
            assert(s[s.len() - 1] == c);
        }
    }
}

/// Every character of `join(ws)` is a space or a character of an item of `ws`.
pub proof fn lemma_join_keeps_chars(ws: Seq<Seq<char>>, c: char)
    requires
        join(ws).contains(c),
        c != ' ',
    ensures
        exists|i: int, k: int| 0 <= i < ws.len() && 0 <= k < ws[i].len() && #[trigger] ws[i][k] == c,
    decreases ws.len(),
{
    let at = choose|at: int| 0 <= at < join(ws).len() && join(ws)[at] == c;
    if ws.len() == 1 {
        assert(ws[0][at] == c);
    } else if ws.len() >= 2 {
        let init = ws.drop_last();
        if at < join(init).len() {
            assert(join(init)[at] == c);
            lemma_join_keeps_chars(init, c);
            let (i, k) = choose|i: int, k: int|
                0 <= i < init.len() && 0 <= k < init[i].len() && #[trigger] init[i][k] == c;
            assert(ws[i][k] == c);
        } else {
            let k = at - join(init).len() - 1;
            assert(ws[ws.len() - 1][k] == c);
        }
    }
}

/// Normalizing adds no character but the space.
pub proof fn lemma_normalized_keeps_chars(s: Seq<char>, c: char)
    requires
        normalized(s).contains(c),
        c != ' ',
    ensures
        s.contains(c),
{
    lemma_join_keeps_chars(words(s), c);
    let (i, k) = choose|i: int, k: int|
        0 <= i < words(s).len() && 0 <= k < words(s)[i].len() && #[trigger] words(s)[i][k] == c;
    lemma_words_keep_chars(s, i, k);
}

/// Joined words are a tidy text, which ends in the last character of the last word.
pub proof fn lemma_join_is_tidy(ws: Seq<Seq<char>>)
    requires
        all_words(ws),
    ensures
        is_tidy(join(ws)),
        ws.len() > 0 ==> join(ws).len() > 0 && !is_space(join(ws).last()) && !is_space(
            join(ws)[0],
        ),
    decreases ws.len(),
{
    if ws.len() == 1 {
        let w = ws[0];
        assert(space_free(w));
        assert(!is_space(w[w.len() - 1]));
    } else if ws.len() >= 2 {
        let init = ws.drop_last();
        let last = ws.last();
        assert(all_words(init)) by {
            assert forall|i: int| 0 <= i < init.len() implies (#[trigger] init[i]).len() > 0
                && space_free(init[i]) by {
                assert(init[i] == ws[i]);
            }
        }
        lemma_join_is_tidy(init);
        let head = join(init);
        let whole = join(ws);
        assert(space_free(last));
        assert(whole.len() == head.len() + 1 + last.len());
        assert(whole.last() == last[last.len() - 1]);
        assert(whole[0] == head[0]);
        assert forall|i: int| 0 <= i < whole.len() && is_space(#[trigger] whole[i]) implies whole[i]
            == ' ' && 0 < i < whole.len() - 1 && !is_space(whole[i - 1]) && !is_space(
            whole[i + 1],
        ) by {
            if i < head.len() {
                assert(whole[i] == head[i]);
                assert(is_space(head[i]));
                assert(whole[i - 1] == head[i - 1]);
                assert(whole[i + 1] == head[i + 1]);
            } else if i == head.len() {
                assert(whole[i - 1] == head[head.len() - 1]);
                assert(whole[i + 1] == last[0]);
            } else {
                assert(whole[i] == last[i - head.len() - 1]);
            }
        }
    }
}

/// Normalizing gives a tidy text.
pub proof fn lemma_normalized_is_tidy(s: Seq<char>)
    ensures
        is_tidy(normalized(s)),
{
    lemma_words_are_words(s);
    lemma_join_is_tidy(words(s));
}

/// Joining, after one more character is put at the end of the last item.
pub proof fn lemma_join_grown_word(ws: Seq<Seq<char>>, c: char)
    requires
        ws.len() > 0,
    ensures
        join(ws.drop_last().push(ws.last().push(c))) == join(ws).push(c),
{
    let grown = ws.drop_last().push(ws.last().push(c));
    assert(grown.drop_last() == ws.drop_last());
    if ws.len() == 1 {
        assert(grown[0] == ws[0].push(c));
    } else {
        assert(join(ws.drop_last()) + seq![' '] + ws.last().push(c) == (join(ws.drop_last())
            + seq![' '] + ws.last()).push(c));
    }
}

/// A text whose whitespace is single spaces, none of them at its front, is
/// what joining its words gives, up to one space at its end.
pub proof fn lemma_join_of_words_of_spaced(s: Seq<char>)
    requires
        forall|i: int|
            0 <= i < s.len() && is_space(#[trigger] s[i]) ==> s[i] == ' ' && 0 < i && !is_space(
                s[i - 1],
            ),
    ensures
        s.len() > 0 ==> words(s).len() > 0,
        s.len() == 0 || !is_space(s.last()) ==> join(words(s)) == s,
        s.len() > 0 && is_space(s.last()) ==> join(words(s)).push(' ') == s,
    decreases s.len(),
{
    if s.len() > 0 {
        let init = s.drop_last();
        let c = s.last();
        assert forall|i: int| 0 <= i < init.len() && is_space(#[trigger] init[i]) implies init[i]
            == ' ' && 0 < i && !is_space(init[i - 1]) by {
            assert(init[i] == s[i]);
            assert(init[i - 1] == s[i - 1]);
        }
        lemma_join_of_words_of_spaced(init);
        let before = words(init);
        if is_space(c) {
            assert(s[s.len() - 1] == c);
            assert(init.len() > 0);
            assert(init.last() == s[s.len() - 2]);
            assert(init.push(' ') == s);
        } else if s.len() >= 2 && !is_space(s[s.len() - 2]) {
            assert(init.last() == s[s.len() - 2]);
            lemma_join_grown_word(before, c);
            assert(init.push(c) == s);
        } else if s.len() >= 2 {
            assert(init.last() == s[s.len() - 2]);
            assert(before.push(seq![c]).drop_last() == before);
            assert(join(before) + seq![' '] + seq![c] == join(before).push(' ').push(c));
            assert(init.push(c) == s);
        } else {
            assert(before.len() == 0);
            assert(seq![c] == s);
        }
    }
}

} // verus!
