//! Characters, whitespace and words.
//!
//! Text is modelled as a `Seq<char>`. A *word* is a maximal run of characters
//! that are not whitespace; *normalizing* a text joins its words with single
//! spaces, which collapses every run of whitespace and trims both ends.

use vstd::prelude::*;

verus! {

/// Whether `c` separates words: a space, a tab, a line feed or a carriage return.
pub open spec fn is_space(c: char) -> bool {
    c == ' ' || c == '\t' || c == '\n' || c == '\r'
}

/// Whether no character of `s` is whitespace.
pub open spec fn space_free(s: Seq<char>) -> bool {
    forall|i: int| 0 <= i < s.len() ==> !is_space(#[trigger] s[i])
}

/// Whether every character of `s` is whitespace.
pub open spec fn is_blank(s: Seq<char>) -> bool {
    forall|i: int| 0 <= i < s.len() ==> is_space(#[trigger] s[i])
}

/// The words of `s`, in the order in which they occur.
///
/// Reading `s` from the left, a whitespace character ends the word before it
/// (if any); any other character continues the word that the character before
/// it belongs to, or begins a new word.
pub open spec fn words(s: Seq<char>) -> Seq<Seq<char>>
    decreases s.len(),
{
    if s.len() == 0 {
        Seq::empty()
    } else {
        let before = words(s.drop_last());
        if is_space(s.last()) {
            before
        } else if s.len() >= 2 && !is_space(s[s.len() - 2]) {
            before.drop_last().push(before.last().push(s.last()))
        } else {
            before.push(seq![s.last()])
        }
    }
}

/// The items of `ws`, with one space between each two neighbours.
pub open spec fn join(ws: Seq<Seq<char>>) -> Seq<char>
    decreases ws.len(),
{
    if ws.len() == 0 {
        Seq::empty()
    } else if ws.len() == 1 {
        ws[0]
    } else {
        join(ws.drop_last()) + seq![' '] + ws.last()
    }
}

/// `s` with every run of whitespace collapsed to one space, and without
/// whitespace at either end.
pub open spec fn normalized(s: Seq<char>) -> Seq<char> {
    join(words(s))
}

/// Whether every item of `ws` is a word: not empty, and free of whitespace.
pub open spec fn all_words(ws: Seq<Seq<char>>) -> bool {
    forall|i: int| 0 <= i < ws.len() ==> (#[trigger] ws[i]).len() > 0 && space_free(ws[i])
}

/// Whether `s` is in normal form: every whitespace character in it is a
/// single space between two characters that are not whitespace.
pub open spec fn is_tidy(s: Seq<char>) -> bool {
    forall|i: int|
        0 <= i < s.len() && is_space(#[trigger] s[i]) ==> s[i] == ' ' && 0 < i < s.len() - 1
            && !is_space(s[i - 1]) && !is_space(s[i + 1])
}

/// Executable form of [`is_space`].
pub fn is_space_char(c: char) -> (r: bool)
    ensures
        r == is_space(c),
{
    c == ' ' || c == '\t' || c == '\n' || c == '\r'
}

/// The characters of `s`.
pub fn chars_of(s: &str) -> (chars: Vec<char>)
    ensures
        chars@ == s@,
{
    let mut chars: Vec<char> = Vec::new();
    for c in iter: s.chars()
        invariant
            iter.seq() == s@,
            chars@ == iter.seq().take(iter.index()),
    {
        chars.push(c);
    }
    chars
}

/// `String::push` appends one character to the string and leaves the rest as it was.
pub assume_specification[ String::push ](s: &mut String, ch: char)
    ensures
        final(s)@ == old(s)@.push(ch),
;

/// The string that holds `chars`.
pub fn string_of(chars: &Vec<char>) -> (s: String)
    ensures
        s@ == chars@,
{
    let mut s = String::new();
    let mut i: usize = 0;
    while i < chars.len()
        invariant
            i <= chars.len(),
            s@ == chars@.take(i as int),
        decreases chars.len() - i,
    {
        s.push(chars[i]);
        i += 1;
        assert(chars@.take(i as int) == chars@.take(i - 1).push(chars@[i - 1]));
    }
    assert(chars@.take(i as int) == chars@);
    s
}

/// Whether `a` and `b` hold the same characters.
pub fn same_chars(a: &Vec<char>, b: &Vec<char>) -> (same: bool)
    ensures
        same == (a@ == b@),
{
    if a.len() != b.len() {
        return false;
    }
    let mut i: usize = 0;
    while i < a.len()
        invariant
            a.len() == b.len(),
            i <= a.len(),
            a@.take(i as int) == b@.take(i as int),
        decreases a.len() - i,
    {
        if a[i] != b[i] {
            return false;
        }
        i += 1;
        assert(a@.take(i as int) == a@.take(i - 1).push(a@[i - 1]));
        assert(b@.take(i as int) == b@.take(i - 1).push(b@[i - 1]));
    }
    assert(a@.take(i as int) == a@);
    assert(b@.take(i as int) == b@);
    true
}

/// The characters of `text` from index `from` up to, not including, index `to`.
pub fn copy_range(text: &Vec<char>, from: usize, to: usize) -> (part: Vec<char>)
    requires
        from <= to <= text.len(),
    ensures
        part@ == text@.subrange(from as int, to as int),
{
    let mut part: Vec<char> = Vec::new();
    let mut i: usize = from;
    while i < to
        invariant
            from <= i <= to <= text.len(),
            part@ == text@.subrange(from as int, i as int),
        decreases to - i,
    {
        part.push(text[i]);
        i += 1;
        assert(text@.subrange(from as int, i as int) == text@.subrange(from as int, i - 1).push(
            text@[i - 1],
        ));
    }
    part
}

/// Appends the characters of `part` to `out`.
pub fn append_chars(out: &mut Vec<char>, part: &Vec<char>)
    ensures
        final(out)@ == old(out)@ + part@,
{
    let mut i: usize = 0;
    while i < part.len()
        invariant
            i <= part.len(),
            out@ == old(out)@ + part@.take(i as int),
        decreases part.len() - i,
    {
        out.push(part[i]);
        i += 1;
        assert(part@.take(i as int) == part@.take(i - 1).push(part@[i - 1]));
    }
    assert(part@.take(i as int) == part@);
}

/// The deep view of a vector of characters is its view.
pub proof fn lemma_deep_view_chars(v: Vec<char>)
    ensures
        v.deep_view() == v@,
{
    assert(v.deep_view() =~= v@);
}

/// The deep view of a vector of texts after one more text is pushed.
pub proof fn lemma_deep_view_push(before: Vec<Vec<char>>, after: Vec<Vec<char>>, word: Vec<char>)
    requires
        after@ == before@.push(word),
    ensures
        after.deep_view() == before.deep_view().push(word@),
{
    lemma_deep_view_chars(word);
    assert forall|i: int| 0 <= i < after@.len() implies after.deep_view()[i]
        == before.deep_view().push(word@)[i] by {
        if i < before@.len() {
            assert(after@[i] == before@[i]);
        }
    }
    assert(after.deep_view() =~= before.deep_view().push(word@));
}

/// Splits `text` into its words.
pub fn split_words(text: &Vec<char>) -> (ws: Vec<Vec<char>>)
    ensures
        ws.deep_view() == words(text@),
{
    let mut ws: Vec<Vec<char>> = Vec::new();
    let mut start: usize = 0;
    let mut i: usize = 0;
    assert(ws.deep_view() =~= Seq::<Seq<char>>::empty());
    assert(text@.take(0) =~= Seq::<char>::empty());
    // `start..i` is the word that is being read, if `start < i`.
    while i < text.len()
        invariant
            start <= i <= text.len(),
            start < i ==> !is_space(text@[i - 1]),
            start == i ==> i == 0 || is_space(text@[i - 1]),
            start < i ==> words(text@.take(i as int)) == ws.deep_view().push(
                text@.subrange(start as int, i as int),
            ),
            start == i ==> words(text@.take(i as int)) == ws.deep_view(),
        decreases text.len() - i,
    {
        let ghost seen = text@.take(i as int);
        let ghost next = text@.take(i + 1);
        assert(next.drop_last() == seen);
        assert(next.last() == text@[i as int]);
        if i >= 1 {
            assert(next[next.len() - 2] == text@[i - 1]);
        }
        if is_space_char(text[i]) {
            if start < i {
                let word = copy_range(text, start, i);
                let ghost before = ws;
                ws.push(word);
                proof {
                    lemma_deep_view_push(before, ws, word);
                }
            }
            start = i + 1;
        } else {
            proof {
                if start < i {
                    let grown = ws.deep_view().push(text@.subrange(start as int, i as int));
                    assert(grown.drop_last() == ws.deep_view());
                    assert(grown.last().push(text@[i as int]) == text@.subrange(
                        start as int,
                        i + 1,
                    ));
                } else {
                    assert(seq![text@[i as int]] == text@.subrange(start as int, i + 1));
                }
            }
        }
        i += 1;
    }
    assert(text@.take(i as int) == text@);
    if start < i {
        let word = copy_range(text, start, i);
        let ghost before = ws;
        ws.push(word);
        proof {
            lemma_deep_view_push(before, ws, word);
        }
    }
    ws
}

/// Joins `ws` with single spaces.
pub fn join_words(ws: &Vec<Vec<char>>) -> (text: Vec<char>)
    ensures
        text@ == join(ws.deep_view()),
{
    let mut text: Vec<char> = Vec::new();
    let mut i: usize = 0;
    while i < ws.len()
        invariant
            i <= ws.len(),
            text@ == join(ws.deep_view().take(i as int)),
        decreases ws.len() - i,
    {
        let ghost done = ws.deep_view().take(i as int);
        let ghost next = ws.deep_view().take(i + 1);
        assert(next.drop_last() == done);
        proof {
            lemma_deep_view_chars(ws@[i as int]);
        }
        assert(next.last() == ws@[i as int]@);
        if i > 0 {
            text.push(' ');
        }
        append_chars(&mut text, &ws[i]);
        i += 1;
    }
    assert(ws.deep_view().take(i as int) == ws.deep_view());
    text
}

/// Collapses every run of whitespace in `text` to one space and trims both ends.
pub fn normalize_chars(text: &Vec<char>) -> (tidy: Vec<char>)
    ensures
        tidy@ == normalized(text@),
{
    let ws = split_words(text);
    join_words(&ws)
}

/// Collapses every run of whitespace in `s` to one space and trims both ends.
pub fn normalize_whitespace(s: &str) -> (tidy: String)
    ensures
        tidy@ == normalized(s@),
{
    let chars = chars_of(s);
    let tidy = normalize_chars(&chars);
    string_of(&tidy)
}

} // verus!
