//! Byte offsets into the UTF-8 form of a text, and the characters they fall on.
//!
//! A search over a `str` reports where it matched in bytes; the rest of this
//! library counts characters. [`char_index`] says which character, if any,
//! begins at a given byte, and [`CharTable`] answers that for every byte of
//! one text.

use vstd::prelude::*;
use vstd::utf8::{
    char_is_scalar, encode_scalar, encode_utf8, has_width_1_encoding, has_width_2_encoding,
    has_width_3_encoding, last_continuation_byte, leading_byte_width_1, leading_byte_width_2,
    leading_byte_width_3, leading_byte_width_4, second_last_continuation_byte,
    third_last_continuation_byte,
};

verus! {

/// The number of bytes that UTF-8 takes for `c`.
pub open spec fn utf8_width(c: char) -> int {
    if (c as u32) < 0x80 {
        1
    } else if (c as u32) < 0x800 {
        2
    } else if (c as u32) < 0x1_0000 {
        3
    } else {
        4
    }
}

/// The number of bytes that UTF-8 takes for `s`: the length in bytes of a
/// `str` that holds these characters.
pub open spec fn utf8_len(s: Seq<char>) -> int {
    encode_utf8(s).len() as int
}

/// The index of the character of `s` that begins at byte `byte` of the UTF-8
/// form of `s`, or the length of `s` where `byte` is the length of that form;
/// `None` where `byte` falls inside a character or outside the text.
pub open spec fn char_index(s: Seq<char>, byte: int) -> Option<int>
    decreases s.len(),
{
    if byte == utf8_len(s) {
        Some(s.len() as int)
    } else if s.len() == 0 {
        None
    } else {
        char_index(s.drop_last(), byte)
    }
}

/// The UTF-8 form of one character has as many bytes as [`utf8_width`] says.
proof fn lemma_encoded_width(c: char)
    ensures
        encode_scalar(c as u32).len() == utf8_width(c),
{
    char_is_scalar(c);
    let code = c as u32;
    if has_width_1_encoding(code) {
        assert(encode_scalar(code) =~= seq![leading_byte_width_1(code)]);
    } else if has_width_2_encoding(code) {
        assert(encode_scalar(code) =~= seq![
            leading_byte_width_2(code),
            last_continuation_byte(code),
        ]);
    } else if has_width_3_encoding(code) {
        assert(encode_scalar(code) =~= seq![
            leading_byte_width_3(code),
            second_last_continuation_byte(code),
            last_continuation_byte(code),
        ]);
    } else {
        assert(encode_scalar(code) =~= seq![
            leading_byte_width_4(code),
            third_last_continuation_byte(code),
            second_last_continuation_byte(code),
            last_continuation_byte(code),
        ]);
    }
}

/// Encoding one more character appends its bytes.
proof fn lemma_encode_utf8_push(s: Seq<char>, c: char)
    ensures
        encode_utf8(s.push(c)) == encode_utf8(s) + encode_scalar(c as u32),
    decreases s.len(),
{
    if s.len() == 0 {
        assert(s.push(c).drop_first() == s);
    } else {
        assert(s.push(c).drop_first() == s.drop_first().push(c));
        lemma_encode_utf8_push(s.drop_first(), c);
    }
}

/// The last character of a text adds its width to the UTF-8 length of what
/// stands before it.
pub proof fn lemma_utf8_len_of_last(s: Seq<char>)
    requires
        s.len() > 0,
    ensures
        utf8_len(s) == utf8_len(s.drop_last()) + utf8_width(s.last()),
{
    lemma_encode_utf8_push(s.drop_last(), s.last());
    lemma_encoded_width(s.last());
    assert(s.drop_last().push(s.last()) == s);
}

/// The UTF-8 length grows with every character.
pub proof fn lemma_utf8_len_grows(s: Seq<char>, i: int, j: int)
    requires
        0 <= i <= j <= s.len(),
    ensures
        0 <= utf8_len(s.take(i)),
        utf8_len(s.take(i)) + (j - i) <= utf8_len(s.take(j)),
    decreases j,
{
    if j > i {
        lemma_utf8_len_grows(s, i, j - 1);
        lemma_utf8_len_of_last(s.take(j));
        assert(s.take(j).drop_last() == s.take(j - 1));
    }
}

/// What [`char_index`] finds is the one boundary between characters that
/// lies at that byte.
pub proof fn lemma_char_index_sound(s: Seq<char>, byte: int)
    ensures
        char_index(s, byte) matches Some(i) ==> 0 <= i <= s.len() && utf8_len(s.take(i)) == byte,
        char_index(s, byte) is None ==> forall|i: int|
            0 <= i <= s.len() ==> utf8_len(#[trigger] s.take(i)) != byte,
    decreases s.len(),
{
    if byte == utf8_len(s) {
        assert(s.take(s.len() as int) == s);
    } else if s.len() == 0 {
        assert forall|i: int| 0 <= i <= s.len() implies utf8_len(#[trigger] s.take(i))
            != byte by {
            assert(s.take(0) == s);
        }
    } else {
        let init = s.drop_last();
        lemma_char_index_sound(init, byte);
        match char_index(init, byte) {
            Some(i) => {
                assert(init.take(i) == s.take(i));
            },
            None => {
                assert forall|i: int| 0 <= i <= s.len() implies utf8_len(#[trigger] s.take(i))
                    != byte by {
                    if i < s.len() {
                        assert(init.take(i) == s.take(i));
                    } else {
                        assert(s.take(i) == s);
                    }
                }
            },
        }
    }
}

/// Every boundary between characters is found by [`char_index`].
pub proof fn lemma_char_index_complete(s: Seq<char>, i: int)
    requires
        0 <= i <= s.len(),
    ensures
        char_index(s, utf8_len(s.take(i))) == Some(i),
{
    lemma_char_index_sound(s, utf8_len(s.take(i)));
    match char_index(s, utf8_len(s.take(i))) {
        Some(k) => {
            if k < i {
                lemma_utf8_len_grows(s, k, i);
            } else if i < k {
                lemma_utf8_len_grows(s, i, k);
            }
        },
        None => {},
    }
}

/// Executable form of [`utf8_width`].
pub fn width_of(c: char) -> (w: usize)
    ensures
        w == utf8_width(c),
{
    let code: u32 = c as u32;
    if code < 0x80 {
        1
    } else if code < 0x800 {
        2
    } else if code < 0x1_0000 {
        3
    } else {
        4
    }
}

/// For one text, the character that begins at each byte of its UTF-8 form.
pub struct CharTable {
    at: Vec<Option<usize>>,
    text: Ghost<Seq<char>>,
}

impl CharTable {
    /// The text that this table was made for.
    pub closed spec fn text(&self) -> Seq<char> {
        self.text@
    }

    /// Whether the table holds, for each byte of its text, what [`char_index`] gives.
    pub closed spec fn wf(&self) -> bool {
        &&& self.at@.len() == utf8_len(self.text@) + 1
        &&& forall|byte: int|
            0 <= byte < self.at@.len() ==> match #[trigger] self.at@[byte] {
                Some(i) => char_index(self.text@, byte) == Some(i as int),
                None => char_index(self.text@, byte) is None,
            }
    }

    /// The table of `text`.
    pub fn new(text: &Vec<char>) -> (table: CharTable)
        ensures
            table.wf(),
            table.text() == text@,
    {
        let mut at: Vec<Option<usize>> = Vec::new();
        at.push(Some(0));
        let mut i: usize = 0;
        assert(text@.take(0).len() == 0);
        while i < text.len()
            invariant
                i <= text.len(),
                at@.len() == utf8_len(text@.take(i as int)) + 1,
                forall|byte: int|
                    0 <= byte < at@.len() ==> match #[trigger] at@[byte] {
                        Some(k) => char_index(text@.take(i as int), byte) == Some(k as int),
                        None => char_index(text@.take(i as int), byte) is None,
                    },
            decreases text.len() - i,
        {
            let ghost seen = text@.take(i as int);
            let ghost next = text@.take(i + 1);
            let ghost before = at@;
            assert(next.drop_last() == seen);
            assert(next.last() == text@[i as int]);
            proof {
                lemma_utf8_len_of_last(next);
            }
            let w = width_of(text[i]);
            let mut k: usize = 1;
            while k < w
                invariant
                    1 <= k <= w <= 4,
                    at@.len() == before.len() + (k - 1),
                    forall|byte: int| 0 <= byte < before.len() ==> at@[byte] == before[byte],
                    forall|byte: int| before.len() <= byte < at@.len() ==> at@[byte] is None,
                decreases w - k,
            {
                at.push(None);
                k += 1;
            }
            at.push(Some(i + 1));
            i += 1;
            proof {
                assert forall|byte: int| 0 <= byte < at@.len() implies match #[trigger] at@[byte] {
                    Some(k) => char_index(next, byte) == Some(k as int),
                    None => char_index(next, byte) is None,
                } by {
                    if byte < before.len() {
                        assert(at@[byte] == before[byte]);
                    } else if byte < at@.len() - 1 {
                        lemma_char_index_sound(seen, byte);
                        if char_index(seen, byte) is Some {
                            let found = char_index(seen, byte)->0;
                            lemma_utf8_len_grows(seen, found, seen.len() as int);
                            assert(seen.take(seen.len() as int) == seen);
                        }
                    }
                }
            }
        }
        assert(text@.take(i as int) == text@);
        CharTable { at, text: Ghost(text@) }
    }

    /// The index of the character that begins at byte `byte`, where one does.
    pub fn get(&self, byte: usize) -> (found: Option<usize>)
        requires
            self.wf(),
        ensures
            found.is_some() == char_index(self.text(), byte as int).is_some(),
            found matches Some(i) ==> char_index(self.text(), byte as int) == Some(i as int),
    {
        if byte < self.at.len() {
            self.at[byte]
        } else {
            proof {
                let text = self.text@;
                lemma_char_index_sound(text, byte as int);
                if char_index(text, byte as int) is Some {
                    let i = char_index(text, byte as int)->0;
                    lemma_utf8_len_grows(text, i, text.len() as int);
                    assert(text.take(text.len() as int) == text);
                }
            }
            None
        }
    }
}

} // verus!
