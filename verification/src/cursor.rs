use crate::text::{
    all_number_chars, byte_len, byte_pos, chars_of, is_delimiter_char, is_number_char,
    is_white_space_char, lemma_byte_len_encode, lemma_byte_pos_mono, lemma_byte_pos_step,
    skip_white_space, utf8_width, word_end,
};
use vstd::prelude::*;

verus! {

/// A position in a text: a character index and the byte offset it stands at.
pub struct Cursor {
    chars: Vec<char>,
    idx: usize,
    pos: usize,
}

impl Cursor {
    pub closed spec fn text(&self) -> Seq<char> {
        self.chars@
    }

    pub closed spec fn index(&self) -> int {
        self.idx as int
    }

    pub closed spec fn wf(&self) -> bool {
        &&& self.idx <= self.chars.len()
        &&& self.pos == byte_pos(self.chars@, self.idx as int)
        &&& byte_len(self.chars@) < usize::MAX
    }

    pub proof fn lemma_wf(&self)
        requires
            self.wf(),
        ensures
            0 <= self.index() <= self.text().len(),
            byte_len(self.text()) < usize::MAX,
    {
    }

    pub fn new(source: &str) -> (r: Cursor)
        requires
            byte_len(source@) < usize::MAX,
        ensures
            r.wf(),
            r.text() == source@,
            r.index() == 0,
    {
        let chars = chars_of(source);
        proof {
            assert(chars@.take(0) =~= Seq::<char>::empty());
        }
        Cursor { chars, idx: 0, pos: 0 }
    }

    /// Number of characters of the text.
    pub fn len(&self) -> (r: usize)
        ensures
            r == self.text().len(),
    {
        self.chars.len()
    }

    pub fn index_exec(&self) -> (r: usize)
        ensures
            r == self.index(),
    {
        self.idx
    }

    /// The byte offset of the cursor.
    pub fn pos(&self) -> (r: usize)
        requires
            self.wf(),
        ensures
            r == byte_pos(self.text(), self.index()),
            r <= byte_len(self.text()),
            r < usize::MAX,
    {
        proof {
            lemma_byte_pos_mono(self.chars@, self.idx as int, self.chars.len() as int);
            assert(self.chars@.take(self.chars.len() as int) =~= self.chars@);
        }
        self.pos
    }

    /// The byte length of the whole text.
    pub fn byte_len_exec(source: &str) -> (r: usize)
        requires
            byte_len(source@) < usize::MAX,
        ensures
            r == byte_len(source@),
    {
        proof {
            lemma_byte_len_encode(source@);
        }
        source.len()
    }

    pub fn char_at(&self, i: usize) -> (r: char)
        requires
            i < self.text().len(),
        ensures
            r == self.text()[i as int],
    {
        self.chars[i]
    }

    /// The character at the cursor, if any.
    pub fn current(&self) -> (r: Option<char>)
        ensures
            r == (if self.index() < self.text().len() {
                Some(self.text()[self.index()])
            } else {
                None
            }),
    {
        if self.idx < self.chars.len() {
            Some(self.chars[self.idx])
        } else {
            None
        }
    }

    /// Steps over one character, unless at the end.
    pub fn advance(&mut self)
        requires
            old(self).wf(),
        ensures
            final(self).wf(),
            final(self).text() == old(self).text(),
            final(self).index() == if old(self).index() < old(self).text().len() {
                old(self).index() + 1
            } else {
                old(self).index()
            },
    {
        if self.idx < self.chars.len() {
            let c = self.chars[self.idx];
            proof {
                lemma_byte_pos_step(self.chars@, self.idx as int);
                lemma_byte_pos_mono(self.chars@, self.idx + 1, self.chars.len() as int);
                assert(self.chars@.take(self.chars.len() as int) =~= self.chars@);
            }
            self.pos = self.pos + utf8_width(c);
            self.idx = self.idx + 1;
        }
    }

    /// Steps over white space.
    pub fn skip_white_space(&mut self)
        requires
            old(self).wf(),
        ensures
            final(self).wf(),
            final(self).text() == old(self).text(),
            final(self).index() == skip_white_space(old(self).text(), old(self).index()),
    {
        while self.idx < self.chars.len() && is_white_space_char(self.chars[self.idx])
            invariant
                self.wf(),
                self.chars@ == old(self).chars@,
                skip_white_space(self.chars@, self.idx as int) == skip_white_space(
                    old(self).chars@,
                    old(self).idx as int,
                ),
            decreases self.chars.len() - self.idx,
        {
            self.advance();
        }
    }

    /// Steps to the end of the current word.
    pub fn skip_word(&mut self)
        requires
            old(self).wf(),
        ensures
            final(self).wf(),
            final(self).text() == old(self).text(),
            final(self).index() == word_end(old(self).text(), old(self).index()),
    {
        while self.idx < self.chars.len() && !is_delimiter_char(self.chars[self.idx])
            invariant
                self.wf(),
                self.chars@ == old(self).chars@,
                word_end(self.chars@, self.idx as int) == word_end(
                    old(self).chars@,
                    old(self).idx as int,
                ),
            decreases self.chars.len() - self.idx,
        {
            self.advance();
        }
    }

    /// The characters themselves.
    pub fn chars(&self) -> (r: &Vec<char>)
        ensures
            r@ == self.text(),
    {
        &self.chars
    }

    /// Whether `text[start..end]` is made of digits, signs and dots only.
    pub fn all_number_chars(&self, start: usize, end: usize) -> (r: bool)
        requires
            start <= end <= self.text().len(),
        ensures
            r == all_number_chars(self.text().subrange(start as int, end as int)),
    {
        let ghost w = self.chars@.subrange(start as int, end as int);
        let mut i = start;
        while i < end
            invariant
                start <= i <= end <= self.chars.len(),
                w == self.chars@.subrange(start as int, end as int),
                forall|m: int| 0 <= m < i - start ==> is_number_char(#[trigger] w[m]),
            decreases end - i,
        {
            let c = self.chars[i];
            assert(w[i - start] == c);
            if !(('0' <= c && c <= '9') || c == '+' || c == '-' || c == '.') {
                return false;
            }
            i = i + 1;
        }
        true
    }
}

} // verus!
