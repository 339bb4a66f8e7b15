use crate::cursor::Cursor;
use crate::frontend::event::{
    is_terminal, peek_view, read_result_view, sevent_view, stream_ok, symbol_named, Event, EventV,
    ReadError, ReadResult, Reader, SEvent, SReadError,
};
use crate::span::{span_between, Spanned, SpannedExt};
use crate::text::{
    all_number_chars, byte_len, byte_pos, is_decimal_literal, is_decimal_literal_chars,
    is_delimiter, lemma_skip_white_space, lemma_word_end, parse_i64, parse_i64_chars, push_char,
    skip_white_space, word_end,
};
use vstd::prelude::*;
use vstd::string::StrSliceExecFns;

verus! {

/// The character that the escape sequence `\c` stands for.
pub open spec fn unescape(c: char) -> Option<char> {
    if c == 'n' {
        Some('\n')
    } else if c == 'r' {
        Some('\r')
    } else if c == 't' {
        Some('\t')
    } else if c == '0' {
        Some('\0')
    } else if c == '\\' {
        Some('\\')
    } else if c == '"' {
        Some('"')
    } else {
        None
    }
}

pub fn unescape_char(c: char) -> (r: Option<char>)
    ensures
        r == unescape(c),
{
    if c == 'n' {
        Some('\n')
    } else if c == 'r' {
        Some('\r')
    } else if c == 't' {
        Some('\t')
    } else if c == '0' {
        Some('\0')
    } else if c == '\\' {
        Some('\\')
    } else if c == '"' {
        Some('"')
    } else {
        None
    }
}

/// How the body of a string literal ends.
pub enum StringScan {
    /// Closed by a quote: the contents, escapes resolved, and the index after the quote.
    Closed(Seq<char>, int),
    /// A backslash at the given index starts no known escape sequence.
    BadEscape(int),
    /// The text ends inside the string.
    Unterminated,
}

pub open spec fn prepend(p: Seq<char>, r: StringScan) -> StringScan {
    match r {
        StringScan::Closed(c, k) => StringScan::Closed(p + c, k),
        _ => r,
    }
}

pub proof fn lemma_prepend_assoc(p: Seq<char>, q: Seq<char>, r: StringScan)
    ensures
        prepend(p, prepend(q, r)) == prepend(p + q, r),
{
    match r {
        StringScan::Closed(c, k) => {
            assert(p + (q + c) =~= (p + q) + c);
        },
        _ => {},
    }
}

/// Reading the body of a string literal from index `i`.
pub open spec fn string_body(s: Seq<char>, i: int) -> StringScan
    decreases s.len() - i,
{
    if i < 0 || i >= s.len() {
        StringScan::Unterminated
    } else if s[i] == '"' {
        StringScan::Closed(Seq::empty(), i + 1)
    } else if s[i] == '\\' {
        if i + 1 < s.len() && unescape(s[i + 1]) is Some {
            prepend(seq![unescape(s[i + 1])->0], string_body(s, i + 2))
        } else {
            StringScan::BadEscape(i)
        }
    } else {
        prepend(seq![s[i]], string_body(s, i + 1))
    }
}

/// One reading step on the characters `s` from index `i`: the event (or
/// error) found and the index after it.
pub open spec fn read(s: Seq<char>, i: int) -> (ReadResult, int) {
    let j = skip_white_space(s, i);
    let start = byte_pos(s, j);
    if j >= s.len() {
        (
            Ok(
                Spanned {
                    value: EventV::SourceEnd,
                    span: span_between(byte_len(s) as usize, (byte_len(s) + 1) as usize),
                },
            ),
            j,
        )
    } else if s[j] == '(' {
        (Ok(Spanned { value: EventV::ListStart, span: span_between(start as usize, (start + 1) as usize) }), j + 1)
    } else if s[j] == ')' {
        (Ok(Spanned { value: EventV::ListEnd, span: span_between(start as usize, (start + 1) as usize) }), j + 1)
    } else if s[j] == '\'' {
        (Ok(Spanned { value: EventV::Quote, span: span_between(start as usize, (start + 1) as usize) }), j + 1)
    } else if s[j] == '"' {
        read_string(s, j)
    } else {
        read_word(s, j)
    }
}

/// Reading a string literal whose opening quote is at index `j`.
pub open spec fn read_string(s: Seq<char>, j: int) -> (ReadResult, int) {
    let start = byte_pos(s, j);
    match string_body(s, j + 1) {
        StringScan::Closed(c, k) => (
            Ok(
                Spanned {
                    value: EventV::String(c),
                    span: span_between(start as usize, byte_pos(s, k) as usize),
                },
            ),
            k,
        ),
        StringScan::BadEscape(b) => (
            Err(
                Spanned {
                    value: ReadError::InvalidEscapeSequence,
                    span: span_between(byte_pos(s, b) as usize, (byte_pos(s, b + 1) + 1) as usize),
                },
            ),
            b + 1,
        ),
        StringScan::Unterminated => (
            Err(
                Spanned {
                    value: ReadError::UnterminatedString,
                    span: span_between(start as usize, byte_len(s) as usize),
                },
            ),
            s.len() as int,
        ),
    }
}

/// The event that a word (a maximal run of non-delimiters) denotes.
pub open spec fn word_event(w: Seq<char>) -> EventV {
    if all_number_chars(w) && parse_i64(w) is Some {
        EventV::Integer(parse_i64(w)->0)
    } else if all_number_chars(w) && is_decimal_literal(w) {
        EventV::Float(w)
    } else {
        EventV::Symbol(w)
    }
}

/// Reading the word that starts at index `j`; a word may not start with a
/// backslash.
pub open spec fn read_word(s: Seq<char>, j: int) -> (ReadResult, int) {
    let k = word_end(s, j);
    let span = span_between(byte_pos(s, j) as usize, byte_pos(s, k) as usize);
    if s[j] == '\\' {
        (Err(Spanned { value: ReadError::InvalidSymbol, span }), k)
    } else {
        (Ok(Spanned { value: word_event(s.subrange(j, k)), span }), k)
    }
}

/// A reader of source text, with one event of lookahead.
pub struct StringReader<'s> {
    source: &'s str,
    cursor: Cursor,
    next: Result<SEvent, SReadError>,
}

impl<'s> StringReader<'s> {
    /// The characters of the source.
    pub closed spec fn text(&self) -> Seq<char> {
        self.cursor.text()
    }

    /// How many characters have been read.
    pub closed spec fn index(&self) -> int {
        self.cursor.index()
    }

    /// The lookahead.
    pub closed spec fn lookahead(&self) -> ReadResult {
        read_result_view(self.next)
    }

    pub closed spec fn wf(&self) -> bool {
        &&& self.cursor.text() == self.source@
        &&& self.cursor.wf()
    }

    pub fn new(source: &'s str) -> (r: Self)
        requires
            byte_len(source@) < usize::MAX,
        ensures
            r.wf(),
            r.text() == source@,
            (r.lookahead(), r.index()) == read(source@, 0),
            0 <= r.index() <= r.text().len(),
            symbol_named(r.lookahead()),
    {
        let cursor = Cursor::new(source);
        let mut reader = StringReader { source, cursor, next: Ok(Event::SourceEnd.sbetween(0, 1)) };
        reader.next = reader.scan();
        proof {
            lemma_read(source@, 0);
        }
        reader
    }

    /// The lookahead.
    pub fn peek_event(&self) -> (r: Result<&SEvent, SReadError>)
        ensures
            match r {
                Ok(e) => self.lookahead() == Ok::<Spanned<EventV>, SReadError>(sevent_view(*e)),
                Err(e) => self.lookahead() == Err::<Spanned<EventV>, SReadError>(e),
            },
    {
        match &self.next {
            Ok(e) => Ok(e),
            Err(e) => Err(*e),
        }
    }

    /// Hands out the lookahead and reads the one after it.
    pub fn next_event(&mut self) -> (r: Result<SEvent, SReadError>)
        requires
            old(self).wf(),
        ensures
            final(self).wf(),
            final(self).text() == old(self).text(),
            read_result_view(r) == old(self).lookahead(),
            (final(self).lookahead(), final(self).index()) == read(
                old(self).text(),
                old(self).index(),
            ),
    {
        let mut next = self.scan();
        std::mem::swap(&mut self.next, &mut next);
        next
    }

    fn scan(&mut self) -> (r: Result<SEvent, SReadError>)
        requires
            old(self).wf(),
        ensures
            final(self).wf(),
            final(self).source == old(self).source,
            final(self).text() == old(self).text(),
            final(self).next == old(self).next,
            (read_result_view(r), final(self).index()) == read(old(self).text(), old(self).index()),
    {
        let ghost s = self.text();
        self.cursor.skip_white_space();
        let start_pos = self.cursor.pos();
        let j = self.cursor.index_exec();
        proof {
            old(self).cursor.lemma_wf();
            lemma_skip_white_space(s, old(self).index());
        }
        if j >= self.cursor.len() {
            let n = Cursor::byte_len_exec(self.source);
            return Ok(Event::SourceEnd.sbetween(n, n + 1));
        }
        let c = self.cursor.char_at(j);
        if c == '(' {
            self.cursor.advance();
            Ok(Event::ListStart.sbetween(start_pos, start_pos + 1))
        } else if c == ')' {
            self.cursor.advance();
            Ok(Event::ListEnd.sbetween(start_pos, start_pos + 1))
        } else if c == '\'' {
            self.cursor.advance();
            Ok(Event::Quote.sbetween(start_pos, start_pos + 1))
        } else if c == '"' {
            self.scan_string(start_pos)
        } else {
            self.scan_word(start_pos)
        }
    }

    fn scan_string(&mut self, start_pos: usize) -> (r: Result<SEvent, SReadError>)
        requires
            old(self).wf(),
            old(self).index() < old(self).text().len(),
            old(self).text()[old(self).index()] == '"',
            start_pos == byte_pos(old(self).text(), old(self).index()),
            start_pos < usize::MAX,
        ensures
            final(self).wf(),
            final(self).source == old(self).source,
            final(self).text() == old(self).text(),
            final(self).next == old(self).next,
            (read_result_view(r), final(self).index()) == read_string(
                old(self).text(),
                old(self).index(),
            ),
    {
        let ghost s = self.text();
        let j = self.cursor.index_exec();
        let mut string = String::new();
        self.cursor.advance();
        while self.cursor.index_exec() < self.cursor.len()
            invariant
                self.wf(),
                self.text() == s,
                j < self.index() <= s.len(),
                j == old(self).index(),
                s == old(self).text(),
                string_body(s, j + 1) == prepend(string@, string_body(s, self.index())),
                self.source == old(self).source,
                self.next == old(self).next,
                start_pos == byte_pos(s, j as int),
                start_pos < usize::MAX,
            decreases s.len() - self.index(),
        {
            let i = self.cursor.index_exec();
            let c = self.cursor.char_at(i);
            if c == '"' {
                self.cursor.advance();
                proof {
                    assert(string@ + Seq::<char>::empty() =~= string@);
                }
                return Ok(Event::String(string).sbetween(start_pos, self.cursor.pos()));
            } else if c == '\\' {
                let sequence_pos = self.cursor.pos();
                self.cursor.advance();
                let escaped = match self.cursor.current() {
                    Some(e) => unescape_char(e),
                    None => None,
                };
                match escaped {
                    Some(e) => {
                        proof {
                            assert(string_body(s, i as int) == prepend(
                                seq![e],
                                string_body(s, i + 2),
                            ));
                            assert(string@.push(e) =~= string@ + seq![e]);
                            lemma_prepend_assoc(string@, seq![e], string_body(s, i + 2));
                        }
                        push_char(&mut string, e);
                    },
                    None => {
                        let here = self.cursor.pos();
                        return Err(ReadError::InvalidEscapeSequence.sbetween(sequence_pos, here + 1));
                    },
                }
            } else {
                proof {
                    assert(string@.push(c) =~= string@ + seq![c]);
                    lemma_prepend_assoc(string@, seq![c], string_body(s, i + 1));
                }
                push_char(&mut string, c);
            }
            self.cursor.advance();
        }
        let end = self.cursor.pos();
        proof {
            assert(s.take(s.len() as int) =~= s);
        }
        Err(ReadError::UnterminatedString.sbetween(start_pos, end))
    }

    fn scan_word(&mut self, start_pos: usize) -> (r: Result<SEvent, SReadError>)
        requires
            old(self).wf(),
            old(self).index() < old(self).text().len(),
            !is_delimiter(old(self).text()[old(self).index()]),
            start_pos == byte_pos(old(self).text(), old(self).index()),
            start_pos < usize::MAX,
        ensures
            final(self).wf(),
            final(self).source == old(self).source,
            final(self).text() == old(self).text(),
            final(self).next == old(self).next,
            (read_result_view(r), final(self).index()) == read_word(
                old(self).text(),
                old(self).index(),
            ),
    {
        let ghost s = self.text();
        let j = self.cursor.index_exec();
        let first = self.cursor.char_at(j);
        self.cursor.skip_word();
        let k = self.cursor.index_exec();
        let end_pos = self.cursor.pos();
        proof {
            lemma_word_end(s, j as int);
        }
        if first == '\\' {
            return Err(ReadError::InvalidSymbol.sbetween(start_pos, end_pos));
        }
        let characters = self.source.substring_char(j, k);
        if self.cursor.all_number_chars(j, k) {
            let chars = self.cursor.chars();
            if let Some(number) = parse_i64_chars(chars, j, k) {
                return Ok(Event::Integer(number).sbetween(start_pos, end_pos));
            }
            if is_decimal_literal_chars(chars, j, k) {
                return Ok(Event::Float(characters.to_owned()).sbetween(start_pos, end_pos));
            }
        }
        Ok(Event::Symbol(characters.to_owned()).sbetween(start_pos, end_pos))
    }
}

/// A string body either closes after where it starts, or stops at a bad
/// escape inside the text.
pub proof fn lemma_string_body(s: Seq<char>, i: int)
    requires
        0 <= i,
    ensures
        match string_body(s, i) {
            StringScan::Closed(c, k) => i < k <= s.len(),
            StringScan::BadEscape(b) => i <= b < s.len(),
            StringScan::Unterminated => true,
        },
    decreases s.len() - i,
{
    if 0 <= i < s.len() && s[i] != '"' {
        if s[i] == '\\' {
            if i + 1 < s.len() && unescape(s[i + 1]) is Some {
                lemma_string_body(s, i + 2);
            }
        } else {
            lemma_string_body(s, i + 1);
        }
    }
}

/// A reading step never goes back, moves on unless it ends the events,
/// and gives symbols a name.
pub proof fn lemma_read(s: Seq<char>, i: int)
    requires
        0 <= i <= s.len(),
    ensures
        i <= read(s, i).1 <= s.len(),
        !is_terminal(read(s, i).0) ==> read(s, i).1 > i,
        symbol_named(read(s, i).0),
{
    let j = skip_white_space(s, i);
    lemma_skip_white_space(s, i);
    if j < s.len() {
        if s[j] == '"' {
            lemma_string_body(s, j + 1);
        } else if s[j] != '(' && s[j] != ')' && s[j] != '\'' {
            assert(!is_delimiter(s[j]));
            lemma_word_end(s, j + 1);
            assert(word_end(s, j) == word_end(s, j + 1));
        }
    }
}

/// The events that a reader of `s` hands out from index `i` on, with
/// lookahead `la`.
pub open spec fn reader_stream(s: Seq<char>, i: int, la: ReadResult) -> Seq<ReadResult>
    decreases s.len() - i, if is_terminal(la) { 0int } else { 1int },
{
    if is_terminal(la) || !(0 <= i <= s.len()) {
        seq![la]
    } else {
        let (la2, i2) = read(s, i);
        if i <= i2 <= s.len() && (i2 > i || is_terminal(la2)) {
            seq![la] + reader_stream(s, i2, la2)
        } else {
            seq![la]
        }
    }
}

pub proof fn lemma_reader_stream(s: Seq<char>, i: int, la: ReadResult)
    requires
        0 <= i <= s.len(),
        symbol_named(la),
    ensures
        stream_ok(reader_stream(s, i, la)),
        reader_stream(s, i, la)[0] == la,
    decreases s.len() - i, if is_terminal(la) { 0int } else { 1int },
{
    if !is_terminal(la) {
        let (la2, i2) = read(s, i);
        lemma_read(s, i);
        lemma_reader_stream(s, i2, la2);
        let rest = reader_stream(s, i2, la2);
        let st = reader_stream(s, i, la);
        assert(st == seq![la] + rest);
        assert forall|k: int| 0 <= k < st.len() - 1 implies !is_terminal(#[trigger] st[k]) by {
            if k > 0 {
                assert(st[k] == rest[k - 1]);
            }
        }
        assert forall|k: int| 0 <= k < st.len() implies symbol_named(#[trigger] st[k]) by {
            if k > 0 {
                assert(st[k] == rest[k - 1]);
            }
        }
        assert(st.last() == rest.last());
    }
}

impl<'s> Reader for StringReader<'s> {
    open spec fn ready(&self) -> bool {
        &&& self.wf()
        &&& 0 <= self.index() <= self.text().len()
        &&& symbol_named(self.lookahead())
    }

    open spec fn stream(&self) -> Seq<ReadResult> {
        reader_stream(self.text(), self.index(), self.lookahead())
    }

    proof fn lemma_stream(&self) {
        lemma_reader_stream(self.text(), self.index(), self.lookahead());
    }

    fn peek(&self) -> (r: Result<&SEvent, SReadError>)
        ensures
            peek_view(r) == self.lookahead(),
    {
        self.peek_event()
    }

    fn next(&mut self) -> (r: Result<SEvent, SReadError>)
        ensures
            final(self).text() == old(self).text(),
            read_result_view(r) == old(self).lookahead(),
            (final(self).lookahead(), final(self).index()) == read(
                old(self).text(),
                old(self).index(),
            ),
    {
        let r = self.next_event();
        proof {
            lemma_read(old(self).text(), old(self).index());
            let st = reader_stream(old(self).text(), old(self).index(), old(self).lookahead());
            if st.len() > 1 {
                assert(st.drop_first() =~= reader_stream(self.text(), self.index(), self.lookahead()));
            }
        }
        r
    }
}

/// Once reading reaches the end of the source, reading on gives the end of
/// the source again, with the same span: the reader keeps handing it out.
pub proof fn law_source_end_repeats(s: Seq<char>, p: int)
    requires
        0 <= p,
        read(s, p).0 matches Ok(e) && e.value is SourceEnd,
    ensures
        read(s, read(s, p).1) == read(s, p),
{
    if p <= s.len() {
        crate::text::lemma_skip_white_space(s, p);
    }
    let j = skip_white_space(s, p);
    assert(j >= s.len());
    assert(skip_white_space(s, j) == j);
}

} // verus!
