use crate::lexing::token::{stoken_view, SToken, Token, TokenV};
use crate::span::{span_between, Span, Spanned, SpannedExt};
use crate::text::{
    all_number_chars, byte_len, byte_pos, chars_of, decimal_is_finite, decimal_is_finite_chars,
    is_decimal_literal, is_decimal_literal_chars, is_delimiter, is_delimiter_char, is_number_char,
    is_white_space_char, lemma_byte_pos_mono, lemma_byte_pos_step, lemma_skip_white_space, lemma_word_end, parse_i64,
    parse_i64_chars, skip_white_space, utf8_width, word_end,
};
use crate::cursor::Cursor;
use vstd::prelude::*;
use vstd::string::StrSliceExecFns;

verus! {

pub type SLexerError = Spanned<LexerError>;

#[derive(Debug, Clone, Copy, PartialEq, Eq)]
pub enum LexerError {
    UnterminatedString,
}

/// The lexer's lookahead: the next token, or the error met scanning it.
pub type LexResult = Result<Spanned<TokenV>, SLexerError>;

pub open spec fn lex_result_view(r: Result<SToken, SLexerError>) -> LexResult {
    match r {
        Ok(t) => Ok(stoken_view(t)),
        Err(e) => Err(e),
    }
}

/// Index just past the closing quote of a string whose contents start at
/// index `i`; a backslash makes the next character part of the string.
pub open spec fn string_end(s: Seq<char>, i: int) -> Option<int>
    decreases s.len() - i,
{
    if i < 0 || i >= s.len() {
        None
    } else if s[i] == '"' {
        Some(i + 1)
    } else if s[i] == '\\' {
        if i + 1 < s.len() {
            string_end(s, i + 2)
        } else {
            None
        }
    } else {
        string_end(s, i + 1)
    }
}

/// The token that a word (a maximal run of non-delimiters) denotes.
pub open spec fn word_token(w: Seq<char>) -> TokenV {
    if all_number_chars(w) && parse_i64(w) is Some {
        TokenV::Integer(parse_i64(w)->0)
    } else if all_number_chars(w) && is_decimal_literal(w) && decimal_is_finite(w) {
        TokenV::Float(w)
    } else {
        TokenV::Symbol(w)
    }
}

pub open spec fn single(t: TokenV, start: nat) -> Spanned<TokenV> {
    Spanned { value: t, span: span_between(start as usize, (start + 1) as usize) }
}

/// One scanning step on the characters `s` from index `i`, where `prev` is the
/// lookahead before the step: the token (or error) found and the index after it.
/// At the end of the text the end token takes the span of `prev`, or the
/// error of `prev` is met again.
pub open spec fn scan(s: Seq<char>, i: int, prev: LexResult) -> (LexResult, int) {
    let j = skip_white_space(s, i);
    let start = byte_pos(s, j);
    if j >= s.len() {
        match prev {
            Ok(t) => (Ok(Spanned { value: TokenV::End, span: t.span }), j),
            Err(e) => (Err(e), j),
        }
    } else if s[j] == '(' {
        (Ok(single(TokenV::ParenLeft, start)), j + 1)
    } else if s[j] == ')' {
        (Ok(single(TokenV::ParenRight, start)), j + 1)
    } else if s[j] == '\'' {
        (Ok(single(TokenV::Quote, start)), j + 1)
    } else if s[j] == '"' {
        scan_string(s, j)
    } else {
        scan_word(s, j)
    }
}

/// Scanning a string literal whose opening quote is at index `j`.
pub open spec fn scan_string(s: Seq<char>, j: int) -> (LexResult, int) {
    let start = byte_pos(s, j);
    match string_end(s, j + 1) {
        Some(k) => (
            Ok(
                Spanned {
                    value: TokenV::String(s.subrange(j + 1, k - 1)),
                    span: span_between(start as usize, byte_pos(s, k) as usize),
                },
            ),
            k,
        ),
        None => (
            Err(
                Spanned {
                    value: LexerError::UnterminatedString,
                    span: span_between(start as usize, byte_len(s) as usize),
                },
            ),
            s.len() as int,
        ),
    }
}

/// Scanning the word that starts at index `j`.
pub open spec fn scan_word(s: Seq<char>, j: int) -> (LexResult, int) {
    let k = word_end(s, j);
    (
        Ok(
            Spanned {
                value: word_token(s.subrange(j, k)),
                span: span_between(byte_pos(s, j) as usize, byte_pos(s, k) as usize),
            },
        ),
        k,
    )
}

/// Whether a lookahead's span starts within the text, as spans that scanning
/// makes do.
pub open spec fn lookahead_ok(s: Seq<char>, la: LexResult) -> bool {
    match la {
        Ok(t) => t.span.start <= byte_len(s),
        Err(_) => true,
    }
}

/// Whether a lookahead is a token other than the end.
pub open spec fn is_real(la: LexResult) -> bool {
    match la {
        Ok(t) => !(t.value is End),
        Err(_) => false,
    }
}

pub proof fn lemma_string_end(s: Seq<char>, i: int)
    requires
        0 <= i,
    ensures
        string_end(s, i) matches Some(k) ==> i < k <= s.len(),
    decreases s.len() - i,
{
    if 0 <= i < s.len() && s[i] != '"' {
        if s[i] == '\\' {
            if i + 1 < s.len() {
                lemma_string_end(s, i + 2);
            }
        } else {
            lemma_string_end(s, i + 1);
        }
    }
}

/// Scanning moves forward within the text, keeps spans within the text, and
/// a token other than the end takes at least one character.
pub proof fn lemma_scan(s: Seq<char>, i: int, la: LexResult)
    requires
        0 <= i <= s.len(),
        lookahead_ok(s, la),
    ensures
        i <= scan(s, i, la).1 <= s.len(),
        lookahead_ok(s, scan(s, i, la).0),
        is_real(scan(s, i, la).0) ==> i < scan(s, i, la).1,
{
    lemma_skip_white_space(s, i);
    let j = skip_white_space(s, i);
    if j < s.len() {
        lemma_byte_pos_mono(s, j, s.len() as int);
        assert(s.take(s.len() as int) =~= s);
        if s[j] == '"' {
            lemma_string_end(s, j + 1);
        } else if s[j] != '(' && s[j] != ')' && s[j] != '\'' {
            lemma_word_end(s, j);
            lemma_word_end(s, j + 1);
            assert(word_end(s, j) == word_end(s, j + 1));
        }
    }
}

/// A lexer over a source text, with one token of lookahead.
pub struct Lexer<'s> {
    source: &'s str,
    cursor: Cursor,
    next: Result<SToken<'s>, SLexerError>,
}

impl<'s> Lexer<'s> {
    /// The characters of the source.
    pub closed spec fn text(&self) -> Seq<char> {
        self.cursor.text()
    }

    /// How many characters have been scanned.
    pub closed spec fn index(&self) -> int {
        self.cursor.index()
    }

    /// The lookahead.
    pub closed spec fn lookahead(&self) -> LexResult {
        lex_result_view(self.next)
    }

    pub closed spec fn wf(&self) -> bool {
        &&& self.cursor.text() == self.source@
        &&& self.cursor.wf()
        &&& lookahead_ok(self.cursor.text(), lex_result_view(self.next))
    }

    pub proof fn lemma_wf(&self)
        requires
            self.wf(),
        ensures
            0 <= self.index() <= self.text().len(),
            lookahead_ok(self.text(), self.lookahead()),
            byte_len(self.text()) < usize::MAX,
    {
        self.cursor.lemma_wf();
    }

    pub fn new(source: &'s str) -> (r: Self)
        requires
            byte_len(source@) < usize::MAX,
        ensures
            r.wf(),
            r.text() == source@,
            (r.lookahead(), r.index()) == scan(
                source@,
                0,
                Ok(Spanned { value: TokenV::End, span: span_between(0, 1) }),
            ),
    {
        let cursor = Cursor::new(source);
        let mut lexer = Lexer { source, cursor, next: Ok(Token::End.sbetween(0, 1)) };
        proof {
            lexer.cursor.lemma_wf();
            lemma_scan(source@, 0, lex_result_view(lexer.next));
        }
        lexer.next = lexer.scan();
        lexer
    }

    pub fn peek(&self) -> (r: Result<SToken<'s>, SLexerError>)
        ensures
            lex_result_view(r) == self.lookahead(),
    {
        self.next
    }

    /// Hands out the lookahead and scans the one after it.
    pub fn next(&mut self) -> (r: Result<SToken<'s>, SLexerError>)
        requires
            old(self).wf(),
        ensures
            final(self).wf(),
            final(self).text() == old(self).text(),
            lex_result_view(r) == old(self).lookahead(),
            (final(self).lookahead(), final(self).index()) == scan(
                old(self).text(),
                old(self).index(),
                old(self).lookahead(),
            ),
    {
        proof {
            self.cursor.lemma_wf();
            lemma_scan(self.text(), self.index(), self.lookahead());
        }
        let next = self.scan();
        let current = self.next;
        self.next = next;
        current
    }

    fn scan(&mut self) -> (r: Result<SToken<'s>, SLexerError>)
        requires
            old(self).wf(),
        ensures
            final(self).wf(),
            final(self).source == old(self).source,
            final(self).text() == old(self).text(),
            final(self).next == old(self).next,
            (lex_result_view(r), final(self).index()) == scan(
                old(self).text(),
                old(self).index(),
                lex_result_view(old(self).next),
            ),
    {
        let ghost s = self.text();
        self.cursor.skip_white_space();
        let start_pos = self.cursor.pos();
        let j = self.cursor.index_exec();
        proof {
            old(self).cursor.lemma_wf();
            lemma_skip_white_space(s, old(self).index());
        }
        if j >= self.cursor.len() {
            return match self.next {
                Ok(t) => Ok(Token::End.sinherit(&t)),
                Err(e) => Err(e),
            };
        }
        let c = self.cursor.char_at(j);
        if c == '(' {
            self.cursor.advance();
            Ok(Token::ParenLeft.sbetween(start_pos, start_pos + 1))
        } else if c == ')' {
            self.cursor.advance();
            Ok(Token::ParenRight.sbetween(start_pos, start_pos + 1))
        } else if c == '\'' {
            self.cursor.advance();
            Ok(Token::Quote.sbetween(start_pos, start_pos + 1))
        } else if c == '"' {
            self.scan_string(start_pos)
        } else {
            self.scan_word(start_pos)
        }
    }

    fn scan_string(&mut self, start_pos: usize) -> (r: Result<SToken<'s>, SLexerError>)
        requires
            old(self).wf(),
            old(self).index() < old(self).text().len(),
            old(self).text()[old(self).index()] == '"',
            start_pos == byte_pos(old(self).text(), old(self).index()),
            start_pos < usize::MAX,
        ensures
            final(self).wf(),
            final(self).source == old(self).source,
            final(self).text() == old(self).text(),
            final(self).next == old(self).next,
            (lex_result_view(r), final(self).index()) == scan_string(
                old(self).text(),
                old(self).index(),
            ),
    {
        let ghost s = self.text();
        let j = self.cursor.index_exec();
        let end_pos = self.cursor.pos();
        self.cursor.advance();
        while self.cursor.index_exec() < self.cursor.len()
            invariant
                self.wf(),
                self.text() == s,
                j < self.index() <= s.len(),
                j == old(self).index(),
                s == old(self).text(),
                string_end(s, j + 1) == string_end(s, self.index()),
                self.source == old(self).source,
                self.next == old(self).next,
                start_pos == byte_pos(s, j as int),
                start_pos < usize::MAX,
            decreases s.len() - self.index(),
        {
            let i = self.cursor.index_exec();
            let d = self.cursor.char_at(i);
            if d == '"' {
                assert(string_end(s, i as int) == Some(i + 1));
                self.cursor.advance();
                let text = self.source.substring_char(j + 1, i);
                return Ok(Token::String(text).sbetween(start_pos, self.cursor.pos()));
            } else if d == '\\' {
                self.cursor.advance();
                self.cursor.advance();
            } else {
                self.cursor.advance();
            }
        }
        let end = self.cursor.pos();
        proof {
            assert(s.take(s.len() as int) =~= s);
        }
        Err(LexerError::UnterminatedString.sbetween(start_pos, end))
    }

    fn scan_word(&mut self, start_pos: usize) -> (r: Result<SToken<'s>, SLexerError>)
        requires
            old(self).wf(),
            old(self).index() < old(self).text().len(),
            !is_delimiter(old(self).text()[old(self).index()]),
            start_pos == byte_pos(old(self).text(), old(self).index()),
            start_pos < usize::MAX,
        ensures
            final(self).wf(),
            final(self).source == old(self).source,
            final(self).text() == old(self).text(),
            final(self).next == old(self).next,
            (lex_result_view(r), final(self).index()) == scan_word(
                old(self).text(),
                old(self).index(),
            ),
    {
        let ghost s = self.text();
        let j = self.cursor.index_exec();
        self.cursor.skip_word();
        let k = self.cursor.index_exec();
        let end_pos = self.cursor.pos();
        proof {
            lemma_word_end(s, j as int);
        }
        let characters = self.source.substring_char(j, k);
        if self.cursor.all_number_chars(j, k) {
            let chars = self.cursor.chars();
            if let Some(number) = parse_i64_chars(chars, j, k) {
                return Ok(Token::Integer(number).sbetween(start_pos, end_pos));
            }
            if is_decimal_literal_chars(chars, j, k) && decimal_is_finite_chars(chars, j, k) {
                return Ok(Token::Float(characters).sbetween(start_pos, end_pos));
            }
        }
        Ok(Token::Symbol(characters).sbetween(start_pos, end_pos))
    }
}

} // verus!
