use crate::lexing::lexer::{
    is_real, lemma_scan, lookahead_ok, scan, LexResult, LexerError, Lexer, SLexerError,
};
use crate::lexing::token::{SToken, Token, TokenV};
use crate::parsing::syntax::{
    children_view, default_syntax, lemma_children_view_frame, lemma_children_view_ids, lemma_syntax_view_frame, node_ok,
    store_wf, syntax_view, SSyntax, SSyntaxV, StringStore, SymbolId, SymbolStore, Syntax, SyntaxId,
    SyntaxRange, SyntaxStore, SyntaxTree, SyntaxV,
};
use crate::span::{span_between, Span, Spanned, SpannedExt};
use vstd::prelude::*;

verus! {

broadcast use crate::parsing::syntax::group_id_bounds;

pub type SParserError = Spanned<ParserError>;

#[derive(Debug, Clone, Copy, PartialEq, Eq)]
pub enum ParserError {
    LexerError(LexerError),
    MissingRightParen,
    UnexpectedRightParen,
    NothingToQuote,
    UnexpectedEscape,
}

/// A lexer error, as the parser reports it.
pub open spec fn from_lexer_error(e: SLexerError) -> SParserError {
    Spanned { value: ParserError::LexerError(e.value), span: e.span }
}

pub fn parser_error_from(error: SLexerError) -> (r: SParserError)
    ensures
        r == from_lexer_error(error),
{
    ParserError::LexerError(error.value).sinherit(&error)
}

impl From<SLexerError> for SParserError {
    fn from(error: SLexerError) -> (r: Self) {
        ParserError::LexerError(error.value).sinherit(&error)
    }
}

impl vstd::std_specs::convert::FromSpecImpl<SLexerError> for SParserError {
    open spec fn obeys_from_spec() -> bool {
        true
    }

    open spec fn from_spec(error: SLexerError) -> Self {
        from_lexer_error(error)
    }
}

/// The state of a lexer: how far it has scanned and its lookahead.
pub type LexState = (int, LexResult);

/// Handing out the lookahead and scanning the next one.
pub open spec fn lex_step(s: Seq<char>, st: LexState) -> LexState {
    let r = scan(s, st.0, st.1);
    (r.1, r.0)
}

/// What is left to read: characters not yet scanned, and the lookahead if
/// it is a token other than the end.
pub open spec fn measure(s: Seq<char>, st: LexState) -> int {
    (s.len() - st.0) + if is_real(st.1) {
        1int
    } else {
        0int
    }
}

pub open spec fn lex_state_ok(s: Seq<char>, st: LexState) -> bool {
    0 <= st.0 <= s.len() && lookahead_ok(s, st.1)
}

pub open spec fn err_at<T>(e: ParserError, span: Span) -> Result<T, SParserError> {
    Err(Spanned { value: e, span })
}

/// Resolving the escape sequences of a string literal's raw text.
pub open spec fn unescape_raw(r: Seq<char>) -> Option<Seq<char>>
    decreases r.len(),
{
    if r.len() == 0 {
        Some(Seq::empty())
    } else if r[0] != '\\' {
        match unescape_raw(r.drop_first()) {
            Some(t) => Some(seq![r[0]] + t),
            None => None,
        }
    } else if r.len() >= 2 && crate::frontend::string_reader::unescape(r[1]) is Some {
        match unescape_raw(r.skip(2)) {
            Some(t) => Some(seq![crate::frontend::string_reader::unescape(r[1])->0] + t),
            None => None,
        }
    } else {
        None
    }
}

pub open spec fn quote_name() -> Seq<char> {
    "quote"@
}

/// Parsing one expression from lexer state `st`: the tree or the error, and
/// the lexer state after it.
pub open spec fn parse_expr(s: Seq<char>, st: LexState) -> (Result<SSyntaxV, SParserError>, LexState)
    decreases measure(s, st), 0int,
{
    let st1 = lex_step(s, st);
    match st.1 {
        Err(e) => (Err(from_lexer_error(e)), st1),
        Ok(t) => match t.value {
            TokenV::End => (err_at(ParserError::NothingToQuote, t.span), st1),
            TokenV::ParenRight => (err_at(ParserError::UnexpectedRightParen, t.span), st1),
            TokenV::ParenLeft => if 0 <= measure(s, st1) < measure(s, st) {
                parse_items(s, st1, t.span, Seq::empty())
            } else {
                (Ok(default_syntax()), st1)
            },
            TokenV::Quote => match st1.1 {
                Err(e) => (Err(from_lexer_error(e)), st1),
                Ok(n) => if n.value is End {
                    (err_at(ParserError::NothingToQuote, t.span), st1)
                } else if 0 <= measure(s, st1) < measure(s, st) {
                    let (q, st2) = parse_expr(s, st1);
                    match q {
                        Ok(q) => (
                            Ok(
                                Spanned {
                                    value: SyntaxV::List(
                                        seq![
                                            Spanned {
                                                value: SyntaxV::Symbol(quote_name()),
                                                span: t.span,
                                            },
                                            q,
                                        ],
                                    ),
                                    span: t.span,
                                },
                            ),
                            st2,
                        ),
                        Err(e) => (Err(e), st2),
                    }
                } else {
                    (Ok(default_syntax()), st1)
                },
            },
            TokenV::Symbol(v) => (Ok(Spanned { value: SyntaxV::Symbol(v), span: t.span }), st1),
            TokenV::Integer(v) => (Ok(Spanned { value: SyntaxV::Integer(v), span: t.span }), st1),
            TokenV::Float(v) => (Ok(Spanned { value: SyntaxV::Float(v), span: t.span }), st1),
            TokenV::String(raw) => match unescape_raw(raw) {
                Some(c) => (Ok(Spanned { value: SyntaxV::String(c), span: t.span }), st1),
                None => (err_at(ParserError::UnexpectedEscape, t.span), st1),
            },
        },
    }
}

/// Parsing the rest of a list opened at `open`, whose first items are `acc`.
pub open spec fn parse_items(s: Seq<char>, st: LexState, open: Span, acc: Seq<SSyntaxV>) -> (
    Result<SSyntaxV, SParserError>,
    LexState,
)
    decreases measure(s, st), 1int,
{
    match st.1 {
        Err(e) => (Err(from_lexer_error(e)), st),
        Ok(t) => match t.value {
            TokenV::ParenRight => (
                Ok(
                    Spanned {
                        value: SyntaxV::List(acc),
                        span: span_between(open.start, t.span.end),
                    },
                ),
                lex_step(s, st),
            ),
            TokenV::End => (
                err_at(ParserError::MissingRightParen, span_between(open.start, t.span.end)),
                st,
            ),
            _ => {
                let (c, st2) = parse_expr(s, st);
                match c {
                    Err(e) => (Err(e), st2),
                    Ok(c) => if 0 <= measure(s, st2) < measure(s, st) {
                        parse_items(s, st2, open, acc.push(c))
                    } else {
                        (Ok(default_syntax()), st2)
                    },
                }
            },
        },
    }
}

/// Parsing expressions until the end of the text, after the trees `acc`.
pub open spec fn parse_all(s: Seq<char>, st: LexState, acc: Seq<SSyntaxV>) -> (
    Result<Seq<SSyntaxV>, SParserError>,
    LexState,
)
    decreases measure(s, st),
{
    match st.1 {
        Err(e) => (Err(from_lexer_error(e)), st),
        Ok(t) => if t.value is End {
            (Ok(acc), st)
        } else {
            let (r, st2) = parse_expr(s, st);
            match r {
                Err(e) => (Err(e), st2),
                Ok(r) => if 0 <= measure(s, st2) < measure(s, st) {
                    parse_all(s, st2, acc.push(r))
                } else {
                    (Ok(acc), st2)
                },
            }
        },
    }
}

pub proof fn lemma_lex_step(s: Seq<char>, st: LexState)
    requires
        lex_state_ok(s, st),
    ensures
        lex_state_ok(s, lex_step(s, st)),
        0 <= measure(s, lex_step(s, st)) <= measure(s, st),
        is_real(st.1) ==> measure(s, lex_step(s, st)) < measure(s, st),
{
    lemma_scan(s, st.0, st.1);
}

/// Parsing keeps the lexer state well formed and never moves it back; an
/// expression that parses takes at least one token.
pub proof fn lemma_parse_expr(s: Seq<char>, st: LexState)
    requires
        lex_state_ok(s, st),
    ensures
        lex_state_ok(s, parse_expr(s, st).1),
        0 <= measure(s, parse_expr(s, st).1) <= measure(s, st),
        parse_expr(s, st).0 is Ok ==> measure(s, parse_expr(s, st).1) < measure(s, st),
    decreases measure(s, st), 0int,
{
    let st1 = lex_step(s, st);
    lemma_lex_step(s, st);
    match st.1 {
        Err(e) => {},
        Ok(t) => match t.value {
            TokenV::ParenLeft => {
                lemma_parse_items(s, st1, t.span, Seq::empty());
            },
            TokenV::Quote => match st1.1 {
                Err(e) => {},
                Ok(n) => if !(n.value is End) {
                    lemma_parse_expr(s, st1);
                },
            },
            _ => {},
        },
    }
}

pub proof fn lemma_parse_items(s: Seq<char>, st: LexState, open: Span, acc: Seq<SSyntaxV>)
    requires
        lex_state_ok(s, st),
    ensures
        lex_state_ok(s, parse_items(s, st, open, acc).1),
        0 <= measure(s, parse_items(s, st, open, acc).1) <= measure(s, st),
    decreases measure(s, st), 1int,
{
    match st.1 {
        Err(e) => {},
        Ok(t) => match t.value {
            TokenV::ParenRight => {
                lemma_lex_step(s, st);
            },
            TokenV::End => {},
            _ => {
                lemma_parse_expr(s, st);
                let (c, st2) = parse_expr(s, st);
                if c is Ok {
                    lemma_parse_items(s, st2, open, acc.push(c->Ok_0));
                }
            },
        },
    }
}


/// Resolves the escape sequences of a string literal's raw text.
pub fn unescape_string(raw: &str) -> (r: Option<String>)
    ensures
        match r {
            Some(t) => unescape_raw(raw@) == Some(t@),
            None => unescape_raw(raw@) is None,
        },
{
    let chars = crate::text::chars_of(raw);
    let mut res = String::new();
    let mut i: usize = 0;
    proof {
        assert(chars@.skip(0) =~= chars@);
    }
    while i < chars.len()
        invariant
            0 <= i <= chars.len(),
            chars@ == raw@,
            unescape_raw(raw@) == (match unescape_raw(chars@.skip(i as int)) {
                Some(t) => Some(res@ + t),
                None => None::<Seq<char>>,
            }),
        decreases chars.len() - i,
    {
        let ghost rest = chars@.skip(i as int);
        let c = chars[i];
        assert(rest[0] == c);
        if c != '\\' {
            proof {
                assert(rest.drop_first() =~= chars@.skip(i + 1));
                match unescape_raw(rest.drop_first()) {
                    Some(t) => {
                        assert(res@.push(c) + t =~= res@ + (seq![c] + t));
                    },
                    None => {},
                }
            }
            crate::text::push_char(&mut res, c);
            i = i + 1;
        } else {
            if i + 1 >= chars.len() {
                return None;
            }
            let e = chars[i + 1];
            assert(rest[1] == e);
            match crate::frontend::string_reader::unescape_char(e) {
                Some(u) => {
                    proof {
                        assert(rest.skip(2) =~= chars@.skip(i + 2));
                        match unescape_raw(rest.skip(2)) {
                            Some(t) => {
                                assert(res@.push(u) + t =~= res@ + (seq![u] + t));
                            },
                            None => {},
                        }
                    }
                    crate::text::push_char(&mut res, u);
                    i = i + 2;
                },
                None => {
                    return None;
                },
            }
        }
    }
    proof {
        assert(chars@.skip(i as int) =~= Seq::<char>::empty());
        assert(res@ + Seq::<char>::empty() =~= res@);
    }
    Some(res)
}

/// Largest number of nodes the parser may need, so that ids fit in `u32`.
pub open spec fn node_limit() -> int {
    0xffff_fff0
}

/// A recursive-descent parser that builds a syntax tree from a lexer's tokens.
pub struct Parser {
    syntaxes: SyntaxStore,
    symbols: SymbolStore,
    strings: StringStore,
    scratch: Vec<SyntaxId>,
    quote: SymbolId,
}

impl Parser {
    closed spec fn nodes(&self) -> Seq<SSyntax> {
        self.syntaxes.nodes()
    }

    closed spec fn table(&self) -> Seq<SyntaxId> {
        self.syntaxes.child_table()
    }

    closed spec fn names(&self) -> Seq<Seq<char>> {
        self.symbols.names()
    }

    closed spec fn texts(&self) -> Seq<Seq<char>> {
        self.strings.values()
    }

    closed spec fn view_of(&self, id: int) -> SSyntaxV {
        syntax_view(self.nodes(), self.table(), self.names(), self.texts(), id)
    }

    /// The trees of the scratch entries from `from` on.
    closed spec fn scratch_views(&self, from: int) -> Seq<SSyntaxV> {
        Seq::new(
            (self.scratch@.len() - from) as nat,
            |k: int| self.view_of(self.scratch@[from + k].index()),
        )
    }

    closed spec fn inv(&self) -> bool {
        &&& store_wf(self.nodes(), self.table(), self.names().len() as int, self.texts().len() as int)
        &&& self.symbols.wf()
        &&& 0 <= self.quote.index() < self.names().len()
        &&& self.names()[self.quote.index()] == quote_name()
        &&& forall|k: int|
            0 <= k < self.scratch@.len() ==> 0 <= #[trigger] self.scratch@[k].index() < self.nodes().len()
        &&& self.table().len() + self.scratch@.len() <= self.nodes().len()
        &&& self.names().len() <= self.nodes().len() + 1
        &&& self.texts().len() <= self.nodes().len()
    }

    /// `self` holds everything `old` held, and more.
    closed spec fn grows_from(&self, old: &Parser) -> bool {
        &&& old.nodes().is_prefix_of(self.nodes())
        &&& old.table().is_prefix_of(self.table())
        &&& old.names().is_prefix_of(self.names())
        &&& old.texts().is_prefix_of(self.texts())
        &&& self.quote == old.quote
    }

    /// A parser with nothing parsed yet.
    pub closed spec fn fresh(&self) -> bool {
        &&& self.inv()
        &&& self.scratch@.len() == 0
        &&& self.nodes().len() == 0
    }

    pub fn new() -> (r: Self)
        ensures
            r.fresh(),
    {
        let mut symbols = SymbolStore::new();
        let quote = symbols.push("quote");
        let r = Self {
            syntaxes: SyntaxStore::new(),
            symbols,
            strings: StringStore::new(),
            scratch: Vec::new(),
            quote,
        };
        r
    }

    proof fn lemma_frame(&self, old: &Parser, id: int)
        requires
            old.inv(),
            self.grows_from(old),
            0 <= id < old.nodes().len(),
        ensures
            self.view_of(id) == old.view_of(id),
    {
        lemma_syntax_view_frame(
            old.nodes(),
            old.table(),
            old.names(),
            old.texts(),
            self.nodes(),
            self.table(),
            self.names(),
            self.texts(),
            id,
        );
    }

    proof fn lemma_grows_trans(&self, mid: &Parser, old: &Parser)
        requires
            self.grows_from(mid),
            mid.grows_from(old),
        ensures
            self.grows_from(old),
    {
        assert(old.nodes() =~= self.nodes().subrange(0, old.nodes().len() as int));
        assert(old.table() =~= self.table().subrange(0, old.table().len() as int));
        assert(old.names() =~= self.names().subrange(0, old.names().len() as int));
        assert(old.texts() =~= self.texts().subrange(0, old.texts().len() as int));
    }

    /// After the scratch entries from `mark` on were moved into the child
    /// table (giving `mid`) and a list node over them pushed (giving `self`).
    proof fn lemma_push_list(
        &self,
        before: &Parser,
        mid: &Parser,
        mark: int,
        node: SSyntax,
        range: SyntaxRange,
    )
        requires
            before.inv(),
            0 <= mark <= before.scratch@.len(),
            before.nodes().len() < node_limit(),
            mid.inv(),
            mid.nodes() == before.nodes(),
            mid.names() == before.names(),
            mid.texts() == before.texts(),
            mid.quote == before.quote,
            mid.table() == before.table() + before.scratch@.skip(mark),
            mid.scratch@ == before.scratch@.take(mark),
            range.start() == before.table().len(),
            range.len() == before.scratch@.len() - mark,
            node.value == Syntax::List(range),
            self.nodes() == mid.nodes().push(node),
            self.table() == mid.table(),
            self.names() == mid.names(),
            self.texts() == mid.texts(),
            self.quote == mid.quote,
            self.scratch@ == mid.scratch@,
            self.symbols == mid.symbols,
        ensures
            self.inv(),
            self.grows_from(before),
            self.table().len() + self.scratch@.len() + 1 <= self.nodes().len(),
            self.view_of(before.nodes().len() as int) == (Spanned {
                value: SyntaxV::List(before.scratch_views(mark)),
                span: node.span,
            }),
    {
        let id = before.nodes().len() as int;
        assert forall|k: int| range.start() <= k < range.end() implies 0
            <= #[trigger] self.table()[k].index() < id by {
            assert(self.table()[k] == before.scratch@[mark + (k - range.start())]);
        }
        assert forall|i: int| 0 <= i < self.nodes().len() implies node_ok(
            #[trigger] self.nodes()[i].value,
            i,
            self.table(),
            self.names().len() as int,
            self.texts().len() as int,
        ) by {
            if i < id {
                assert(node_ok(
                    mid.nodes()[i].value,
                    i,
                    mid.table(),
                    mid.names().len() as int,
                    mid.texts().len() as int,
                ));
            }
        }
        assert(before.nodes().is_prefix_of(self.nodes()));
        assert(before.table().is_prefix_of(self.table()));
        lemma_children_view_ids(
            self.nodes(),
            self.table(),
            self.names(),
            self.texts(),
            id,
            range.start(),
            range.len(),
        );
        assert forall|k: int| 0 <= k < range.len() implies syntax_view(
            self.nodes(),
            self.table(),
            self.names(),
            self.texts(),
            #[trigger] self.table()[range.start() + k].index(),
        ) == before.scratch_views(mark)[k] by {
            assert(self.table()[range.start() + k] == before.scratch@[mark + k]);
            self.lemma_frame(before, before.scratch@[mark + k].index());
        }
        assert(children_view(
            self.nodes(),
            self.table(),
            self.names(),
            self.texts(),
            id,
            range.start(),
            range.len(),
        ) =~= before.scratch_views(mark));
    }

    /// After a quoted expression was stored (giving `before`), a node for the
    /// name `quote` and a two-item list node after it (giving `self`).
    proof fn lemma_push_quoted(
        &self,
        before: &Parser,
        mid: &Parser,
        quotee: SyntaxId,
        quoted: SyntaxId,
        node: SSyntax,
        range: SyntaxRange,
        span: Span,
    )
        requires
            before.inv(),
            0 <= quoted.index() < before.nodes().len(),
            before.table().len() + before.scratch@.len() + 1 <= before.nodes().len(),
            quotee.index() == before.nodes().len(),
            mid.nodes() == before.nodes().push(
                Spanned { value: Syntax::Symbol(before.quote), span: span },
            ),
            mid.table() == before.table() + seq![quotee, quoted],
            mid.names() == before.names(),
            mid.texts() == before.texts(),
            mid.quote == before.quote,
            mid.scratch@ == before.scratch@,
            mid.symbols == before.symbols,
            range.start() == before.table().len(),
            range.len() == 2,
            node == (Spanned { value: Syntax::List(range), span: span }),
            self.nodes() == mid.nodes().push(node),
            self.table() == mid.table(),
            self.names() == mid.names(),
            self.texts() == mid.texts(),
            self.quote == mid.quote,
            self.scratch@ == mid.scratch@,
            self.symbols == mid.symbols,
        ensures
            self.inv(),
            self.grows_from(before),
            self.table().len() + self.scratch@.len() + 1 <= self.nodes().len(),
            self.view_of(before.nodes().len() + 1int) == (Spanned {
                value: SyntaxV::List(
                    seq![
                        Spanned { value: SyntaxV::Symbol(quote_name()), span: span },
                        before.view_of(quoted.index()),
                    ],
                ),
                span: span,
            }),
    {
        let n = before.nodes().len() as int;
        assert(self.table()[range.start()] == quotee);
        assert(self.table()[range.start() + 1] == quoted);
        assert forall|i: int| 0 <= i < self.nodes().len() implies node_ok(
            #[trigger] self.nodes()[i].value,
            i,
            self.table(),
            self.names().len() as int,
            self.texts().len() as int,
        ) by {
            if i < n {
                assert(node_ok(
                    before.nodes()[i].value,
                    i,
                    before.table(),
                    before.names().len() as int,
                    before.texts().len() as int,
                ));
                match self.nodes()[i].value {
                    Syntax::List(r) => {
                        assert forall|k: int| r.start() <= k < r.end() implies 0
                            <= #[trigger] self.table()[k].index() < i by {
                            assert(self.table()[k] == before.table()[k]);
                        }
                    },
                    _ => {},
                }
            } else if i == n + 1 {
                assert forall|k: int| range.start() <= k < range.end() implies 0
                    <= #[trigger] self.table()[k].index() < i by {
                    if k == range.start() {
                    } else {
                        assert(k == range.start() + 1);
                    }
                }
            }
        }
        assert(before.nodes().is_prefix_of(self.nodes()));
        assert(before.table().is_prefix_of(self.table()));
        lemma_children_view_ids(
            self.nodes(),
            self.table(),
            self.names(),
            self.texts(),
            n + 1,
            range.start(),
            range.len(),
        );
        self.lemma_frame(before, quoted.index() as int);
        assert(self.view_of(n) == (Spanned { value: SyntaxV::Symbol(quote_name()), span: span }));
        assert(children_view(
            self.nodes(),
            self.table(),
            self.names(),
            self.texts(),
            n + 1,
            range.start(),
            range.len(),
        ) =~= seq![
            Spanned { value: SyntaxV::Symbol(quote_name()), span: span },
            before.view_of(quoted.index()),
        ]);
    }

    /// Moves the scratch entries from `mark` on into the child table.
    fn scratch_push(&mut self, mark: usize) -> (r: SyntaxRange)
        requires
            old(self).inv(),
            mark <= old(self).scratch@.len(),
            old(self).nodes().len() <= node_limit(),
        ensures
            final(self).nodes() == old(self).nodes(),
            final(self).names() == old(self).names(),
            final(self).texts() == old(self).texts(),
            final(self).quote == old(self).quote,
            final(self).table() == old(self).table() + old(self).scratch@.skip(mark as int),
            final(self).scratch@ == old(self).scratch@.take(mark as int),
            final(self).inv(),
            r.start() == old(self).table().len(),
            r.len() == old(self).scratch@.len() - mark,
    {
        let children = crate::parsing::syntax::slice_subrange(
            self.scratch.as_slice(),
            mark,
            self.scratch.len(),
        );
        let range = self.syntaxes.push_children(children);
        self.scratch.truncate(mark);
        proof {
            assert(children@ =~= old(self).scratch@.skip(mark as int));
            assert forall|i: int| 0 <= i < self.nodes().len() implies node_ok(
                #[trigger] self.nodes()[i].value,
                i,
                self.table(),
                self.names().len() as int,
                self.texts().len() as int,
            ) by {
                assert(node_ok(
                    old(self).nodes()[i].value,
                    i,
                    old(self).table(),
                    old(self).names().len() as int,
                    old(self).texts().len() as int,
                ));
                match self.nodes()[i].value {
                    Syntax::List(r) => {
                        assert forall|k: int| r.start() <= k < r.end() implies 0
                            <= #[trigger] self.table()[k].index() < i by {
                            assert(self.table()[k] == old(self).table()[k]);
                        }
                    },
                    _ => {},
                }
            }
        }
        range
    }

    /// Parses the whole text: the syntax tree of all its expressions, or the
    /// first error.
    pub fn parse(self, lexer: &mut Lexer<'_>) -> (r: Result<SyntaxTree, SParserError>)
        requires
            self.fresh(),
            old(lexer).wf(),
            old(lexer).text().len() < 0x7fff_0000,
        ensures
            final(lexer).wf(),
            final(lexer).text() == old(lexer).text(),
            (final(lexer).index(), final(lexer).lookahead()) == parse_all(
                old(lexer).text(),
                (old(lexer).index(), old(lexer).lookahead()),
                Seq::empty(),
            ).1,
            match r {
                Ok(tree) => {
                    &&& tree.wf()
                    &&& parse_all(
                        old(lexer).text(),
                        (old(lexer).index(), old(lexer).lookahead()),
                        Seq::empty(),
                    ).0 == Ok::<Seq<SSyntaxV>, SParserError>(tree.roots_view())
                },
                Err(e) => parse_all(
                    old(lexer).text(),
                    (old(lexer).index(), old(lexer).lookahead()),
                    Seq::empty(),
                ).0 == Err::<Seq<SSyntaxV>, SParserError>(e),
            },
    {
        let mut parser = self;
        let ghost s = lexer.text();
        let ghost st0: LexState = (lexer.index(), lexer.lookahead());
        proof {
            lexer.lemma_wf();
            assert(parser.scratch_views(0) =~= Seq::empty());
        }
        loop
            invariant
                parser.inv(),
                lexer.wf(),
                lexer.text() == s,
                s == old(lexer).text(),
                st0 == (old(lexer).index(), old(lexer).lookahead()),
                s.len() < 0x7fff_0000,
                parse_all(s, st0, Seq::empty()) == parse_all(
                    s,
                    (lexer.index(), lexer.lookahead()),
                    parser.scratch_views(0),
                ),
                parser.nodes().len() + 2 * measure(s, (lexer.index(), lexer.lookahead())) <= 2 * (
                s.len() + 1),
            ensures
                lexer.lookahead() matches Ok(t) && t.value is End,
                parser.inv(),
                lexer.wf(),
                lexer.text() == s,
                s == old(lexer).text(),
                st0 == (old(lexer).index(), old(lexer).lookahead()),
                s.len() < 0x7fff_0000,
                parse_all(s, st0, Seq::empty()) == parse_all(
                    s,
                    (lexer.index(), lexer.lookahead()),
                    parser.scratch_views(0),
                ),
                parser.nodes().len() + 2 * measure(s, (lexer.index(), lexer.lookahead())) <= 2 * (
                s.len() + 1),
            decreases measure(s, (lexer.index(), lexer.lookahead())),
        {
            let ghost st: LexState = (lexer.index(), lexer.lookahead());
            let ghost acc = parser.scratch_views(0);
            proof {
                lexer.lemma_wf();
            }
            let peeked = match lexer.peek() {
                Ok(t) => t,
                Err(e) => return Err(parser_error_from(e)),
            };
            if let Token::End = peeked.value {
                break;
            }
            let ghost before = parser;
            let root = match parser.parse_expression(lexer) {
                Ok(root) => root,
                Err(e) => return Err(e),
            };
            proof {
                lemma_parse_expr(s, st);
            }
            parser.scratch.push(root);
            proof {
                assert forall|k: int| 0 <= k < acc.len() implies parser.scratch_views(0)[k]
                    == acc[k] by {
                    parser.lemma_frame(&before, parser.scratch@[k].index());
                }
                assert(parser.scratch_views(0) =~= acc.push(parser.view_of(root.index())));
            }
        }
        let ghost acc = parser.scratch_views(0);
        let ghost before = parser;
        proof {
            lexer.lemma_wf();
            let stf: LexState = (lexer.index(), lexer.lookahead());
            assert(parse_all(s, st0, Seq::empty()) == (Ok::<Seq<SSyntaxV>, SParserError>(acc), stf));
        }
        let roots = parser.scratch_push(0);
        let tree = SyntaxTree {
            roots,
            syntaxes: parser.syntaxes,
            symbols: parser.symbols,
            strings: parser.strings,
        };
        proof {
            let n = tree.syntaxes.nodes().len() as int;
            assert forall|k: int| roots.start() <= k < roots.end() implies 0
                <= #[trigger] tree.syntaxes.child_table()[k].index() < n by {
                assert(tree.syntaxes.child_table()[k] == before.scratch@[k - roots.start()]);
            }
            lemma_children_view_ids(
                tree.syntaxes.nodes(),
                tree.syntaxes.child_table(),
                tree.symbols.names(),
                tree.strings.values(),
                n,
                roots.start(),
                roots.len(),
            );
            assert forall|k: int| 0 <= k < roots.len() implies syntax_view(
                tree.syntaxes.nodes(),
                tree.syntaxes.child_table(),
                tree.symbols.names(),
                tree.strings.values(),
                #[trigger] tree.syntaxes.child_table()[roots.start() + k].index(),
            ) == acc[k] by {
                assert(tree.syntaxes.child_table()[roots.start() + k] == before.scratch@[k]);
                assert(before.nodes().is_prefix_of(tree.syntaxes.nodes()));
                assert(before.table().is_prefix_of(tree.syntaxes.child_table()));
                lemma_syntax_view_frame(
                    before.nodes(),
                    before.table(),
                    before.names(),
                    before.texts(),
                    tree.syntaxes.nodes(),
                    tree.syntaxes.child_table(),
                    tree.symbols.names(),
                    tree.strings.values(),
                    before.scratch@[k].index(),
                );
            }
            assert(tree.roots_view() =~= acc);
        }
        Ok(tree)
    }

    /// Parses one expression and stores its tree; the new node is not yet
    /// listed anywhere.
    fn parse_expression(&mut self, lexer: &mut Lexer<'_>) -> (r: Result<SyntaxId, SParserError>)
        requires
            old(self).inv(),
            old(lexer).wf(),
            old(self).nodes().len() + 2 * measure(
                old(lexer).text(),
                (old(lexer).index(), old(lexer).lookahead()),
            ) <= node_limit(),
        ensures
            final(lexer).wf(),
            final(lexer).text() == old(lexer).text(),
            (final(lexer).index(), final(lexer).lookahead()) == parse_expr(
                old(lexer).text(),
                (old(lexer).index(), old(lexer).lookahead()),
            ).1,
            final(self).inv(),
            final(self).grows_from(old(self)),
            old(self).scratch@.is_prefix_of(final(self).scratch@),
            r is Ok ==> final(self).scratch@ == old(self).scratch@,
            final(self).nodes().len() + 2 * measure(
                final(lexer).text(),
                (final(lexer).index(), final(lexer).lookahead()),
            ) <= old(self).nodes().len() + 2 * measure(
                old(lexer).text(),
                (old(lexer).index(), old(lexer).lookahead()),
            ),
            match r {
                Ok(id) => {
                    &&& 0 <= id.index() < final(self).nodes().len()
                    &&& final(self).table().len() + final(self).scratch@.len() + 1 <= final(self).nodes().len()
                    &&& parse_expr(old(lexer).text(), (old(lexer).index(), old(lexer).lookahead())).0
                        == Ok::<SSyntaxV, SParserError>(final(self).view_of(id.index()))
                },
                Err(e) => parse_expr(
                    old(lexer).text(),
                    (old(lexer).index(), old(lexer).lookahead()),
                ).0 == Err::<SSyntaxV, SParserError>(e),
            },
        decreases measure(old(lexer).text(), (old(lexer).index(), old(lexer).lookahead())), 0int,
    {
        let ghost s = lexer.text();
        let ghost st: LexState = (lexer.index(), lexer.lookahead());
        proof {
            lexer.lemma_wf();
            lemma_lex_step(s, st);
        }
        let t_start = match lexer.next() {
            Ok(t) => t,
            Err(e) => return Err(parser_error_from(e)),
        };
        let value = match t_start.value {
            Token::End => {
                return Err(ParserError::NothingToQuote.sinherit(&t_start));
            },
            Token::ParenRight => {
                return Err(ParserError::UnexpectedRightParen.sinherit(&t_start));
            },
            Token::ParenLeft => {
                return self.parse_list(lexer, t_start);
            },
            Token::Quote => {
                return self.parse_quoted(lexer, t_start);
            },
            Token::Symbol(v) => Syntax::Symbol(self.symbols.push(v)),
            Token::Integer(v) => Syntax::Integer(v),
            Token::Float(v) => Syntax::Float(v.to_owned()),
            Token::String(raw) => match unescape_string(raw) {
                Some(res) => Syntax::String(self.strings.push(res)),
                None => {
                    return Err(ParserError::UnexpectedEscape.sinherit(&t_start));
                },
            },
        };
        let ghost before = *self;
        let id = self.syntaxes.push(value.sinherit(&t_start));
        proof {
            assert(self.nodes() == before.nodes().push(Spanned { value, span: t_start.span }));
            assert forall|i: int| 0 <= i < self.nodes().len() implies node_ok(
                #[trigger] self.nodes()[i].value,
                i,
                self.table(),
                self.names().len() as int,
                self.texts().len() as int,
            ) by {
                if i < before.nodes().len() {
                    assert(node_ok(
                        before.nodes()[i].value,
                        i,
                        before.table(),
                        before.names().len() as int,
                        before.texts().len() as int,
                    ));
                }
            }
        }
        Ok(id)
    }

    /// Parses the rest of a list opened by `t_start`.
    fn parse_list(&mut self, lexer: &mut Lexer<'_>, t_start: SToken) -> (r: Result<SyntaxId, SParserError>)
        requires
            old(self).inv(),
            old(lexer).wf(),
            t_start.span.start < usize::MAX,
            old(self).nodes().len() + 2 * measure(
                old(lexer).text(),
                (old(lexer).index(), old(lexer).lookahead()),
            ) + 2 <= node_limit(),
        ensures
            final(lexer).wf(),
            final(lexer).text() == old(lexer).text(),
            (final(lexer).index(), final(lexer).lookahead()) == parse_items(
                old(lexer).text(),
                (old(lexer).index(), old(lexer).lookahead()),
                t_start.span,
                Seq::empty(),
            ).1,
            final(self).inv(),
            final(self).grows_from(old(self)),
            old(self).scratch@.is_prefix_of(final(self).scratch@),
            r is Ok ==> final(self).scratch@ == old(self).scratch@,
            final(self).nodes().len() + 2 * measure(
                final(lexer).text(),
                (final(lexer).index(), final(lexer).lookahead()),
            ) <= old(self).nodes().len() + 2 * measure(
                old(lexer).text(),
                (old(lexer).index(), old(lexer).lookahead()),
            ) + 2,
            match r {
                Ok(id) => {
                    &&& 0 <= id.index() < final(self).nodes().len()
                    &&& final(self).table().len() + final(self).scratch@.len() + 1 <= final(self).nodes().len()
                    &&& parse_items(
                        old(lexer).text(),
                        (old(lexer).index(), old(lexer).lookahead()),
                        t_start.span,
                        Seq::empty(),
                    ).0 == Ok::<SSyntaxV, SParserError>(final(self).view_of(id.index()))
                },
                Err(e) => parse_items(
                    old(lexer).text(),
                    (old(lexer).index(), old(lexer).lookahead()),
                    t_start.span,
                    Seq::empty(),
                ).0 == Err::<SSyntaxV, SParserError>(e),
            },
        decreases measure(old(lexer).text(), (old(lexer).index(), old(lexer).lookahead())), 1int,
    {
        let ghost s = lexer.text();
        let ghost st0: LexState = (lexer.index(), lexer.lookahead());
        let ghost p0 = *self;
        let scratch_start = self.scratch.len();
        proof {
            assert(self.scratch_views(scratch_start as int) =~= Seq::empty());
        }
        loop
            invariant
                self.inv(),
                lexer.wf(),
                lexer.text() == s,
                self.grows_from(&p0),
                p0.inv(),
                scratch_start == p0.scratch@.len(),
                scratch_start <= self.scratch@.len(),
                self.scratch@.take(scratch_start as int) == p0.scratch@,
                t_start.span.start < usize::MAX,
                s == old(lexer).text(),
                st0 == (old(lexer).index(), old(lexer).lookahead()),
                p0 == *old(self),
                parse_items(s, st0, t_start.span, Seq::empty()) == parse_items(
                    s,
                    (lexer.index(), lexer.lookahead()),
                    t_start.span,
                    self.scratch_views(scratch_start as int),
                ),
                self.nodes().len() + 2 * measure(s, (lexer.index(), lexer.lookahead())) + 2
                    <= p0.nodes().len() + 2 * measure(s, st0) + 2,
                p0.nodes().len() + 2 * measure(s, st0) + 2 <= node_limit(),
                measure(s, (lexer.index(), lexer.lookahead())) <= measure(s, st0),
            decreases measure(s, (lexer.index(), lexer.lookahead())),
        {
            let ghost st: LexState = (lexer.index(), lexer.lookahead());
            let ghost acc = self.scratch_views(scratch_start as int);
            proof {
                lexer.lemma_wf();
            }
            let t_next = match lexer.peek() {
                Ok(t) => t,
                Err(e) => return Err(parser_error_from(e)),
            };
            match t_next.value {
                Token::ParenRight => {
                    proof {
                        lemma_lex_step(s, st);
                    }
                    let _ = lexer.next();
                    let ghost before = *self;
                    let children = self.scratch_push(scratch_start);
                    let ghost mid = *self;
                    let node = Syntax::List(children).sjoin(&t_start, &t_next);
                    let id = self.syntaxes.push(node);
                    proof {
                        self.lemma_push_list(&before, &mid, scratch_start as int, node, children);
                    }
                    return Ok(id);
                },
                Token::End => {
                    return Err(ParserError::MissingRightParen.sjoin(&t_start, &t_next));
                },
                _ => {
                    let ghost before = *self;
                    let child = match self.parse_expression(lexer) {
                        Ok(c) => c,
                        Err(e) => return Err(e),
                    };
                    proof {
                        lemma_parse_expr(s, st);
                    }
                    self.scratch.push(child);
                    proof {
                        assert forall|k: int|
                            0 <= k < acc.len() implies self.scratch_views(scratch_start as int)[k]
                            == acc[k] by {
                            self.lemma_frame(&before, self.scratch@[scratch_start + k].index());
                        }
                        assert(self.scratch_views(scratch_start as int) =~= acc.push(
                            self.view_of(child.index()),
                        ));
                        assert(self.scratch@.take(scratch_start as int) =~= before.scratch@.take(
                            scratch_start as int,
                        ));
                    }
                },
            }
        }
    }

    /// Parses the expression after a quote `t_start`, and stores it quoted.
    fn parse_quoted(&mut self, lexer: &mut Lexer<'_>, t_start: SToken) -> (r: Result<SyntaxId, SParserError>)
        requires
            old(self).inv(),
            old(lexer).wf(),
            old(self).nodes().len() + 2 * measure(
                old(lexer).text(),
                (old(lexer).index(), old(lexer).lookahead()),
            ) + 2 <= node_limit(),
        ensures
            final(lexer).wf(),
            final(lexer).text() == old(lexer).text(),
            final(self).inv(),
            final(self).grows_from(old(self)),
            old(self).scratch@.is_prefix_of(final(self).scratch@),
            r is Ok ==> final(self).scratch@ == old(self).scratch@,
            final(self).nodes().len() + 2 * measure(
                final(lexer).text(),
                (final(lexer).index(), final(lexer).lookahead()),
            ) <= old(self).nodes().len() + 2 * measure(
                old(lexer).text(),
                (old(lexer).index(), old(lexer).lookahead()),
            ) + 2,
            ({
                let s = old(lexer).text();
                let st1: LexState = (old(lexer).index(), old(lexer).lookahead());
                let (q, st2) = parse_expr(s, st1);
                let expected: (Result<SSyntaxV, SParserError>, LexState) = match st1.1 {
                    Err(e) => (Err(from_lexer_error(e)), st1),
                    Ok(n) => if n.value is End {
                        (err_at(ParserError::NothingToQuote, t_start.span), st1)
                    } else {
                        match q {
                            Ok(q) => (
                                Ok(
                                    Spanned {
                                        value: SyntaxV::List(
                                            seq![
                                                Spanned {
                                                    value: SyntaxV::Symbol(quote_name()),
                                                    span: t_start.span,
                                                },
                                                q,
                                            ],
                                        ),
                                        span: t_start.span,
                                    },
                                ),
                                st2,
                            ),
                            Err(e) => (Err(e), st2),
                        }
                    },
                };
                &&& (final(lexer).index(), final(lexer).lookahead()) == expected.1
                &&& match r {
                    Ok(id) => {
                        &&& 0 <= id.index() < final(self).nodes().len()
                        &&& final(self).table().len() + final(self).scratch@.len() + 1 <= final(self).nodes().len()
                        &&& expected.0 == Ok::<SSyntaxV, SParserError>(
                            final(self).view_of(id.index()),
                        )
                    },
                    Err(e) => expected.0 == Err::<SSyntaxV, SParserError>(e),
                }
            }),
        decreases measure(old(lexer).text(), (old(lexer).index(), old(lexer).lookahead())), 1int,
    {
        let ghost s = lexer.text();
        let ghost st1: LexState = (lexer.index(), lexer.lookahead());
        let peeked = match lexer.peek() {
            Ok(t) => t,
            Err(e) => return Err(parser_error_from(e)),
        };
        if let Token::End = peeked.value {
            return Err(ParserError::NothingToQuote.sinherit(&t_start));
        }
        let ghost before = *self;
        let quoted = match self.parse_expression(lexer) {
            Ok(q) => q,
            Err(e) => return Err(e),
        };
        let ghost after_quoted = *self;
        proof {
            lexer.lemma_wf();
        }
        let quotee = self.syntaxes.push(Syntax::Symbol(self.quote).sinherit(&t_start));
        let pair = vec![quotee, quoted];
        let range = self.syntaxes.push_children(pair.as_slice());
        let ghost mid = *self;
        let node = Syntax::List(range).sinherit(&t_start);
        let id = self.syntaxes.push(node);
        proof {
            self.lemma_push_quoted(&after_quoted, &mid, quotee, quoted, node, range, t_start.span);
        }
        Ok(id)
    }
}

} // verus!