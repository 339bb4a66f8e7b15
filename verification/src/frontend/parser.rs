use crate::expression::{BindKind, Expression, ExpressionId, ExpressionRange, SExpression, SymbolId};
use crate::frontend::event::{
    is_terminal, sevent_view, stream_ok, symbol_named, Event, EventV, ReadError, ReadResult, Reader,
    SEvent, SReadError,
};
use crate::runtime::error::{RuntimeError, SRuntimeError};
use crate::runtime::session::{ParamRange, Session, StringRange};
use crate::runtime::tree::{
    lemma_expr_frame, lemma_range_text, range_ok, range_text, session_v, ExprV, SExprV, SessionV,
};
use crate::frontend::value_reader::{value_event, value_stream, ValueReader};
use crate::span::{Span, Spanned, SpannedExt};
use crate::text::{byte_len, fits_after, str_eq};
use vstd::prelude::*;
use vstd::string::StrSliceExecFns;

verus! {

/// The names that the language gives a meaning of its own.
pub open spec fn is_reserved(name: Seq<char>) -> bool {
    ||| name == "do"@
    ||| name == "if"@
    ||| name == "fn"@
    ||| name == "def"@
    ||| name == "def-macro"@
    ||| name == "set"@
    ||| name == "quote"@
    ||| name == "null"@
    ||| name == "true"@
    ||| name == "false"@
}

pub struct ReservedSymbols {}

impl ReservedSymbols {
    /// Whether `name` is reserved.
    pub fn matches(name: &str) -> (r: bool)
        ensures
            r == is_reserved(name@),
    {
        str_eq(name, "do") || str_eq(name, "if") || str_eq(name, "fn") || str_eq(name, "def")
            || str_eq(name, "def-macro") || str_eq(name, "set") || str_eq(name, "quote")
            || str_eq(name, "null") || str_eq(name, "true") || str_eq(name, "false")
    }
}

/// The characters that mark a parameter name: `&` a rest parameter, `#` a
/// name made fresh in each macro expansion.
pub struct SymbolMarkers {}

impl SymbolMarkers {
    /// Whether `name` starts with the rest marker `&`.
    pub fn matches_rest(name: &str) -> (r: bool)
        requires
            name@.len() > 0,
        ensures
            r == (name@[0] == '&'),
    {
        name.get_char(0) == '&'
    }

    /// Whether `name` starts with the fresh-name marker `#`.
    pub fn matches_fresh(name: &str) -> (r: bool)
        requires
            name@.len() > 0,
        ensures
            r == (name@[0] == '#'),
    {
        name.get_char(0) == '#'
    }
}

/// Why parsing gives no result: an error to report, or reading past the end
/// of the stream, which a stream that ends in its end event never leads to.
pub enum PFail {
    Error(SParseError),
    Opaque,
}

pub type PResult<T> = Result<T, PFail>;

pub open spec fn read_fail<T>(e: SReadError) -> PResult<T> {
    Err(PFail::Error(Spanned { value: ParseError::Read(Box::new(e.value)), span: e.span }))
}

pub open spec fn is_opaque<T>(r: PResult<T>) -> bool {
    r matches Err(PFail::Opaque)
}

pub open spec fn fail_at<T>(kind: ParseError, span: Span) -> PResult<T> {
    Err(PFail::Error(Spanned { value: kind, span }))
}

/// Reading past the last event, which a well-formed stream never leads to.
pub open spec fn past_end<T>() -> PResult<T> {
    Err(PFail::Opaque)
}

pub open spec fn made(v: ExprV, span: Span) -> PResult<SExprV> {
    Ok(Spanned { value: v, span })
}

pub open spec fn is_rest_name(n: Seq<char>) -> bool {
    n.len() > 0 && n[0] == '&'
}

/// A symbol outside a quote: a literal, an error, or a variable.
pub open spec fn symbol_expr(n: Seq<char>, span: Span) -> PResult<SExprV> {
    if n == "null"@ {
        made(ExprV::Null, span)
    } else if n == "true"@ {
        made(ExprV::Boolean(true), span)
    } else if n == "false"@ {
        made(ExprV::Boolean(false), span)
    } else if is_reserved(n) {
        fail_at(ParseError::UnexpectedReservedSymbol, span)
    } else if is_rest_name(n) {
        fail_at(ParseError::UnexpectedRestMarker, span)
    } else {
        made(ExprV::Symbol(n), span)
    }
}

/// Consuming the end of a list at `k`, after which `r` is the result.
pub open spec fn end_then(st: Seq<ReadResult>, k: int, r: PResult<SExprV>) -> (PResult<SExprV>, int) {
    if !(0 <= k < st.len()) {
        (past_end(), k)
    } else {
        match st[k] {
            Err(e) => (read_fail(e), k + 1),
            Ok(ev) => if ev.value is ListEnd {
                (r, k + 1)
            } else {
                (fail_at(ParseError::ExpectedListEnd, ev.span), k + 1)
            },
        }
    }
}

/// A result and where it stopped, with `c` expansions used by then.
pub open spec fn with_c<T>(r: (PResult<T>, int), c: int) -> (PResult<T>, int, int) {
    (r.0, r.1, c)
}

/// Parsing one expression from event `i` of `st`: the tree (or why there
/// is none) and the index of the event after it. `top` tells whether the
/// expression stands at the top level.
pub open spec fn p_expr(st: Seq<ReadResult>, i: int, top: bool, ms: Seq<Seq<char>>, xs: Seq<Seq<SEvent>>, c: int, d: int) -> (PResult<SExprV>, int, int)
    decreases d, st.len() - i, 0int,
{
    if !(0 <= i < st.len()) {
        (past_end(), i, c)
    } else {
        match st[i] {
            Err(e) => (read_fail(e), i + 1, c),
            Ok(ev) => match ev.value {
                EventV::ListStart => p_list(st, i + 1, ev.span, top, ms, xs, c, d),
                EventV::ListEnd => (fail_at(ParseError::UnexpectedListEnd, ev.span), i + 1, c),
                EventV::SourceEnd => (fail_at(ParseError::UnexpectedSourceEnd, ev.span), i + 1, c),
                EventV::Quote => with_c(p_quoted(st, i + 1), c),
                EventV::Symbol(n) => (symbol_expr(n, ev.span), i + 1, c),
                EventV::Integer(v) => (made(ExprV::Integer(v), ev.span), i + 1, c),
                EventV::Float(t) => (made(ExprV::Float(t), ev.span), i + 1, c),
                EventV::String(t) => (made(ExprV::String(t), ev.span), i + 1, c),
            },
        }
    }
}

/// Parsing a quoted expression from event `i`.
pub open spec fn p_quoted(st: Seq<ReadResult>, i: int) -> (PResult<SExprV>, int)
    decreases st.len() - i, 0int,
{
    if !(0 <= i < st.len()) {
        (past_end(), i)
    } else {
        match st[i] {
            Err(e) => (read_fail(e), i + 1),
            Ok(ev) => match ev.value {
                EventV::ListStart => p_list_q(st, i + 1, ev.span),
                EventV::ListEnd => (fail_at(ParseError::UnexpectedListEnd, ev.span), i + 1),
                EventV::SourceEnd => (fail_at(ParseError::UnexpectedSourceEnd, ev.span), i + 1),
                EventV::Quote => {
                    let (v, k) = p_quoted(st, i + 1);
                    match v {
                        Err(e) => (Err(e), k),
                        Ok(v) => (
                            made(
                                ExprV::List(
                                    seq![Spanned { value: ExprV::SymbolQ("quote"@), span: ev.span }, v],
                                ),
                                ev.span,
                            ),
                            k,
                        ),
                    }
                },
                EventV::Symbol(n) => (made(ExprV::SymbolQ(n), ev.span), i + 1),
                EventV::Integer(v) => (made(ExprV::Integer(v), ev.span), i + 1),
                EventV::Float(t) => (made(ExprV::Float(t), ev.span), i + 1),
                EventV::String(t) => (made(ExprV::String(t), ev.span), i + 1),
            },
        }
    }
}

/// Parsing quoted expressions from event `i` up to (not including) the
/// end of the list, after the trees `acc`.
pub open spec fn p_seq_q(st: Seq<ReadResult>, i: int, acc: Seq<SExprV>) -> (PResult<Seq<SExprV>>, int)
    decreases st.len() - i, 1int,
{
    if !(0 <= i < st.len()) {
        (past_end(), i)
    } else {
        match st[i] {
            Err(e) => (read_fail(e), i),
            Ok(ev) => if ev.value is ListEnd {
                (Ok(acc), i)
            } else {
                let (c, k) = p_quoted(st, i);
                match c {
                    Err(e) => (Err(e), k),
                    Ok(c) => if i < k <= st.len() {
                        p_seq_q(st, k, acc.push(c))
                    } else {
                        (past_end(), k)
                    },
                }
            },
        }
    }
}

/// The rest of a quoted list opened at `p_span`, from event `i`.
pub open spec fn p_list_q(st: Seq<ReadResult>, i: int, p_span: Span) -> (PResult<SExprV>, int)
    decreases st.len() - i, 2int,
{
    let (items, k) = p_seq_q(st, i, Seq::empty());
    match items {
        Err(e) => (Err(e), k),
        Ok(items) => end_then(st, k, made(ExprV::List(items), p_span)),
    }
}

/// Parsing expressions from event `i` up to (not including) the end of
/// the list, after the trees `acc`.
pub open spec fn p_seq(st: Seq<ReadResult>, i: int, acc: Seq<SExprV>, ms: Seq<Seq<char>>, xs: Seq<Seq<SEvent>>, c: int, d: int) -> (PResult<Seq<SExprV>>, int, int)
    decreases d, st.len() - i, 1int,
{
    if !(0 <= i < st.len()) {
        (past_end(), i, c)
    } else {
        match st[i] {
            Err(e) => (read_fail(e), i, c),
            Ok(ev) => if ev.value is ListEnd {
                (Ok(acc), i, c)
            } else {
                let (h, k, c2) = p_expr(st, i, false, ms, xs, c, d);
                match h {
                    Err(e) => (Err(e), k, c2),
                    Ok(h) => if i < k <= st.len() {
                        p_seq(st, k, acc.push(h), ms, xs, c2, d)
                    } else {
                        (past_end(), k, c2)
                    },
                }
            },
        }
    }
}

/// Parsing the rest of a list opened at `p_span`, from event `i`, the
/// first after the opening bracket.
pub open spec fn p_list(st: Seq<ReadResult>, i: int, p_span: Span, top: bool, ms: Seq<Seq<char>>, xs: Seq<Seq<SEvent>>, c: int, d: int) -> (PResult<SExprV>, int, int)
    decreases d, st.len() - i, 3int,
{
    if !(0 <= i < st.len()) {
        (past_end(), i, c)
    } else {
        match st[i] {
            Err(e) => (read_fail(e), i, c),
            Ok(ev) => match ev.value {
                EventV::Symbol(h) => if h == "quote"@ {
                    with_c(p_quote(st, i), c)
                } else if h == "do"@ {
                    p_do(st, i, p_span, ms, xs, c, d)
                } else if h == "if"@ {
                    p_if(st, i, p_span, ms, xs, c, d)
                } else if h == "fn"@ {
                    p_fn(st, i, p_span, ms, xs, c, d)
                } else if h == "def"@ {
                    p_bind(st, i, BindKind::Def, p_span, ms, xs, c, d)
                } else if h == "set"@ {
                    p_bind(st, i, BindKind::Assign, p_span, ms, xs, c, d)
                } else if h == "def-macro"@ {
                    if top {
                        p_def_macro(st, i, p_span, ms, xs, c, d)
                    } else {
                        (fail_at(ParseError::MacroDefinitionNotInTopLevel, p_span), i, c)
                    }
                } else {
                    p_call(st, i, p_span, ms, xs, c, d)
                },
                EventV::ListEnd => (made(ExprV::Null, p_span), i + 1, c),
                _ => p_call(st, i, p_span, ms, xs, c, d),
            },
        }
    }
}

/// `(quote value)`, from the event `quote` at `i`.
pub open spec fn p_quote(st: Seq<ReadResult>, i: int) -> (PResult<SExprV>, int)
    decreases st.len() - i, 1int,
{
    if !(0 <= i < st.len()) {
        (past_end(), i)
    } else {
        let (v, k) = p_quoted(st, i + 1);
        match v {
            Err(e) => (Err(e), k),
            Ok(v) => end_then(st, k, Ok(v)),
        }
    }
}

/// `(do body...)`, from the event `do` at `i`.
pub open spec fn p_do(st: Seq<ReadResult>, i: int, p_span: Span, ms: Seq<Seq<char>>, xs: Seq<Seq<SEvent>>, c: int, d: int) -> (PResult<SExprV>, int, int)
    decreases d, st.len() - i, 1int,
{
    if !(0 <= i < st.len()) {
        (past_end(), i, c)
    } else {
        let (items, k, c2) = p_seq(st, i + 1, Seq::empty(), ms, xs, c, d);
        match items {
            Err(e) => (Err(e), k, c2),
            Ok(items) => with_c(end_then(st, k, made(ExprV::Do(items), p_span)), c2),
        }
    }
}

/// `(if cond then else)`, from the event `if` at `i`.
pub open spec fn p_if(st: Seq<ReadResult>, i: int, p_span: Span, ms: Seq<Seq<char>>, xs: Seq<Seq<SEvent>>, c: int, d: int) -> (PResult<SExprV>, int, int)
    decreases d, st.len() - i, 1int,
{
    if !(0 <= i < st.len()) {
        (past_end(), i, c)
    } else {
        let (cd, k1, c1) = p_expr(st, i + 1, false, ms, xs, c, d);
        match cd {
            Err(e) => (Err(e), k1, c1),
            Ok(cd) => if i < k1 <= st.len() {
                let (t, k2, c2) = p_expr(st, k1, false, ms, xs, c1, d);
                match t {
                    Err(e) => (Err(e), k2, c2),
                    Ok(t) => if i < k2 <= st.len() {
                        let (f, k3, c3) = p_expr(st, k2, false, ms, xs, c2, d);
                        match f {
                            Err(e) => (Err(e), k3, c3),
                            Ok(f) => with_c(
                                end_then(
                                    st,
                                    k3,
                                    made(
                                        ExprV::If {
                                            cond: Box::new(cd),
                                            t_branch: Box::new(t),
                                            f_branch: Box::new(f),
                                        },
                                        p_span,
                                    ),
                                ),
                                c3,
                            ),
                        }
                    } else {
                        (past_end(), k2, c2)
                    },
                }
            } else {
                (past_end(), k1, c1)
            },
        }
    }
}

/// The parameter list from event `j`, after the parameters `names`: the
/// names and the rest parameter, or why there are none.
pub open spec fn p_params(st: Seq<ReadResult>, j: int, names: Seq<Seq<char>>) -> (
    PResult<(Seq<Seq<char>>, Option<Seq<char>>)>,
    int,
)
    decreases st.len() - j,
{
    if !(0 <= j < st.len()) {
        (past_end(), j)
    } else {
        match st[j] {
            Err(e) => (read_fail(e), j + 1),
            Ok(ev) => match ev.value {
                EventV::ListEnd => (Ok((names, None)), j + 1),
                EventV::Symbol(n) => if is_rest_name(n) {
                    if names.contains(n) {
                        (fail_at(ParseError::DuplicateParameter, ev.span), j + 1)
                    } else if !(j + 1 < st.len()) {
                        (past_end(), j + 1)
                    } else {
                        match st[j + 1] {
                            Err(e) => (read_fail(e), j + 2),
                            Ok(end) => if end.value is ListEnd {
                                (Ok((names, Some(n))), j + 2)
                            } else {
                                (fail_at(ParseError::ExpectedListEnd, end.span), j + 2)
                            },
                        }
                    }
                } else if is_reserved(n) {
                    (fail_at(ParseError::UnexpectedReservedSymbol, ev.span), j + 1)
                } else if names.contains(n) {
                    (fail_at(ParseError::DuplicateParameter, ev.span), j + 1)
                } else {
                    p_params(st, j + 1, names.push(n))
                },
                _ => (fail_at(ParseError::ExpectedSymbol, ev.span), j + 1),
            },
        }
    }
}

/// `(fn (params...) body)`, from the event `fn` at `i`.
pub open spec fn p_fn(st: Seq<ReadResult>, i: int, p_span: Span, ms: Seq<Seq<char>>, xs: Seq<Seq<SEvent>>, c: int, d: int) -> (PResult<SExprV>, int, int)
    decreases d, st.len() - i, 1int,
{
    if !(0 <= i + 1 < st.len()) {
        (past_end(), i + 1, c)
    } else {
        match st[i + 1] {
            Err(e) => (read_fail(e), i + 2, c),
            Ok(ls) => if !(ls.value is ListStart) {
                (fail_at(ParseError::ExpectedParameterList, ls.span), i + 2, c)
            } else {
                let (ps, k) = p_params(st, i + 2, Seq::empty());
                match ps {
                    Err(e) => (Err(e), k, c),
                    Ok((names, rest)) => if i < k <= st.len() {
                        let (b, k2, c2) = p_expr(st, k, false, ms, xs, c, d);
                        match b {
                            Err(e) => (Err(e), k2, c2),
                            Ok(b) => with_c(
                                end_then(
                                    st,
                                    k2,
                                    made(
                                        ExprV::Fn { req_params: names, rest_param: rest, body: Box::new(b) },
                                        p_span,
                                    ),
                                ),
                                c2,
                            ),
                        }
                    } else {
                        (past_end(), k, c)
                    },
                }
            },
        }
    }
}

/// `(fn (params...) body)` from the event `fn` at `i`, or, with
/// `named`, `(def-macro name (params...) body)` from the event `def-macro`.
pub open spec fn p_callable(st: Seq<ReadResult>, i: int, p_span: Span, named: bool, ms: Seq<Seq<char>>, xs: Seq<Seq<SEvent>>, c: int, d: int) -> (
    PResult<SExprV>,
    int,
    int,
) {
    if !named {
        p_fn(st, i, p_span, ms, xs, c, d)
    } else if !(0 <= i + 1 < st.len()) {
        (past_end(), i + 1, c)
    } else {
        match st[i + 1] {
            Err(e) => (read_fail(e), i + 2, c),
            Ok(ev) => match ev.value {
                EventV::Symbol(_) => p_fn(st, i + 1, p_span, ms, xs, c, d),
                _ => (fail_at(ParseError::ExpectedSymbol, ev.span), i + 2, c),
            },
        }
    }
}

/// `(def name value)` or `(set name value)`, from the event `def` or `set`
/// at `i`.
pub open spec fn p_bind(st: Seq<ReadResult>, i: int, kind: BindKind, p_span: Span, ms: Seq<Seq<char>>, xs: Seq<Seq<SEvent>>, c: int, d: int) -> (
    PResult<SExprV>,
    int,
    int,
)
    decreases d, st.len() - i, 1int,
{
    if !(0 <= i + 1 < st.len()) {
        (past_end(), i + 1, c)
    } else {
        match st[i + 1] {
            Err(e) => (read_fail(e), i + 2, c),
            Ok(ev) => match ev.value {
                EventV::Symbol(n) => if is_reserved(n) {
                    (fail_at(ParseError::UnexpectedReservedSymbol, ev.span), i + 2, c)
                } else {
                    let (v, k, c2) = p_expr(st, i + 2, false, ms, xs, c, d);
                    match v {
                        Err(e) => (Err(e), k, c2),
                        Ok(v) => with_c(
                            end_then(st, k, made(ExprV::Bind { kind, name: n, value: Box::new(v) }, p_span)),
                            c2,
                        ),
                    }
                },
                _ => (fail_at(ParseError::ExpectedSymbol, ev.span), i + 2, c),
            },
        }
    }
}

/// `(def-macro name (params...) body)` at the top level, from the event
/// `def-macro` at `i`: it stands for `null`, and its name may not already
/// be a macro.
pub open spec fn p_def_macro(st: Seq<ReadResult>, i: int, p_span: Span, ms: Seq<Seq<char>>, xs: Seq<Seq<SEvent>>, c: int, d: int) -> (
    PResult<SExprV>,
    int,
    int,
)
    decreases d, st.len() - i, 2int,
{
    if !(0 <= i + 1 < st.len()) {
        (past_end(), i + 1, c)
    } else {
        match st[i + 1] {
            Err(e) => (read_fail(e), i + 2, c),
            Ok(ev) => match ev.value {
                EventV::Symbol(n) => {
                    let (f, k, c2) = p_fn(st, i + 1, p_span, ms, xs, c, d);
                    match f {
                        Err(e) => (Err(e), k, c2),
                        Ok(_) => if ms.contains(n) {
                            (fail_at(ParseError::MacroAlreadyDefined, p_span), k, c2)
                        } else {
                            (made(ExprV::Null, p_span), k, c2)
                        },
                    }
                },
                _ => (fail_at(ParseError::ExpectedSymbol, ev.span), i + 2, c),
            },
        }
    }
}

/// The name that a list whose items start at event `i` defines as a macro,
/// if it is `(def-macro name ...)`.
pub open spec fn list_def(st: Seq<ReadResult>, i: int) -> Seq<Seq<char>> {
    if 0 <= i && i + 1 < st.len() {
        match (st[i], st[i + 1]) {
            (Ok(h), Ok(nv)) => match nv.value {
                EventV::Symbol(n) => if head_of(h.value) is DefMacro {
                    seq![n]
                } else {
                    Seq::empty()
                },
                _ => Seq::empty(),
            },
            _ => Seq::empty(),
        }
    } else {
        Seq::empty()
    }
}

/// The name that the expression from event `i` defines as a macro, if it is
/// `(def-macro name ...)`.
pub open spec fn expr_def(st: Seq<ReadResult>, i: int) -> Seq<Seq<char>> {
    if 0 <= i < st.len() {
        match st[i] {
            Ok(ev) => if ev.value is ListStart {
                list_def(st, i + 1)
            } else {
                Seq::empty()
            },
            Err(_) => Seq::empty(),
        }
    } else {
        Seq::empty()
    }
}

/// `(callee args...)`, from the callee's first event at `i`.
pub open spec fn p_call(st: Seq<ReadResult>, i: int, p_span: Span, ms: Seq<Seq<char>>, xs: Seq<Seq<SEvent>>, c: int, d: int) -> (PResult<SExprV>, int, int)
    decreases d, st.len() - i, 2int,
{
    let (h, k, c2) = p_expr(st, i, false, ms, xs, c, d);
    match h {
        Err(e) => (Err(e), k, c2),
        Ok(h) => if i < k <= st.len() {
            if h.value matches ExprV::Symbol(n) && ms.contains(n) {
                p_macro_call(st, k, p_span, ms, xs, c2, d)
            } else {
                p_call_args(st, k, h, p_span, ms, xs, c2, d)
            }
        } else {
            (past_end(), k, c2)
        },
    }
}

/// A call of a macro, from the first argument's event at `k`: the
/// arguments are read quoted, then the next expansion, `xs[c]`, is parsed in
/// place of the call, with one level of nesting less.
pub open spec fn p_macro_call(st: Seq<ReadResult>, k: int, p_span: Span, ms: Seq<Seq<char>>, xs: Seq<Seq<SEvent>>, c: int, d: int) -> (
    PResult<SExprV>,
    int,
    int,
)
    decreases d, st.len() - k, 2int,
{
    let (a, k2) = p_list_q(st, k, p_span);
    match a {
        Err(e) => (Err(e), k2, c),
        Ok(_) => if d <= 0 {
            (fail_at(ParseError::ExpansionTooDeep, p_span), k2, c)
        } else if 0 <= c < xs.len() {
            let (e, _, c3) = p_expr(value_stream(xs[c], p_span), 0, false, ms, xs, c + 1, d - 1);
            (e, k2, c3)
        } else {
            (fail_at(ParseError::ExpansionNeeded, p_span), k2, c)
        },
    }
}

/// The arguments of a call of `h`, from event `k`, then the end of the list.
pub open spec fn p_call_args(st: Seq<ReadResult>, k: int, h: SExprV, p_span: Span, ms: Seq<Seq<char>>, xs: Seq<Seq<SEvent>>, c: int, d: int) -> (
    PResult<SExprV>,
    int,
    int,
)
    decreases d, st.len() - k, 2int,
{
    let (args, k2, c2) = p_seq(st, k, Seq::empty(), ms, xs, c, d);
    match args {
        Err(e) => (Err(e), k2, c2),
        Ok(args) => with_c(end_then(st, k2, made(ExprV::Call { call: Box::new(h), args }, p_span)), c2),
    }
}

/// Parsing top-level expressions from event `i` until the end of the
/// source, after the trees `acc`.
pub open spec fn p_all(st: Seq<ReadResult>, i: int, acc: Seq<SExprV>, ms: Seq<Seq<char>>, xs: Seq<Seq<SEvent>>, c: int, d: int) -> (
    PResult<Seq<SExprV>>,
    int,
    int,
)
    decreases st.len() - i,
{
    if !(0 <= i < st.len()) {
        (past_end(), i, c)
    } else {
        match st[i] {
            Err(e) => (read_fail(e), i, c),
            Ok(ev) => if ev.value is SourceEnd {
                (Ok(acc), i, c)
            } else {
                let (r, k, c2) = p_expr(st, i, true, ms, xs, c, d);
                match r {
                    Err(e) => (Err(e), k, c2),
                    Ok(v) => if i < k <= st.len() {
                        p_all(st, k, acc.push(v), ms + expr_def(st, i), xs, c2, d)
                    } else {
                        (past_end(), k, c2)
                    },
                }
            },
        }
    }
}

pub type SParseError = Spanned<ParseError>;

/// Errors of parsing events into expressions.
#[derive(Debug, PartialEq)]
pub enum ParseError {
    Read(Box<ReadError>),
    Expansion(Box<RuntimeError>),
    ExpectedListEnd,
    ExpectedSymbol,
    ExpectedParameterList,
    UnexpectedListEnd,
    UnexpectedSourceEnd,
    UnexpectedReservedSymbol,
    MacroDefinitionNotInTopLevel,
    MacroAlreadyDefined,
    DuplicateParameter,
    UnexpectedRestMarker,
    /// The session cannot hold more: its ids or offsets would overflow.
    TooLarge,
    /// Macro expansions nest deeper than the parser allows.
    ExpansionTooDeep,
    /// A macro call has no expansion yet: `Expansions` holds the request.
    ExpansionNeeded,
}

impl From<SReadError> for SParseError {
    fn from(error: SReadError) -> (r: Self) {
        ParseError::Read(Box::new(error.value)).scopy(error.span)
    }
}

impl vstd::std_specs::convert::FromSpecImpl<SReadError> for SParseError {
    open spec fn obeys_from_spec() -> bool {
        true
    }

    open spec fn from_spec(error: SReadError) -> Self {
        Spanned { value: ParseError::Read(Box::new(error.value)), span: error.span }
    }
}

impl From<SRuntimeError> for SParseError {
    fn from(error: SRuntimeError) -> (r: Self) {
        ParseError::Expansion(Box::new(error.value)).scopy(error.span)
    }
}

impl vstd::std_specs::convert::FromSpecImpl<SRuntimeError> for SParseError {
    open spec fn obeys_from_spec() -> bool {
        true
    }

    open spec fn from_spec(error: SRuntimeError) -> Self {
        Spanned { value: ParseError::Expansion(Box::new(error.value)), span: error.span }
    }
}

/// Whether `events` stands at event `i` of the stream `st`.
pub open spec fn reading<R: Reader>(events: &R, st: Seq<ReadResult>, i: int) -> bool {
    &&& events.ready()
    &&& 0 <= i < st.len()
    &&& events.stream() == st.subrange(i, st.len() as int)
}

/// The bytes of text that an event may add to a session.
pub open spec fn text_cost(r: ReadResult) -> nat {
    match r {
        Ok(e) => match e.value {
            EventV::String(t) => byte_len(t),
            EventV::Float(t) => byte_len(t),
            _ => 0,
        },
        Err(_) => 0,
    }
}

/// The bytes of text that the events from `i` on may add.
pub open spec fn bytes_from(st: Seq<ReadResult>, i: int) -> nat
    decreases st.len() - i,
{
    if 0 <= i < st.len() {
        text_cost(st[i]) + bytes_from(st, i + 1)
    } else {
        0
    }
}

/// The largest number of expressions, or of child-table entries, that a
/// session may hold, so that their ids fit in `u32`.
pub const ID_LIMIT: usize = 0xffff_fffe;

/// Whether parsing the events of `st` from `i` fits in the session `v`
/// (with `scratch` ids waiting): each event may add two expressions and
/// two child-table entries, and its text.
pub open spec fn budget_ok(
    v: SessionV,
    scratch: int,
    st: Seq<ReadResult>,
    i: int,
    xs: Seq<Seq<SEvent>>,
    c: int,
) -> bool {
    &&& v.exprs.len() + 2 * (st.len() - i) + 2 + xs_cost(xs, c) <= ID_LIMIT
    &&& v.table.len() + scratch + 2 * (st.len() - i) + 2 + xs_cost(xs, c) <= ID_LIMIT
    &&& byte_len(v.text) + bytes_from(st, i) + xs_bytes(xs, c) < usize::MAX
}

/// What the expansions from `c` on may add to a session: two expressions
/// and two child-table entries for each event, and for each end.
pub open spec fn xs_cost(xs: Seq<Seq<SEvent>>, c: int) -> nat
    decreases xs.len() - c,
{
    if 0 <= c < xs.len() {
        (2 * xs[c].len() + 4 + xs_cost(xs, c + 1)) as nat
    } else {
        0
    }
}

/// The bytes of text that the events `evs` may add.
pub open spec fn ev_bytes(evs: Seq<SEvent>) -> nat
    decreases evs.len(),
{
    if evs.len() == 0 {
        0
    } else {
        text_cost(value_event(evs[0])) + ev_bytes(evs.drop_first())
    }
}

/// The bytes of text that the expansions from `c` on may add.
pub open spec fn xs_bytes(xs: Seq<Seq<SEvent>>, c: int) -> nat
    decreases xs.len() - c,
{
    if 0 <= c < xs.len() {
        (ev_bytes(xs[c]) + xs_bytes(xs, c + 1)) as nat
    } else {
        0
    }
}

/// A stream of events hands out no more than the events and its end, and
/// no more text than the events.
pub proof fn lemma_value_stream_size(evs: Seq<SEvent>, end: Span)
    ensures
        value_stream(evs, end).len() <= evs.len() + 1,
        bytes_from(value_stream(evs, end), 0) <= ev_bytes(evs),
    decreases evs.len(),
{
    let st = value_stream(evs, end);
    if evs.len() > 0 {
        let r = value_event(evs[0]);
        if !crate::frontend::event::is_terminal(r) {
            lemma_value_stream_size(evs.drop_first(), end);
            let rest = value_stream(evs.drop_first(), end);
            lemma_bytes_from_shift(seq![r], rest);
        } else {
            assert(bytes_from(st, 1) == 0);
        }
    } else {
        assert(bytes_from(st, 1) == 0);
    }
}

/// The text of `a + b` from `a.len()` on is that of `b`.
pub proof fn lemma_bytes_from_shift(a: Seq<ReadResult>, b: Seq<ReadResult>)
    requires
        a.len() == 1,
    ensures
        bytes_from(a + b, 0) == text_cost(a[0]) + bytes_from(b, 0),
{
    lemma_bytes_from_suffix(a + b, b, 1, 0);
}

/// Where `st` from `off` on is `b`, its text from `off + j` is that of `b` from `j`.
pub proof fn lemma_bytes_from_suffix(st: Seq<ReadResult>, b: Seq<ReadResult>, off: int, j: int)
    requires
        0 <= off,
        0 <= j,
        st.len() == off + b.len(),
        forall|k: int| 0 <= k < b.len() ==> st[off + k] == b[k],
    ensures
        bytes_from(st, off + j) == bytes_from(b, j),
    decreases b.len() - j,
{
    if j < b.len() {
        lemma_bytes_from_suffix(st, b, off, j + 1);
    }
}

/// One expansion's events cost no more than the room kept for it.
pub proof fn lemma_expansion_budget(xs: Seq<Seq<SEvent>>, c: int, end: Span)
    requires
        0 <= c < xs.len(),
    ensures
        2 * value_stream(xs[c], end).len() + 2 + xs_cost(xs, c + 1) <= xs_cost(xs, c),
        bytes_from(value_stream(xs[c], end), 0) + xs_bytes(xs, c + 1) <= xs_bytes(xs, c),
        xs_cost(xs, c + 1) >= 0,
        xs_bytes(xs, c + 1) >= 0,
{
    lemma_value_stream_size(xs[c], end);
    lemma_xs_nonneg(xs, c + 1);
}

/// The room kept for expansions is never negative.
pub proof fn lemma_xs_nonneg(xs: Seq<Seq<SEvent>>, c: int)
    ensures
        xs_cost(xs, c) >= 0,
        xs_bytes(xs, c) >= 0,
    decreases xs.len() - c,
{
    if 0 <= c < xs.len() {
        lemma_xs_nonneg(xs, c + 1);
    }
}

/// Going from event `i` with session `v0` to event `j` with session `v`
/// used no more than the events in between allow, `extra` more kept back.
pub open spec fn within(
    st: Seq<ReadResult>,
    v0: SessionV,
    s0: int,
    i: int,
    v: SessionV,
    s: int,
    j: int,
    extra: int,
    xs: Seq<Seq<SEvent>>,
    c0: int,
    c: int,
) -> bool {
    &&& v.exprs.len() + 2 * (st.len() - j) + xs_cost(xs, c) + extra <= v0.exprs.len() + 2 * (st.len() - i)
        + xs_cost(xs, c0)
    &&& v.table.len() + s + 2 * (st.len() - j) + xs_cost(xs, c) + extra <= v0.table.len() + s0 + 2 * (
    st.len() - i) + xs_cost(xs, c0)
    &&& byte_len(v.text) + bytes_from(st, j) + xs_bytes(xs, c) <= byte_len(v0.text) + bytes_from(st, i)
        + xs_bytes(xs, c0)
}

/// The tree of `e` once it is pushed into the session `v`.
pub open spec fn pushed_view(v: SessionV, e: SExpression) -> SExprV {
    SessionV {
        exprs: v.exprs.push(e),
        table: v.table,
        names: v.names,
        params: v.params,
        text: v.text,
    }.expr(v.exprs.len() as int)
}

/// The expressions `ids` of the session `v` have the trees `vs`.
pub open spec fn items_in(v: SessionV, ids: Seq<ExpressionId>, vs: Seq<SExprV>) -> bool {
    &&& ids.len() == vs.len()
    &&& forall|k: int|
        0 <= k < ids.len() ==> 0 <= #[trigger] ids[k].index() < v.exprs.len() && v.expr(ids[k].index())
            == vs[k]
}

pub proof fn lemma_items_frame(v: SessionV, v2: SessionV, ids: Seq<ExpressionId>, vs: Seq<SExprV>)
    requires
        v.wf(),
        v2.grows_from(v),
        items_in(v, ids, vs),
    ensures
        items_in(v2, ids, vs),
{
    assert forall|k: int| 0 <= k < ids.len() implies 0 <= #[trigger] ids[k].index() < v2.exprs.len()
        && v2.expr(ids[k].index()) == vs[k] by {
        lemma_expr_frame(v, v2, ids[k].index());
    }
}

/// Growing is transitive.
pub proof fn lemma_grows_trans(a: SessionV, b: SessionV, c: SessionV)
    requires
        b.grows_from(a),
        c.grows_from(b),
    ensures
        c.grows_from(a),
{
    assert(a.exprs =~= c.exprs.subrange(0, a.exprs.len() as int)) by {
        assert forall|k: int| 0 <= k < a.exprs.len() implies a.exprs[k] == c.exprs[k] by {
            assert(a.exprs[k] == b.exprs[k]);
        }
    }
    assert(a.table =~= c.table.subrange(0, a.table.len() as int)) by {
        assert forall|k: int| 0 <= k < a.table.len() implies a.table[k] == c.table[k] by {
            assert(a.table[k] == b.table[k]);
        }
    }
    assert(a.names =~= c.names.subrange(0, a.names.len() as int)) by {
        assert forall|k: int| 0 <= k < a.names.len() implies a.names[k] == c.names[k] by {
            assert(a.names[k] == b.names[k]);
        }
    }
    assert(a.params =~= c.params.subrange(0, a.params.len() as int)) by {
        assert forall|k: int| 0 <= k < a.params.len() implies a.params[k] == c.params[k] by {
            assert(a.params[k] == b.params[k]);
        }
    }
    assert(a.text =~= c.text.subrange(0, a.text.len() as int)) by {
        assert forall|k: int| 0 <= k < a.text.len() implies a.text[k] == c.text[k] by {
            assert(a.text[k] == b.text[k]);
        }
    }
}

pub proof fn lemma_grows_refl(a: SessionV)
    ensures
        a.grows_from(a),
{
    assert(a.exprs =~= a.exprs.subrange(0, a.exprs.len() as int));
    assert(a.table =~= a.table.subrange(0, a.table.len() as int));
    assert(a.names =~= a.names.subrange(0, a.names.len() as int));
    assert(a.params =~= a.params.subrange(0, a.params.len() as int));
    assert(a.text =~= a.text.subrange(0, a.text.len() as int));
}

/// Moving past an event that does not end the stream leaves the rest.
pub proof fn lemma_stream_step(st: Seq<ReadResult>, j: int)
    requires
        stream_ok(st),
        0 <= j < st.len(),
        !is_terminal(st[j]),
    ensures
        j + 1 < st.len(),
        st.subrange(j, st.len() as int).drop_first() == st.subrange(j + 1, st.len() as int),
        st.subrange(j, st.len() as int).len() > 1,
{
    if j == st.len() - 1 {
        assert(st.last() == st[j]);
    }
    assert(st.subrange(j, st.len() as int).drop_first() =~= st.subrange(j + 1, st.len() as int));
}

/// Adding text to a well-formed session keeps it well formed.
pub proof fn lemma_wf_text(v0: SessionV, t: Seq<char>)
    requires
        v0.wf(),
    ensures
        (SessionV { text: v0.text + t, ..v0 }).wf(),
        (SessionV { text: v0.text + t, ..v0 }).grows_from(v0),
{
    let v = SessionV { text: v0.text + t, ..v0 };
    lemma_grows_refl(v0);
    assert(v0.text =~= v.text.subrange(0, v0.text.len() as int));
    assert forall|i: int| 0 <= i < v.exprs.len() implies v.expr_ok(#[trigger] v.exprs[i].value, i) by {
        assert(v0.expr_ok(v0.exprs[i].value, i));
        match v0.exprs[i].value {
            Expression::Float(r) => {
                crate::runtime::tree::lemma_range_text_prefix(v0.text, v.text, r);
            },
            Expression::String(r) => {
                crate::runtime::tree::lemma_range_text_prefix(v0.text, v.text, r);
            },
            _ => {},
        }
    }
}

/// What a reader error becomes.
pub open spec fn read_error(e: SReadError) -> SParseError {
    Spanned { value: ParseError::Read(Box::new(e.value)), span: e.span }
}

/// Hands out event `j` of the stream, an error turned into a parse error.
fn next_event<R: Reader>(events: &mut R, Ghost(st): Ghost<Seq<ReadResult>>, Ghost(j): Ghost<int>) -> (r:
    Result<SEvent, SParseError>)
    requires
        stream_ok(st),
        reading(old(events), st, j),
    ensures
        final(events).ready(),
        match st[j] {
            Err(e) => r == Err::<SEvent, SParseError>(read_error(e)),
            Ok(ev) => r is Ok && sevent_view(r->Ok_0) == ev && (!is_terminal(st[j]) ==> reading(
                final(events),
                st,
                j + 1,
            )),
        },
{
    proof {
        if !is_terminal(st[j]) {
            lemma_stream_step(st, j);
        }
    }
    let r = events.next();
    match r {
        Ok(e) => Ok(e),
        Err(e) => Err(SParseError::from(e)),
    }
}

/// Event `j` of the stream, left in place, an error turned into a parse
/// error.
fn peek_event<'a, R: Reader>(events: &'a R, Ghost(st): Ghost<Seq<ReadResult>>, Ghost(j): Ghost<int>) -> (r:
    Result<&'a SEvent, SParseError>)
    requires
        stream_ok(st),
        reading(events, st, j),
    ensures
        match st[j] {
            Err(e) => r == Err::<&SEvent, SParseError>(read_error(e)),
            Ok(ev) => r is Ok && sevent_view(*r->Ok_0) == ev,
        },
{
    assert(events.stream()[0] == st[j]);
    match events.peek() {
        Ok(e) => Ok(e),
        Err(e) => Err(SParseError::from(e)),
    }
}

/// Consumes event `k`, which must end a list.
fn consume_list_end<R: Reader>(events: &mut R, Ghost(st): Ghost<Seq<ReadResult>>, Ghost(k): Ghost<int>) -> (r:
    Result<(), SParseError>)
    requires
        stream_ok(st),
        reading(old(events), st, k),
    ensures
        final(events).ready(),
        match st[k] {
            Err(e) => r == Err::<(), SParseError>(read_error(e)),
            Ok(ev) => if ev.value is ListEnd {
                r is Ok && reading(final(events), st, k + 1)
            } else {
                r == Err::<(), SParseError>(Spanned { value: ParseError::ExpectedListEnd, span: ev.span })
            },
        },
{
    let event = match next_event(events, Ghost(st), Ghost(k)) {
        Ok(e) => e,
        Err(e) => return Err(e),
    };
    match event.value {
        Event::ListEnd => Ok(()),
        _ => Err(ParseError::ExpectedListEnd.scopy(event.span)),
    }
}

/// A macro: its name, its parameters and its body, all held in a session.
#[derive(Debug, Clone, Copy, PartialEq)]
pub struct MacroDef {
    pub name: SymbolId,
    pub req_params: ParamRange,
    pub rest_param: Option<SymbolId>,
    pub body: ExpressionId,
}

/// A macro call that the parser needs expanded: the macro, the ids of the
/// call's quoted arguments, and where the call stands.
#[derive(Debug, Clone, PartialEq)]
pub struct ExpansionRequest {
    pub def: MacroDef,
    pub args: Vec<ExpressionId>,
    pub span: Span,
}

/// The expansions of macro calls, as events, in the order in which parsing
/// meets the calls. Once they run out, the next call is recorded as a request
/// and parsing stops with `ExpansionNeeded`, so that the caller can expand it
/// and parse again with one more expansion.
pub struct Expansions {
    known: Vec<Vec<SEvent>>,
    used: usize,
    request: Option<ExpansionRequest>,
}

/// A copy of the event `e`.
fn copy_event(e: &SEvent) -> (r: SEvent)
    ensures
        r == *e,
{
    let value = match &e.value {
        Event::ListStart => Event::ListStart,
        Event::ListEnd => Event::ListEnd,
        Event::Quote => Event::Quote,
        Event::Symbol(n) => Event::Symbol(n.clone()),
        Event::Integer(v) => Event::Integer(*v),
        Event::Float(t) => Event::Float(t.clone()),
        Event::String(t) => Event::String(t.clone()),
        Event::SourceEnd => Event::SourceEnd,
    };
    Spanned { value, span: e.span }
}

impl Expansions {
    /// The events of each expansion, in order.
    pub closed spec fn events(&self) -> Seq<Seq<SEvent>> {
        self.known@.map_values(|v: Vec<SEvent>| v@)
    }

    /// How many expansions were handed out.
    pub closed spec fn used(&self) -> int {
        self.used as int
    }

    /// The call that found no expansion, if there was one.
    pub closed spec fn pending(&self) -> Option<ExpansionRequest> {
        self.request
    }

    pub fn new(known: Vec<Vec<SEvent>>) -> (r: Self)
        ensures
            r.events() == known@.map_values(|v: Vec<SEvent>| v@),
            r.used() == 0,
            r.pending() is None,
    {
        Expansions { known, used: 0, request: None }
    }

    /// The call that found no expansion, if there was one.
    pub fn request(&self) -> (r: &Option<ExpansionRequest>)
        ensures
            *r == self.pending(),
    {
        &self.request
    }

    /// The next expansion, for a call of `def` with the arguments `args` at
    /// `span`; when there is none, the call is recorded as the request.
    fn expand(&mut self, def: &MacroDef, args: &[ExpressionId], span: Span) -> (r: Result<Vec<SEvent>, SParseError>)
        ensures
            final(self).events() == old(self).events(),
            old(self).used() < old(self).events().len() ==> {
                &&& r is Ok
                &&& r->Ok_0@ == old(self).events()[old(self).used()]
                &&& final(self).used() == old(self).used() + 1
                &&& final(self).pending() == old(self).pending()
            },
            old(self).used() >= old(self).events().len() ==> {
                &&& r == Err::<Vec<SEvent>, SParseError>(
                    Spanned { value: ParseError::ExpansionNeeded, span },
                )
                &&& final(self).used() == old(self).used()
                &&& final(self).pending() matches Some(q) && q.def == *def && q.args@ == args@ && q.span == span
            },
    {
        if self.used < self.known.len() {
            let src = &self.known[self.used];
            let mut out: Vec<SEvent> = Vec::new();
            let mut k: usize = 0;
            while k < src.len()
                invariant
                    0 <= k <= src@.len(),
                    out@ == src@.take(k as int),
                decreases src@.len() - k,
            {
                out.push(copy_event(&src[k]));
                k = k + 1;
                assert(out@ =~= src@.take(k as int));
            }
            assert(out@ =~= src@);
            self.used = self.used + 1;
            Ok(out)
        } else {
            let mut copied: Vec<ExpressionId> = Vec::new();
            let mut k: usize = 0;
            while k < args.len()
                invariant
                    0 <= k <= args@.len(),
                    copied@ == args@.take(k as int),
                decreases args@.len() - k,
            {
                copied.push(args[k]);
                k = k + 1;
                assert(copied@ =~= args@.take(k as int));
            }
            assert(copied@ =~= args@);
            self.request = Some(ExpansionRequest { def: *def, args: copied, span });
            Err(ParseError::ExpansionNeeded.scopy(span))
        }
    }
}

/// How deep macro expansions may nest.
pub const EXPANSION_LIMIT: usize = 64;

/// Staying in the same session while moving forward in the stream.
pub proof fn lemma_within_refl(
    st: Seq<ReadResult>,
    v: SessionV,
    s: int,
    i: int,
    j: int,
    xs: Seq<Seq<SEvent>>,
    c: int,
)
    requires
        0 <= i <= j,
    ensures
        within(st, v, s, i, v, s, j, 0, xs, c, c),
{
    lemma_bytes_from_mono(st, i, j);
}

/// Two steps of parsing use what the two steps used together.
pub proof fn lemma_within_trans(
    st: Seq<ReadResult>,
    v0: SessionV,
    s0: int,
    i: int,
    v1: SessionV,
    s1: int,
    j: int,
    e1: int,
    v2: SessionV,
    s2: int,
    k: int,
    e2: int,
    xs: Seq<Seq<SEvent>>,
    c0: int,
    c1: int,
    c2: int,
)
    requires
        within(st, v0, s0, i, v1, s1, j, e1, xs, c0, c1),
        within(st, v1, s1, j, v2, s2, k, e2, xs, c1, c2),
    ensures
        within(st, v0, s0, i, v2, s2, k, e1 + e2, xs, c0, c2),
{
}

/// Claims go on holding after a step that used what it was allowed.
pub proof fn lemma_claims_move(
    p0: &Parser,
    s0: &Session,
    x0: &Expansions,
    p1: &Parser,
    s1: &Session,
    x1: &Expansions,
    st: Seq<ReadResult>,
    i: int,
    j: int,
    extra: int,
)
    requires
        claims(p0, s0, x0, st, i),
        p1.macros_named(),
        x1.events() == x0.events(),
        extra >= 0,
        within(
            st,
            session_v(s0),
            p0.scratch_ids().len() as int,
            i,
            session_v(s1),
            p1.scratch_ids().len() as int,
            j,
            extra,
            x0.events(),
            x0.used(),
            x1.used(),
        ),
    ensures
        claims(p1, s1, x1, st, j),
{
}

/// A pushed id whose tree is `c` extends the items.
pub proof fn lemma_items_push(v: SessionV, ids: Seq<ExpressionId>, vs: Seq<SExprV>, id: ExpressionId, c: SExprV)
    requires
        items_in(v, ids, vs),
        0 <= id.index() < v.exprs.len(),
        v.expr(id.index()) == c,
    ensures
        items_in(v, ids.push(id), vs.push(c)),
{
    assert forall|k: int| 0 <= k < ids.push(id).len() implies 0 <= #[trigger] ids.push(id)[k].index()
        < v.exprs.len() && v.expr(ids.push(id)[k].index()) == vs.push(c)[k] by {
        if k < ids.len() {
            assert(ids.push(id)[k] == ids[k]);
            assert(vs.push(c)[k] == vs[k]);
        }
    }
}

/// Claims about parsing from event `i` hold when the parser knows the
/// names of its macros and the events fit in the session.
pub open spec fn claims(p: &Parser, sesh: &Session, x: &Expansions, st: Seq<ReadResult>, i: int) -> bool {
    &&& p.macros_named()
    &&& budget_ok(session_v(sesh), p.scratch_ids().len() as int, st, i, x.events(), x.used())
}

/// `claims`, with room for `slack` more expressions.
pub open spec fn claims_slack(
    p: &Parser,
    sesh: &Session,
    x: &Expansions,
    st: Seq<ReadResult>,
    i: int,
    slack: int,
) -> bool {
    &&& claims(p, sesh, x, st, i)
    &&& sesh.expressions().len() + 2 * (st.len() - i) + 2 + slack + xs_cost(x.events(), x.used()) <= ID_LIMIT
}

/// Later events add no more text than earlier ones.
pub proof fn lemma_bytes_from_mono(st: Seq<ReadResult>, i: int, j: int)
    requires
        0 <= i <= j,
    ensures
        bytes_from(st, j) <= bytes_from(st, i),
    decreases j - i,
{
    if i < j {
        lemma_bytes_from_mono(st, i + 1, j);
    }
}

/// How the outcome of parsing one expression matches `spec`.
pub open spec fn expr_outcome<R: Reader>(
    spec: (PResult<SExprV>, int, int),
    r: Result<SExpression, SParseError>,
    p0: &Parser,
    p1: &Parser,
    s0: &Session,
    s1: &Session,
    x0: &Expansions,
    x1: &Expansions,
    events: &R,
    st: Seq<ReadResult>,
    i: int,
    extra: int,
    added: Seq<Seq<char>>,
) -> bool {
    match spec.0 {
        Ok(v) => {
            &&& r is Ok
            &&& pushed_view(session_v(s1), r->Ok_0) == v
            &&& reading(events, st, spec.1)
            &&& within(
                st,
                session_v(s0),
                p0.scratch_ids().len() as int,
                i,
                session_v(s1),
                p1.scratch_ids().len() as int,
                spec.1,
                extra,
                x0.events(),
                x0.used(),
                x1.used(),
            )
            &&& x1.used() == spec.2
            &&& p1.macros_named()
            &&& p1.macro_names() == p0.macro_names() + added
        },
        Err(PFail::Error(e)) => r == Err::<SExpression, SParseError>(e),
        Err(PFail::Opaque) => true,
    }
}

/// Where in the stream `st` the reader `events` stands.
pub open spec fn at<R: Reader>(events: &R, st: Seq<ReadResult>) -> int {
    st.len() - events.stream().len()
}

/// The range `r` of the child table lists expressions with the trees `vs`.
pub open spec fn range_holds(v: SessionV, r: ExpressionRange, vs: Seq<SExprV>) -> bool {
    &&& 0 <= r.start()
    &&& 0 <= r.len()
    &&& r.start() + r.len() <= v.table.len()
    &&& items_in(v, v.table.subrange(r.start(), r.start() + r.len()), vs)
}

/// How the outcome of parsing the items of a list into a range of the
/// child table matches `spec`.
pub open spec fn range_outcome<R: Reader>(
    spec: (PResult<Seq<SExprV>>, int, int),
    r: Result<ExpressionRange, SParseError>,
    p0: &Parser,
    p1: &Parser,
    s0: &Session,
    s1: &Session,
    x0: &Expansions,
    x1: &Expansions,
    events: &R,
    st: Seq<ReadResult>,
    i: int,
) -> bool {
    match spec.0 {
        Ok(vs) => {
            &&& r is Ok
            &&& range_holds(session_v(s1), r->Ok_0, vs)
            &&& reading(events, st, spec.1)
            &&& within(
                st,
                session_v(s0),
                p0.scratch_ids().len() as int,
                i,
                session_v(s1),
                p1.scratch_ids().len() as int,
                spec.1,
                0,
                x0.events(),
                x0.used(),
                x1.used(),
            )
            &&& x1.used() == spec.2
            &&& p1.macros_named()
            &&& p1.macro_names() == p0.macro_names()
        },
        Err(PFail::Error(e)) => r == Err::<ExpressionRange, SParseError>(e),
        Err(PFail::Opaque) => true,
    }
}

/// The children `ids`, listed in the child table from `start`, of an
/// expression pushed into `v` have the trees `vs`.
pub proof fn lemma_pushed_children(
    v: SessionV,
    e: SExpression,
    start: int,
    ids: Seq<ExpressionId>,
    vs: Seq<SExprV>,
)
    requires
        v.wf(),
        0 <= start,
        start + ids.len() <= v.table.len(),
        v.table.subrange(start, start + ids.len()) == ids,
        items_in(v, ids, vs),
    ensures
        (SessionV { exprs: v.exprs.push(e), ..v }).children(v.exprs.len() as int, start, ids.len() as int)
            == vs,
{
    let w = SessionV { exprs: v.exprs.push(e), ..v };
    lemma_grows_refl(v);
    assert(v.exprs =~= w.exprs.subrange(0, v.exprs.len() as int));
    assert forall|k: int| start <= k < start + ids.len() implies 0 <= #[trigger] w.table[k].index()
        < v.exprs.len() by {
        assert(w.table[k] == ids[k - start]);
    }
    crate::runtime::tree::lemma_children(w, v.exprs.len() as int, start, ids.len() as int);
    assert forall|k: int| 0 <= k < ids.len() implies w.expr(w.table[start + k].index()) == vs[k] by {
        assert(w.table[start + k] == ids[k]);
        lemma_expr_frame(v, w, ids[k].index());
    }
    assert(w.children(v.exprs.len() as int, start, ids.len() as int) =~= vs);
}

/// A sub-expression of an expression pushed into `v` has its tree in `v`.
pub proof fn lemma_pushed_sub(v: SessionV, e: SExpression, id: ExpressionId)
    requires
        v.wf(),
        0 <= id.index() < v.exprs.len(),
    ensures
        (SessionV { exprs: v.exprs.push(e), ..v }).sub(v.exprs.len() as int, id) == v.expr(id.index()),
{
    let w = SessionV { exprs: v.exprs.push(e), ..v };
    lemma_grows_refl(v);
    assert(v.exprs =~= w.exprs.subrange(0, v.exprs.len() as int));
    lemma_expr_frame(v, w, id.index());
}

/// The names of the parameters of the session from index `from` on.
pub open spec fn params_names(sesh: &Session, from: int) -> Seq<Seq<char>> {
    Seq::new(
        (sesh.params().len() - from) as nat,
        |m: int| sesh.names()[sesh.params()[from + m].index()],
    )
}

/// Growing the names keeps what the symbols `seen` are named.
pub proof fn lemma_names_kept(a: &Session, b: &Session, seen: Seq<SymbolId>, names: Seq<Seq<char>>)
    requires
        session_v(b).grows_from(session_v(a)),
        names.len() == seen.len(),
        forall|m: int| 0 <= m < seen.len() ==> 0 <= #[trigger] seen[m].index() < a.names().len()
            && a.names()[seen[m].index()] == names[m],
    ensures
        forall|m: int| 0 <= m < seen.len() ==> 0 <= #[trigger] seen[m].index() < b.names().len()
            && b.names()[seen[m].index()] == names[m],
{
    assert forall|m: int| 0 <= m < seen.len() implies 0 <= #[trigger] seen[m].index() < b.names().len()
        && b.names()[seen[m].index()] == names[m] by {
        assert(b.names()[seen[m].index()] == a.names()[seen[m].index()]);
    }
}

/// Growing a well-formed session keeps the names of a parameter range.
pub proof fn lemma_param_names_kept(v: SessionV, w: SessionV, r: ParamRange)
    requires
        v.wf(),
        w.grows_from(v),
        v.params_ok(r),
    ensures
        w.param_names(r) == v.param_names(r),
{
    assert forall|m: int| 0 <= m < r.end() - r.start() implies w.param_names(r)[m] == v.param_names(r)[m] by {
        let p = v.params[r.start() + m];
        assert(w.params[r.start() + m] == p);
        assert(v.symbol_ok(p));
        assert(w.names[p.index()] == v.names[p.index()]);
    }
    assert(w.param_names(r) =~= v.param_names(r));
}

/// What heads a list, as far as choosing its form goes.
pub enum ListHead {
    Quote,
    Do,
    If,
    Fn,
    Def,
    Assign,
    DefMacro,
    End,
    Other,
}

pub open spec fn head_of(ev: EventV) -> ListHead {
    match ev {
        EventV::Symbol(h) => if h == "quote"@ {
            ListHead::Quote
        } else if h == "do"@ {
            ListHead::Do
        } else if h == "if"@ {
            ListHead::If
        } else if h == "fn"@ {
            ListHead::Fn
        } else if h == "def"@ {
            ListHead::Def
        } else if h == "set"@ {
            ListHead::Assign
        } else if h == "def-macro"@ {
            ListHead::DefMacro
        } else {
            ListHead::Other
        },
        EventV::ListEnd => ListHead::End,
        _ => ListHead::Other,
    }
}

/// What heads a list that starts with the event `e`.
fn list_head(e: &SEvent) -> (r: ListHead)
    ensures
        r == head_of(e.value@),
{
    match &e.value {
        Event::Symbol(h) => {
            let h = h.as_str();
            if str_eq(h, "quote") {
                ListHead::Quote
            } else if str_eq(h, "do") {
                ListHead::Do
            } else if str_eq(h, "if") {
                ListHead::If
            } else if str_eq(h, "fn") {
                ListHead::Fn
            } else if str_eq(h, "def") {
                ListHead::Def
            } else if str_eq(h, "set") {
                ListHead::Assign
            } else if str_eq(h, "def-macro") {
                ListHead::DefMacro
            } else {
                ListHead::Other
            }
        },
        Event::ListEnd => ListHead::End,
        _ => ListHead::Other,
    }
}

/// Parses events into expressions of a session, expanding macros.
pub struct Parser {
    macros: Vec<MacroDef>,
    macro_texts: Vec<String>,
    scratch: Vec<ExpressionId>,
    fresh_names: Vec<(String, SymbolId)>,
    depth: usize,
}

impl Parser {
    /// The ids gathered for lists being built.
    pub closed spec fn scratch_ids(&self) -> Seq<ExpressionId> {
        self.scratch@
    }

    /// Whether the parser knows any macro.
    pub closed spec fn knows_macros(&self) -> bool {
        self.macros@.len() > 0
    }

    /// The macros that the parser knows.
    pub closed spec fn known_macros(&self) -> Seq<MacroDef> {
        self.macros@
    }

    /// The names of the macros that the parser defined, in order.
    pub closed spec fn macro_names(&self) -> Seq<Seq<char>> {
        self.macro_texts@.map_values(|t: String| t@)
    }

    /// Whether the parser holds the name of each macro it knows.
    pub closed spec fn macros_named(&self) -> bool {
        self.macro_texts@.len() == self.macros@.len()
    }

    /// Whether the parser knows the same macros as `other`.
    pub closed spec fn same_macros(&self, other: &Parser) -> bool {
        &&& self.macros@ == other.macros@
        &&& self.macro_texts@ == other.macro_texts@
    }

    /// How many more levels of macro expansion may nest.
    pub closed spec fn depth_left(&self) -> int {
        self.depth as int
    }

    /// A parser that has parsed nothing yet.
    pub closed spec fn fresh(&self) -> bool {
        &&& self.scratch@.len() == 0
        &&& self.macro_texts@.len() == 0
        &&& self.fresh_names@.len() == 0
    }

    /// The parser and the session it fills agree: the session is well
    /// formed, and every id the parser keeps is one of it.
    pub closed spec fn inv(&self, sesh: &Session) -> bool {
        &&& sesh.wf()
        &&& session_v(sesh).wf()
        &&& forall|k: int|
            0 <= k < self.scratch@.len() ==> 0 <= #[trigger] self.scratch@[k].index()
                < sesh.expressions().len()
        &&& forall|k: int|
            0 <= k < self.fresh_names@.len() ==> 0 <= (#[trigger] self.fresh_names@[k]).1.index()
                < sesh.names().len() && sesh.names()[self.fresh_names@[k].1.index()]
                == self.fresh_names@[k].0@
        &&& self.macros_named() ==> forall|k: int|
            0 <= k < self.macros@.len() ==> 0 <= (#[trigger] self.macros@[k]).name.index()
                < sesh.names().len() && sesh.names()[self.macros@[k].name.index()]
                == self.macro_texts@[k]@
    }

    /// A parser of top-level text, or, with `parent`, of the expansion of a
    /// macro that `parent` found, knowing the same macros.
    pub fn new(parent: Option<&[MacroDef]>) -> (r: Self)
        ensures
            r.fresh(),
            parent is None ==> !r.knows_macros(),
            parent is None ==> r.macros_named() && r.macro_names() == Seq::<Seq<char>>::empty(),
            r.known_macros() == match parent {
                Some(defs) => defs@,
                None => Seq::<MacroDef>::empty(),
            },
            r.depth_left() == EXPANSION_LIMIT,
    {
        let mut macros = Vec::new();
        match parent {
            Some(defs) => {
                let mut k: usize = 0;
                while k < defs.len()
                    invariant
                        0 <= k <= defs@.len(),
                        macros@ == defs@.take(k as int),
                    decreases defs@.len() - k,
                {
                    macros.push(defs[k]);
                    k = k + 1;
                    assert(macros@ =~= defs@.take(k as int));
                }
                assert(defs@.take(defs@.len() as int) =~= defs@);
            },
            None => {},
        }
        let r = Parser {
            macros,
            macro_texts: Vec::new(),
            scratch: Vec::new(),
            fresh_names: Vec::new(),
            depth: EXPANSION_LIMIT,
        };
        proof {
            assert(r.macro_names() =~= Seq::<Seq<char>>::empty());
        }
        r
    }

    /// Growing the session keeps the parser's ids valid.
    proof fn lemma_inv_grows(&self, sesh: &Session, sesh2: &Session)
        requires
            self.inv(sesh),
            sesh2.wf(),
            session_v(sesh2).wf(),
            session_v(sesh2).grows_from(session_v(sesh)),
        ensures
            self.inv(sesh2),
    {
        assert forall|k: int| 0 <= k < self.fresh_names@.len() implies 0
            <= (#[trigger] self.fresh_names@[k]).1.index() < sesh2.names().len()
            && sesh2.names()[self.fresh_names@[k].1.index()] == self.fresh_names@[k].0@ by {
            let id = self.fresh_names@[k].1.index();
            assert(sesh2.names()[id] == sesh.names()[id]);
        }
        if self.macros_named() {
            assert forall|k: int| 0 <= k < self.macros@.len() implies 0
                <= (#[trigger] self.macros@[k]).name.index() < sesh2.names().len()
                && sesh2.names()[self.macros@[k].name.index()] == self.macro_texts@[k]@ by {
                let id = self.macros@[k].name.index();
                assert(sesh2.names()[id] == sesh.names()[id]);
            }
        }
    }

    /// The id of the symbol `name`: a name marked fresh stands for one new
    /// symbol per parser, any other name for its interned symbol.
    fn make_symbol(&mut self, sesh: &mut Session, name: &str) -> (r: SymbolId)
        requires
            old(self).inv(old(sesh)),
        ensures
            final(self).inv(final(sesh)),
            final(self).scratch_ids() == old(self).scratch_ids(),
            final(self).same_macros(old(self)),
            final(self).depth_left() == old(self).depth_left(),
            session_v(final(sesh)).grows_from(session_v(old(sesh))),
            final(sesh).expressions() == old(sesh).expressions(),
            final(sesh).expression_table() == old(sesh).expression_table(),
            final(sesh).params() == old(sesh).params(),
            final(sesh).text() == old(sesh).text(),
            0 <= r.index() < final(sesh).names().len(),
            final(sesh).names()[r.index()] == name@,
    {
        if name.unicode_len() > 0 && SymbolMarkers::matches_fresh(name) {
            let mut k: usize = 0;
            while k < self.fresh_names.len()
                invariant
                    self.inv(sesh),
                    0 <= k <= self.fresh_names@.len(),
                    *sesh == *old(sesh),
                    *self == *old(self),
                decreases self.fresh_names@.len() - k,
            {
                if str_eq(self.fresh_names[k].0.as_str(), name) {
                    let id = self.fresh_names[k].1;
                    proof {
                        lemma_grows_refl(session_v(sesh));
                    }
                    return id;
                }
                k = k + 1;
            }
            let v0 = Ghost(session_v(sesh));
            let id = sesh.fresh_symbol(name);
            proof {
                assert(session_v(sesh).names =~= v0@.names.push(name@));
                assert(v0@.names =~= session_v(sesh).names.subrange(0, v0@.names.len() as int));
                lemma_grows_refl(v0@);
                self.lemma_inv_names(old(sesh), sesh);
            }
            self.fresh_names.push((name.to_owned(), id));
            proof {
                assert forall|k: int| 0 <= k < self.fresh_names@.len() implies 0
                    <= (#[trigger] self.fresh_names@[k]).1.index() < sesh.names().len()
                    && sesh.names()[self.fresh_names@[k].1.index()] == self.fresh_names@[k].0@ by {
                    if k < self.fresh_names@.len() - 1 {
                        assert(self.fresh_names@[k] == old(self).fresh_names@[k]);
                    }
                }
            }
            id
        } else {
            let ghost v0 = session_v(sesh);
            let id = sesh.push_symbol(name);
            proof {
                assert(v0.names.is_prefix_of(session_v(sesh).names)) by {
                    if session_v(sesh).names != v0.names {
                        assert(v0.names =~= session_v(sesh).names.subrange(0, v0.names.len() as int));
                    } else {
                        assert(v0.names =~= session_v(sesh).names.subrange(0, v0.names.len() as int));
                    }
                }
                lemma_grows_refl(v0);
                self.lemma_inv_names(old(sesh), sesh);
            }
            id
        }
    }

    /// Stores `expression` in the session, unless the session is full.
    fn push_expr(&mut self, sesh: &mut Session, expression: SExpression) -> (r: Result<ExpressionId, SParseError>)
        requires
            old(self).inv(old(sesh)),
            session_v(old(sesh)).expr_ok(expression.value, old(sesh).expressions().len() as int),
        ensures
            r is Err ==> r->Err_0.value is TooLarge,
            final(self).inv(final(sesh)),
            *final(self) == *old(self),
            session_v(final(sesh)).grows_from(session_v(old(sesh))),
            old(sesh).expressions().len() < ID_LIMIT ==> r is Ok,
            r is Ok ==> session_v(final(sesh)) == (SessionV {
                exprs: session_v(old(sesh)).exprs.push(expression),
                ..session_v(old(sesh))
            }),
            r is Ok ==> r->Ok_0.index() == old(sesh).expressions().len(),
    {
        if sesh.n_expressions() >= ID_LIMIT {
            proof {
                lemma_grows_refl(session_v(sesh));
            }
            return Err(ParseError::TooLarge.scopy(expression.span));
        }
        let ghost v0 = session_v(sesh);
        let id = sesh.push_expression(expression);
        proof {
            let v = session_v(sesh);
            assert(v.exprs == v0.exprs.push(expression));
            assert(v0.exprs =~= v.exprs.subrange(0, v0.exprs.len() as int));
            assert(v0.table =~= v.table.subrange(0, v0.table.len() as int));
            assert(v0.names =~= v.names.subrange(0, v0.names.len() as int));
            assert(v0.params =~= v.params.subrange(0, v0.params.len() as int));
            assert(v0.text =~= v.text.subrange(0, v0.text.len() as int));
            assert forall|i: int| 0 <= i < v.exprs.len() implies v.expr_ok(#[trigger] v.exprs[i].value, i) by {
                if i < v0.exprs.len() {
                    assert(v0.expr_ok(v0.exprs[i].value, i));
                    assert(v.exprs[i] == v0.exprs[i]);
                }
            }
            self.lemma_inv_grows(old(sesh), sesh);
        }
        Ok(id)
    }

    /// Moves the ids of the scratch from `start` on to the session's child
    /// table, unless the table is full.
    fn push_scratch(&mut self, sesh: &mut Session, start: usize, span: Span) -> (r: Result<ExpressionRange, SParseError>)
        requires
            old(self).inv(old(sesh)),
            start <= old(self).scratch_ids().len(),
        ensures
            r is Err ==> r->Err_0.value is TooLarge,
            final(self).inv(final(sesh)),
            final(self).scratch_ids() == old(self).scratch_ids().take(start as int),
            final(self).same_macros(old(self)),
            final(self).depth_left() == old(self).depth_left(),
            session_v(final(sesh)).grows_from(session_v(old(sesh))),
            old(sesh).expression_table().len() + old(self).scratch_ids().len() - start <= ID_LIMIT ==> r is Ok,
            r is Ok ==> session_v(final(sesh)) == (SessionV {
                table: session_v(old(sesh)).table + old(self).scratch_ids().skip(start as int),
                ..session_v(old(sesh))
            }),
            r is Ok ==> r->Ok_0.start() == old(sesh).expression_table().len(),
            r is Ok ==> r->Ok_0.len() == old(self).scratch_ids().len() - start,
    {
        let n = self.scratch.len() - start;
        if n > ID_LIMIT || sesh.n_children() > ID_LIMIT - n {
            self.scratch.truncate(start);
            proof {
                lemma_grows_refl(session_v(sesh));
            }
            return Err(ParseError::TooLarge.scopy(span));
        }
        let ghost v0 = session_v(sesh);
        let ghost ids = self.scratch@.skip(start as int);
        let range = sesh.push_expressions(
            crate::parsing::syntax::slice_subrange(self.scratch.as_slice(), start, self.scratch.len()),
        );
        self.scratch.truncate(start);
        proof {
            let v = session_v(sesh);
            assert(old(self).scratch@.subrange(start as int, old(self).scratch@.len() as int) =~= ids);
            assert(v.table == v0.table + ids);
            assert(v0.exprs =~= v.exprs.subrange(0, v0.exprs.len() as int));
            assert(v0.table =~= v.table.subrange(0, v0.table.len() as int));
            assert(v0.names =~= v.names.subrange(0, v0.names.len() as int));
            assert(v0.params =~= v.params.subrange(0, v0.params.len() as int));
            assert(v0.text =~= v.text.subrange(0, v0.text.len() as int));
            assert forall|i: int| 0 <= i < v.exprs.len() implies v.expr_ok(#[trigger] v.exprs[i].value, i) by {
                assert(v0.expr_ok(v0.exprs[i].value, i));
                match v0.exprs[i].value {
                    Expression::List(r) => {
                        assert forall|k: int| r.start() <= k < r.start() + r.len() implies 0
                            <= #[trigger] v.table[k].index() < i by {
                            assert(v.table[k] == v0.table[k]);
                        }
                    },
                    Expression::Do(r) => {
                        assert forall|k: int| r.start() <= k < r.start() + r.len() implies 0
                            <= #[trigger] v.table[k].index() < i by {
                            assert(v.table[k] == v0.table[k]);
                        }
                    },
                    Expression::Call { call, args } => {
                        assert forall|k: int| args.start() <= k < args.start() + args.len() implies 0
                            <= #[trigger] v.table[k].index() < i by {
                            assert(v.table[k] == v0.table[k]);
                        }
                    },
                    _ => {},
                }
            }
            assert(self.scratch@ =~= old(self).scratch@.take(start as int));
            self.lemma_inv_grows(old(sesh), sesh);
        }
        Ok(range)
    }

    /// Stores the text `t` in the session, unless it does not fit.
    fn push_text(&mut self, sesh: &mut Session, t: &str, span: Span) -> (r: Result<StringRange, SParseError>)
        requires
            old(self).inv(old(sesh)),
        ensures
            r is Err ==> r->Err_0.value is TooLarge,
            final(self).inv(final(sesh)),
            *final(self) == *old(self),
            session_v(final(sesh)).grows_from(session_v(old(sesh))),
            byte_len(old(sesh).text()) + byte_len(t@) < usize::MAX ==> r is Ok,
            r is Ok ==> session_v(final(sesh)) == (SessionV {
                text: session_v(old(sesh)).text + t@,
                ..session_v(old(sesh))
            }),
            r is Ok ==> range_ok(final(sesh).text(), r->Ok_0) && range_text(final(sesh).text(), r->Ok_0)
                == t@,
    {
        if !fits_after(sesh.text_byte_len(), t) {
            proof {
                lemma_grows_refl(session_v(sesh));
            }
            return Err(ParseError::TooLarge.scopy(span));
        }
        let ghost v0 = session_v(sesh);
        let range = sesh.push_string(t);
        proof {
            let v = session_v(sesh);
            lemma_range_text(v.text, v0.text.len() as int, v.text.len() as int, range);
            assert(v.text.subrange(v0.text.len() as int, v.text.len() as int) =~= t@);
            assert(v == SessionV { text: v0.text + t@, ..v0 });
            lemma_wf_text(v0, t@);
            self.lemma_inv_grows(old(sesh), sesh);
        }
        Ok(range)
    }

    /// The expression that the symbol `name` stands for outside a quote.
    fn symbol_expression(&mut self, sesh: &mut Session, name: &str, span: Span) -> (r: Result<
        SExpression,
        SParseError,
    >)
        requires
            old(self).inv(old(sesh)),
            name@.len() > 0,
        ensures
            final(self).inv(final(sesh)),
            final(self).scratch_ids() == old(self).scratch_ids(),
            final(self).same_macros(old(self)),
            final(self).depth_left() == old(self).depth_left(),
            session_v(final(sesh)).grows_from(session_v(old(sesh))),
            final(sesh).expressions() == old(sesh).expressions(),
            final(sesh).expression_table() == old(sesh).expression_table(),
            final(sesh).text() == old(sesh).text(),
            r is Ok ==> session_v(final(sesh)).expr_ok(r->Ok_0.value, final(sesh).expressions().len() as int),
            match symbol_expr(name@, span) {
                Ok(v) => r is Ok && pushed_view(session_v(final(sesh)), r->Ok_0) == v,
                Err(PFail::Error(e)) => r == Err::<SExpression, SParseError>(e),
                Err(PFail::Opaque) => false,
            },
    {
        proof {
            lemma_grows_refl(session_v(sesh));
        }
        if str_eq(name, "null") {
            Ok(Expression::Null.scopy(span))
        } else if str_eq(name, "true") {
            Ok(Expression::Boolean(true).scopy(span))
        } else if str_eq(name, "false") {
            Ok(Expression::Boolean(false).scopy(span))
        } else if ReservedSymbols::matches(name) {
            Err(ParseError::UnexpectedReservedSymbol.scopy(span))
        } else if SymbolMarkers::matches_rest(name) {
            Err(ParseError::UnexpectedRestMarker.scopy(span))
        } else {
            let id = self.make_symbol(sesh, name);
            Ok(Expression::Symbol(id).scopy(span))
        }
    }

    /// Parses one expression from event `i`: `(`, a quote, a symbol or a
    /// literal.
    fn parse_expr<R: Reader>(
        &mut self,
        sesh: &mut Session,
        events: &mut R,
        expansions: &mut Expansions,
        is_top: bool,
        Ghost(st): Ghost<Seq<ReadResult>>,
        Ghost(i): Ghost<int>,
    ) -> (r: Result<SExpression, SParseError>)
        requires
            old(self).inv(old(sesh)),
            stream_ok(st),
            reading(old(events), st, i),
        ensures
            (r matches Err(e) && e.value is ExpansionNeeded) ==> final(expansions).pending() is Some,
            final(expansions).events() == old(expansions).events(),
            final(self).inv(final(sesh)),
            session_v(final(sesh)).grows_from(session_v(old(sesh))),
            final(events).ready(),
            final(self).depth_left() == old(self).depth_left(),
            !is_top ==> final(self).same_macros(old(self)),
            r is Ok ==> final(self).scratch_ids() == old(self).scratch_ids(),
            r is Ok ==> i < at(final(events), st) && reading(final(events), st, at(final(events), st)),
            r is Ok ==> session_v(final(sesh)).expr_ok(r->Ok_0.value, final(sesh).expressions().len() as int),
            claims(old(self), old(sesh), old(expansions), st, i) ==> expr_outcome(
                p_expr(st, i, is_top, old(self).macro_names(), old(expansions).events(), old(expansions).used(), old(self).depth_left()),
                r,
                old(self),
                final(self),
                old(sesh),
                final(sesh),
                old(expansions),
                final(expansions),
                final(events),
                st,
                i,
                1,
                if is_top { expr_def(st, i) } else { Seq::empty() },
            ),
        decreases old(self).depth_left(), st.len() - i, 0int,
    {
        proof {
            lemma_grows_refl(session_v(sesh));
            assert(symbol_named(st[i]));
        }
        let event = match next_event(events, Ghost(st), Ghost(i)) {
            Ok(e) => e,
            Err(e) => return Err(e),
        };
        let span = event.span;
        match event.value {
            Event::ListStart => self.parse_list(sesh, events, expansions, span, is_top, Ghost(st), Ghost(i + 1)),
            Event::ListEnd => Err(ParseError::UnexpectedListEnd.scopy(span)),
            Event::SourceEnd => Err(ParseError::UnexpectedSourceEnd.scopy(span)),
            Event::Quote => self.parse_expr_quoted(sesh, events, expansions, is_top, Ghost(st), Ghost(i + 1)),
            Event::Symbol(name) => self.symbol_expression(sesh, name.as_str(), span),
            Event::Integer(v) => Ok(Expression::Integer(v).scopy(span)),
            Event::Float(t) => {
                let ghost v0 = session_v(sesh);
                proof {
                    crate::text::lemma_byte_len_concat(v0.text, t@);
                }
                match self.push_text(sesh, t.as_str(), span) {
                    Ok(range) => Ok(Expression::Float(range).scopy(span)),
                    Err(e) => Err(e),
                }
            },
            Event::String(t) => {
                let ghost v0 = session_v(sesh);
                proof {
                    crate::text::lemma_byte_len_concat(v0.text, t@);
                }
                match self.push_text(sesh, t.as_str(), span) {
                    Ok(range) => Ok(Expression::String(range).scopy(span)),
                    Err(e) => Err(e),
                }
            },
        }
    }

    /// Parses one quoted expression from event `i`: lists stay lists and
    /// symbols stay symbols.
    fn parse_expr_quoted<R: Reader>(
        &mut self,
        sesh: &mut Session,
        events: &mut R,
        expansions: &mut Expansions,
        is_top: bool,
        Ghost(st): Ghost<Seq<ReadResult>>,
        Ghost(i): Ghost<int>,
    ) -> (r: Result<SExpression, SParseError>)
        requires
            old(self).inv(old(sesh)),
            stream_ok(st),
            reading(old(events), st, i),
        ensures
            (r matches Err(e) && e.value is ExpansionNeeded) ==> final(expansions).pending() is Some,
            final(expansions).events() == old(expansions).events(),
            *final(expansions) == *old(expansions),
            final(self).inv(final(sesh)),
            session_v(final(sesh)).grows_from(session_v(old(sesh))),
            final(events).ready(),
            final(self).depth_left() == old(self).depth_left(),
            final(self).same_macros(old(self)),
            r is Ok ==> final(self).scratch_ids() == old(self).scratch_ids(),
            r is Ok ==> i < at(final(events), st) && reading(final(events), st, at(final(events), st)),
            r is Ok ==> session_v(final(sesh)).expr_ok(r->Ok_0.value, final(sesh).expressions().len() as int),
            claims(old(self), old(sesh), old(expansions), st, i) ==> expr_outcome(
                with_c(p_quoted(st, i), old(expansions).used()),
                r,
                old(self),
                final(self),
                old(sesh),
                final(sesh),
                old(expansions),
                final(expansions),
                final(events),
                st,
                i,
                1,
                Seq::empty(),
            ),
        decreases old(self).depth_left(), st.len() - i, 0int,
    {
        proof {
            lemma_grows_refl(session_v(sesh));
        }
        let event = match next_event(events, Ghost(st), Ghost(i)) {
            Ok(e) => e,
            Err(e) => return Err(e),
        };
        let span = event.span;
        match event.value {
            Event::ListStart => self.parse_list_quoted(sesh, events, expansions, span, is_top, Ghost(st), Ghost(i + 1)),
            Event::ListEnd => Err(ParseError::UnexpectedListEnd.scopy(span)),
            Event::Quote => {
                let ghost s0 = *sesh;
                let quote_name = self.make_symbol(sesh, "quote");
                let ghost sm = *sesh;
                let quote = match self.push_expr(sesh, Expression::SymbolQ(quote_name).scopy(span)) {
                    Ok(id) => id,
                    Err(e) => {
                        proof {
                            lemma_grows_trans(session_v(&s0), session_v(&sm), session_v(sesh));
                        }
                        return Err(e);
                    },
                };
                let ghost s1 = *sesh;
                proof {
                    lemma_grows_trans(session_v(&s0), session_v(&sm), session_v(sesh));
                }
                let value = match self.parse_expr_quoted(sesh, events, expansions, is_top, Ghost(st), Ghost(i + 1)) {
                    Ok(v) => v,
                    Err(e) => {
                        proof {
                            lemma_grows_trans(session_v(&s0), session_v(&s1), session_v(sesh));
                        }
                        return Err(e);
                    },
                };
                let ghost s2 = *sesh;
                let ghost value_e = value;
                proof {
                    lemma_grows_trans(session_v(&s0), session_v(&s1), session_v(sesh));
                }
                let value = match self.push_expr(sesh, value) {
                    Ok(id) => id,
                    Err(e) => {
                        proof {
                            lemma_grows_trans(session_v(&s0), session_v(&s2), session_v(sesh));
                        }
                        return Err(e);
                    },
                };
                let ghost s3 = *sesh;
                proof {
                    lemma_grows_trans(session_v(&s0), session_v(&s2), session_v(sesh));
                }
                let start = self.scratch.len();
                self.scratch.push(quote);
                self.scratch.push(value);
                proof {
                    lemma_expr_frame(session_v(&s1), session_v(sesh), quote.index());
                }
                let list = match self.push_scratch(sesh, start, span) {
                    Ok(l) => l,
                    Err(e) => {
                        proof {
                            lemma_grows_trans(session_v(&s0), session_v(&s3), session_v(sesh));
                        }
                        return Err(e);
                    },
                };
                proof {
                    lemma_grows_trans(session_v(&s0), session_v(&s3), session_v(sesh));
                    let v = session_v(sesh);
                    assert(self.scratch@ =~= old(self).scratch@);
                    let ids = seq![quote, value];
                    assert(v.table.subrange(list.start(), list.start() + 2) =~= ids);
                    if claims(old(self), old(sesh), old(expansions), st, i) && p_quoted(st, i + 1).0 is Ok {
                        let (qv, k) = p_quoted(st, i + 1);
                        let vs = seq![
                            Spanned { value: ExprV::SymbolQ("quote"@), span },
                            qv->Ok_0,
                        ];
                        lemma_expr_frame(session_v(&s1), v, quote.index());
                        lemma_grows_trans(session_v(&s3), session_v(&s3), v);
                        lemma_expr_frame(session_v(&s3), v, value.index());
                        assert(session_v(&s3).expr(value.index()) == pushed_view(session_v(&s2), value_e));
                        assert(v.expr(quote.index()) == vs[0]);
                        assert(v.expr(value.index()) == vs[1]);
                        assert(items_in(v, ids, vs));
                        lemma_pushed_children(v, Spanned { value: Expression::List(list), span }, list.start(), ids, vs);
                    }
                }
                Ok(Expression::List(list).scopy(span))
            },
            Event::Symbol(name) => {
                let id = self.make_symbol(sesh, name.as_str());
                Ok(Expression::SymbolQ(id).scopy(span))
            },
            Event::Integer(v) => Ok(Expression::Integer(v).scopy(span)),
            Event::Float(t) => {
                let ghost v0 = session_v(sesh);
                proof {
                    crate::text::lemma_byte_len_concat(v0.text, t@);
                }
                match self.push_text(sesh, t.as_str(), span) {
                    Ok(range) => Ok(Expression::Float(range).scopy(span)),
                    Err(e) => Err(e),
                }
            },
            Event::String(t) => {
                let ghost v0 = session_v(sesh);
                proof {
                    crate::text::lemma_byte_len_concat(v0.text, t@);
                }
                match self.push_text(sesh, t.as_str(), span) {
                    Ok(range) => Ok(Expression::String(range).scopy(span)),
                    Err(e) => Err(e),
                }
            },
            Event::SourceEnd => Err(ParseError::UnexpectedSourceEnd.scopy(span)),
        }
    }

    /// Parses expressions up to the end of the list, not consuming it, and moves them to a range of the child table.
    fn parse_list_items<R: Reader>(
        &mut self,
        sesh: &mut Session,
        events: &mut R,
        expansions: &mut Expansions,
        span: Span,
        Ghost(st): Ghost<Seq<ReadResult>>,
        Ghost(i): Ghost<int>,
    ) -> (r: Result<ExpressionRange, SParseError>)
        requires
            old(self).inv(old(sesh)),
            stream_ok(st),
            reading(old(events), st, i),
        ensures
            (r matches Err(e) && e.value is ExpansionNeeded) ==> final(expansions).pending() is Some,
            final(expansions).events() == old(expansions).events(),
            final(self).inv(final(sesh)),
            session_v(final(sesh)).grows_from(session_v(old(sesh))),
            final(events).ready(),
            final(self).depth_left() == old(self).depth_left(),
            final(self).same_macros(old(self)),
            r is Ok ==> final(self).scratch_ids() == old(self).scratch_ids(),
            r is Ok ==> i <= at(final(events), st) && reading(final(events), st, at(final(events), st)),
            r is Ok ==> session_v(final(sesh)).children_ok(r->Ok_0, final(sesh).expressions().len() as int),
            claims(old(self), old(sesh), old(expansions), st, i) ==> range_outcome(
                p_seq(st, i, Seq::empty(), old(self).macro_names(), old(expansions).events(), old(expansions).used(), old(self).depth_left()),
                r,
                old(self),
                final(self),
                old(sesh),
                final(sesh),
                old(expansions),
                final(expansions),
                final(events),
                st,
                i,
            ),
        decreases old(self).depth_left(), st.len() - i, 1int,
    {
        let start = self.scratch.len();
        let ghost s0 = *sesh;
        let ghost p0 = *self;
        let ghost x0 = *expansions;
        let ghost mut j = i;
        let ghost mut acc: Seq<SExprV> = Seq::empty();
        proof {
            lemma_grows_refl(session_v(sesh));
            assert(self.scratch@.skip(start as int) =~= Seq::<ExpressionId>::empty());
            assert(self.scratch@.take(start as int) =~= self.scratch@);
        }
        loop
            invariant
                self.inv(sesh),
                stream_ok(st),
                reading(events, st, j),
                i <= j,
                s0 == *old(sesh),
                p0 == *old(self),
                x0 == *old(expansions),
                expansions.events() == x0.events(),
                session_v(sesh).grows_from(session_v(&s0)),
                self.depth_left() == p0.depth_left(),
                self.same_macros(&p0),
                start == p0.scratch_ids().len(),
                self.scratch_ids().len() >= start,
                self.scratch_ids().take(start as int) == p0.scratch_ids(),
                claims(&p0, &s0, &x0, st, i) && !is_opaque(p_seq(st, i, Seq::empty(), old(self).macro_names(), old(expansions).events(), old(expansions).used(), old(self).depth_left()).0) ==> {
                    &&& p_seq(st, i, Seq::empty(), old(self).macro_names(), old(expansions).events(), old(expansions).used(), old(self).depth_left()) == p_seq(st, j, acc, old(self).macro_names(), old(expansions).events(), expansions.used(), old(self).depth_left())
                    &&& items_in(session_v(sesh), self.scratch_ids().skip(start as int), acc)
                    &&& within(
                        st,
                        session_v(&s0),
                        start as int,
                        i,
                        session_v(sesh),
                        self.scratch_ids().len() as int,
                        j,
                        0,
                        x0.events(),
                        x0.used(),
                        expansions.used(),
                    )
                    &&& self.macros_named()
                    &&& self.macro_names() == p0.macro_names()
                },
            decreases st.len() - j,
        {
            let is_end = match peek_event(events, Ghost(st), Ghost(j)) {
                Ok(e) => matches!(e.value, Event::ListEnd),
                Err(e) => return Err(e),
            };
            if is_end {
                let ghost sb = *sesh;
                let ghost xb = *expansions;
            let ghost xb = *expansions;
                let ghost ids = self.scratch@.skip(start as int);
                let range = match self.push_scratch(sesh, start, span) {
                    Ok(range) => range,
                    Err(e) => {
                        proof {
                            lemma_grows_trans(session_v(&s0), session_v(&sb), session_v(sesh));
                        }
                        return Err(e);
                    },
                };
                proof {
                    lemma_grows_trans(session_v(&s0), session_v(&sb), session_v(sesh));
                    let v = session_v(sesh);
                    assert(self.scratch@ =~= old(self).scratch@);
                    assert(v.table.subrange(range.start(), range.start() + range.len()) =~= ids);
                    assert forall|k: int| range.start() <= k < range.start() + range.len() implies 0
                        <= #[trigger] v.table[k].index() < v.exprs.len() by {
                        assert(v.table[k] == ids[k - range.start()]);
                    }
                    if claims(&p0, &s0, &x0, st, i) && !is_opaque(p_seq(st, i, Seq::empty(), old(self).macro_names(), old(expansions).events(), old(expansions).used(), old(self).depth_left()).0) {
                        lemma_items_frame(session_v(&sb), v, ids, acc);
                    }
                }
                return Ok(range);
            }
            let ghost sb = *sesh;
            let ghost xb = *expansions;
            let ghost pb = *self;
            proof {
                if claims(&p0, &s0, &x0, st, i) && !is_opaque(p_seq(st, i, Seq::empty(), old(self).macro_names(), old(expansions).events(), old(expansions).used(), old(self).depth_left()).0) {
                    lemma_claims_move(&p0, &s0, &x0, self, sesh, expansions, st, i, j, 0);
                }
            }
            let e = match self.parse_expr(sesh, events, expansions, false, Ghost(st), Ghost(j)) {
                Ok(e) => e,
                Err(e) => {
                    proof {
                        lemma_grows_trans(session_v(&s0), session_v(&sb), session_v(sesh));
                    }
                    return Err(e);
                },
            };
            let ghost sc = *sesh;
            proof {
                lemma_grows_trans(session_v(&s0), session_v(&sb), session_v(sesh));
            }
            let id = match self.push_expr(sesh, e) {
                Ok(id) => id,
                Err(e) => {
                    proof {
                        lemma_grows_trans(session_v(&s0), session_v(&sc), session_v(sesh));
                    }
                    return Err(e);
                },
            };
            proof {
                lemma_grows_trans(session_v(&s0), session_v(&sc), session_v(sesh));
            }
            let ghost before_ids = self.scratch@;
            self.scratch.push(id);
            proof {
                assert(self.scratch@.take(start as int) =~= p0.scratch_ids());
                let k = at(events, st);
                if claims(&p0, &s0, &x0, st, i) && !is_opaque(p_seq(st, i, Seq::empty(), old(self).macro_names(), old(expansions).events(), old(expansions).used(), old(self).depth_left()).0) {
                    let c = pushed_view(session_v(&sc), e);
                    assert(k == p_expr(st, j, false, old(self).macro_names(), old(expansions).events(), xb.used(), old(self).depth_left()).1);
                    assert(p_expr(st, j, false, old(self).macro_names(), old(expansions).events(), xb.used(), old(self).depth_left()).0 == Ok::<SExprV, PFail>(c));
                    assert(p_seq(st, j, acc, old(self).macro_names(), old(expansions).events(), xb.used(), old(self).depth_left()) == p_seq(st, k, acc.push(c), old(self).macro_names(), old(expansions).events(), expansions.used(), old(self).depth_left()));
                    lemma_grows_trans(session_v(&sb), session_v(&sc), session_v(sesh));
                    lemma_items_frame(session_v(&sb), session_v(sesh), before_ids.skip(start as int), acc);
                    assert(self.scratch@.skip(start as int) =~= before_ids.skip(start as int).push(id));
                    assert(session_v(sesh).expr(id.index()) == c);
                    lemma_items_push(session_v(sesh), before_ids.skip(start as int), acc, id, c);
                    lemma_within_trans(
                        st,
                        session_v(&s0),
                        start as int,
                        i,
                        session_v(&sb),
                        before_ids.len() as int,
                        j,
                        0,
                        session_v(&sc),
                        before_ids.len() as int,
                        k,
                        1,
                        x0.events(),
                        x0.used(),
                        xb.used(),
                        expansions.used(),
                    );
                    acc = acc.push(c);
                }
                j = k;
            }
        }
    }

    /// Parses quoted expressions up to the end of the list, not consuming it, and moves them to a range of the child table.
    fn parse_items_quoted<R: Reader>(
        &mut self,
        sesh: &mut Session,
        events: &mut R,
        expansions: &mut Expansions,
        span: Span,
        Ghost(st): Ghost<Seq<ReadResult>>,
        Ghost(i): Ghost<int>,
    ) -> (r: Result<ExpressionRange, SParseError>)
        requires
            old(self).inv(old(sesh)),
            stream_ok(st),
            reading(old(events), st, i),
        ensures
            (r matches Err(e) && e.value is ExpansionNeeded) ==> final(expansions).pending() is Some,
            final(expansions).events() == old(expansions).events(),
            *final(expansions) == *old(expansions),
            final(self).inv(final(sesh)),
            session_v(final(sesh)).grows_from(session_v(old(sesh))),
            final(events).ready(),
            final(self).depth_left() == old(self).depth_left(),
            final(self).same_macros(old(self)),
            r is Ok ==> final(self).scratch_ids() == old(self).scratch_ids(),
            r is Ok ==> i <= at(final(events), st) && reading(final(events), st, at(final(events), st)),
            r is Ok ==> session_v(final(sesh)).children_ok(r->Ok_0, final(sesh).expressions().len() as int),
            claims(old(self), old(sesh), old(expansions), st, i) ==> range_outcome(
                with_c(p_seq_q(st, i, Seq::empty()), old(expansions).used()),
                r,
                old(self),
                final(self),
                old(sesh),
                final(sesh),
                old(expansions),
                final(expansions),
                final(events),
                st,
                i,
            ),
        decreases old(self).depth_left(), st.len() - i, 1int,
    {
        let start = self.scratch.len();
        let ghost s0 = *sesh;
        let ghost p0 = *self;
        let ghost x0 = *expansions;
        let ghost mut j = i;
        let ghost mut acc: Seq<SExprV> = Seq::empty();
        proof {
            lemma_grows_refl(session_v(sesh));
            assert(self.scratch@.skip(start as int) =~= Seq::<ExpressionId>::empty());
            assert(self.scratch@.take(start as int) =~= self.scratch@);
        }
        loop
            invariant
                *expansions == *old(expansions),
                self.inv(sesh),
                stream_ok(st),
                reading(events, st, j),
                i <= j,
                s0 == *old(sesh),
                p0 == *old(self),
                x0 == *old(expansions),
                expansions.events() == x0.events(),
                session_v(sesh).grows_from(session_v(&s0)),
                self.depth_left() == p0.depth_left(),
                self.same_macros(&p0),
                start == p0.scratch_ids().len(),
                self.scratch_ids().len() >= start,
                self.scratch_ids().take(start as int) == p0.scratch_ids(),
                claims(&p0, &s0, &x0, st, i) && !is_opaque(p_seq_q(st, i, Seq::empty()).0) ==> {
                    &&& p_seq_q(st, i, Seq::empty()) == p_seq_q(st, j, acc)
                    &&& items_in(session_v(sesh), self.scratch_ids().skip(start as int), acc)
                    &&& within(
                        st,
                        session_v(&s0),
                        start as int,
                        i,
                        session_v(sesh),
                        self.scratch_ids().len() as int,
                        j,
                        0,
                        x0.events(),
                        x0.used(),
                        expansions.used(),
                    )
                    &&& self.macros_named()
                    &&& self.macro_names() == p0.macro_names()
                },
            decreases st.len() - j,
        {
            let is_end = match peek_event(events, Ghost(st), Ghost(j)) {
                Ok(e) => matches!(e.value, Event::ListEnd),
                Err(e) => return Err(e),
            };
            if is_end {
                let ghost sb = *sesh;
                let ghost xb = *expansions;
            let ghost xb = *expansions;
                let ghost ids = self.scratch@.skip(start as int);
                let range = match self.push_scratch(sesh, start, span) {
                    Ok(range) => range,
                    Err(e) => {
                        proof {
                            lemma_grows_trans(session_v(&s0), session_v(&sb), session_v(sesh));
                        }
                        return Err(e);
                    },
                };
                proof {
                    lemma_grows_trans(session_v(&s0), session_v(&sb), session_v(sesh));
                    let v = session_v(sesh);
                    assert(self.scratch@ =~= old(self).scratch@);
                    assert(v.table.subrange(range.start(), range.start() + range.len()) =~= ids);
                    assert forall|k: int| range.start() <= k < range.start() + range.len() implies 0
                        <= #[trigger] v.table[k].index() < v.exprs.len() by {
                        assert(v.table[k] == ids[k - range.start()]);
                    }
                    if claims(&p0, &s0, &x0, st, i) && !is_opaque(p_seq_q(st, i, Seq::empty()).0) {
                        lemma_items_frame(session_v(&sb), v, ids, acc);
                    }
                }
                return Ok(range);
            }
            let ghost sb = *sesh;
            let ghost xb = *expansions;
            let ghost pb = *self;
            proof {
                if claims(&p0, &s0, &x0, st, i) && !is_opaque(p_seq_q(st, i, Seq::empty()).0) {
                    lemma_claims_move(&p0, &s0, &x0, self, sesh, expansions, st, i, j, 0);
                }
            }
            let e = match self.parse_expr_quoted(sesh, events, expansions, false, Ghost(st), Ghost(j)) {
                Ok(e) => e,
                Err(e) => {
                    proof {
                        lemma_grows_trans(session_v(&s0), session_v(&sb), session_v(sesh));
                    }
                    return Err(e);
                },
            };
            let ghost sc = *sesh;
            proof {
                lemma_grows_trans(session_v(&s0), session_v(&sb), session_v(sesh));
            }
            let id = match self.push_expr(sesh, e) {
                Ok(id) => id,
                Err(e) => {
                    proof {
                        lemma_grows_trans(session_v(&s0), session_v(&sc), session_v(sesh));
                    }
                    return Err(e);
                },
            };
            proof {
                lemma_grows_trans(session_v(&s0), session_v(&sc), session_v(sesh));
            }
            let ghost before_ids = self.scratch@;
            self.scratch.push(id);
            proof {
                assert(self.scratch@.take(start as int) =~= p0.scratch_ids());
                let k = at(events, st);
                if claims(&p0, &s0, &x0, st, i) && !is_opaque(p_seq_q(st, i, Seq::empty()).0) {
                    let c = pushed_view(session_v(&sc), e);
                    assert(k == p_quoted(st, j).1);
                    assert(p_quoted(st, j).0 == Ok::<SExprV, PFail>(c));
                    assert(p_seq_q(st, j, acc) == p_seq_q(st, k, acc.push(c)));
                    lemma_grows_trans(session_v(&sb), session_v(&sc), session_v(sesh));
                    lemma_items_frame(session_v(&sb), session_v(sesh), before_ids.skip(start as int), acc);
                    assert(self.scratch@.skip(start as int) =~= before_ids.skip(start as int).push(id));
                    assert(session_v(sesh).expr(id.index()) == c);
                    lemma_items_push(session_v(sesh), before_ids.skip(start as int), acc, id, c);
                    lemma_within_trans(
                        st,
                        session_v(&s0),
                        start as int,
                        i,
                        session_v(&sb),
                        before_ids.len() as int,
                        j,
                        0,
                        session_v(&sc),
                        before_ids.len() as int,
                        k,
                        1,
                        x0.events(),
                        x0.used(),
                        xb.used(),
                        expansions.used(),
                    );
                    acc = acc.push(c);
                }
                j = k;
            }
        }
    }

    /// The rest of a quoted list opened at `p_span`, from event `i`.
    fn parse_list_quoted<R: Reader>(
        &mut self,
        sesh: &mut Session,
        events: &mut R,
        expansions: &mut Expansions,
        p_span: Span,
        is_top: bool,
        Ghost(st): Ghost<Seq<ReadResult>>,
        Ghost(i): Ghost<int>,
    ) -> (r: Result<SExpression, SParseError>)
        requires
            old(self).inv(old(sesh)),
            stream_ok(st),
            reading(old(events), st, i),
        ensures
            (r matches Err(e) && e.value is ExpansionNeeded) ==> final(expansions).pending() is Some,
            final(expansions).events() == old(expansions).events(),
            *final(expansions) == *old(expansions),
            final(self).inv(final(sesh)),
            session_v(final(sesh)).grows_from(session_v(old(sesh))),
            final(events).ready(),
            final(self).depth_left() == old(self).depth_left(),
            final(self).same_macros(old(self)),
            r is Ok ==> final(self).scratch_ids() == old(self).scratch_ids(),
            r is Ok ==> i < at(final(events), st) && reading(final(events), st, at(final(events), st)),
            r is Ok ==> session_v(final(sesh)).expr_ok(r->Ok_0.value, final(sesh).expressions().len() as int),
            claims(old(self), old(sesh), old(expansions), st, i) ==> expr_outcome(
                with_c(p_list_q(st, i, p_span), old(expansions).used()),
                r,
                old(self),
                final(self),
                old(sesh),
                final(sesh),
                old(expansions),
                final(expansions),
                final(events),
                st,
                i,
                -1,
                Seq::empty(),
            ),
        decreases old(self).depth_left(), st.len() - i, 2int,
    {
        let body = match self.parse_items_quoted(sesh, events, expansions, p_span, Ghost(st), Ghost(i)) {
            Ok(body) => body,
            Err(e) => return Err(e),
        };
        let ghost k = at(events, st);
        match consume_list_end(events, Ghost(st), Ghost(k)) {
            Ok(()) => {},
            Err(e) => return Err(e),
        }
        proof {
            if claims(old(self), old(sesh), old(expansions), st, i) && p_seq_q(st, i, Seq::empty()).0 is Ok {
                let vs = p_seq_q(st, i, Seq::empty()).0->Ok_0;
                let v = session_v(sesh);
                lemma_pushed_children(
                    v,
                    Spanned { value: Expression::List(body), span: p_span },
                    body.start(),
                    v.table.subrange(body.start(), body.start() + body.len()),
                    vs,
                );
            }
        }
        Ok(Expression::List(body).scopy(p_span))
    }

    /// `(quote value)`, from the event `quote` at `i`: the quoted value.
    fn parse_quote<R: Reader>(
        &mut self,
        sesh: &mut Session,
        events: &mut R,
        expansions: &mut Expansions,
        is_top: bool,
        Ghost(st): Ghost<Seq<ReadResult>>,
        Ghost(i): Ghost<int>,
    ) -> (r: Result<SExpression, SParseError>)
        requires
            old(self).inv(old(sesh)),
            stream_ok(st),
            reading(old(events), st, i),
            st[i] is Ok && !is_terminal(st[i]),
        ensures
            (r matches Err(e) && e.value is ExpansionNeeded) ==> final(expansions).pending() is Some,
            final(expansions).events() == old(expansions).events(),
            final(self).inv(final(sesh)),
            session_v(final(sesh)).grows_from(session_v(old(sesh))),
            final(events).ready(),
            final(self).depth_left() == old(self).depth_left(),
            final(self).same_macros(old(self)),
            r is Ok ==> final(self).scratch_ids() == old(self).scratch_ids(),
            r is Ok ==> i < at(final(events), st) && reading(final(events), st, at(final(events), st)),
            r is Ok ==> session_v(final(sesh)).expr_ok(r->Ok_0.value, final(sesh).expressions().len() as int),
            claims(old(self), old(sesh), old(expansions), st, i) ==> expr_outcome(
                with_c(p_quote(st, i), old(expansions).used()),
                r,
                old(self),
                final(self),
                old(sesh),
                final(sesh),
                old(expansions),
                final(expansions),
                final(events),
                st,
                i,
                -1,
                Seq::empty(),
            ),
        decreases old(self).depth_left(), st.len() - i, 1int,
    {
        match next_event(events, Ghost(st), Ghost(i)) {
            Ok(_) => {},
            Err(e) => return Err(e),
        }
        let value = match self.parse_expr_quoted(sesh, events, expansions, is_top, Ghost(st), Ghost(i + 1)) {
            Ok(v) => v,
            Err(e) => return Err(e),
        };
        let ghost k = at(events, st);
        match consume_list_end(events, Ghost(st), Ghost(k)) {
            Ok(()) => {},
            Err(e) => return Err(e),
        }
        Ok(value)
    }

    /// `(do body...)`, from the event `do` at `i`.
    fn parse_do<R: Reader>(
        &mut self,
        sesh: &mut Session,
        events: &mut R,
        expansions: &mut Expansions,
        p_span: Span,
        Ghost(st): Ghost<Seq<ReadResult>>,
        Ghost(i): Ghost<int>,
    ) -> (r: Result<SExpression, SParseError>)
        requires
            old(self).inv(old(sesh)),
            stream_ok(st),
            reading(old(events), st, i),
            st[i] is Ok && !is_terminal(st[i]),
        ensures
            (r matches Err(e) && e.value is ExpansionNeeded) ==> final(expansions).pending() is Some,
            final(expansions).events() == old(expansions).events(),
            final(self).inv(final(sesh)),
            session_v(final(sesh)).grows_from(session_v(old(sesh))),
            final(events).ready(),
            final(self).depth_left() == old(self).depth_left(),
            final(self).same_macros(old(self)),
            r is Ok ==> final(self).scratch_ids() == old(self).scratch_ids(),
            r is Ok ==> i < at(final(events), st) && reading(final(events), st, at(final(events), st)),
            r is Ok ==> session_v(final(sesh)).expr_ok(r->Ok_0.value, final(sesh).expressions().len() as int),
            claims(old(self), old(sesh), old(expansions), st, i) ==> expr_outcome(
                p_do(st, i, p_span, old(self).macro_names(), old(expansions).events(), old(expansions).used(), old(self).depth_left()),
                r,
                old(self),
                final(self),
                old(sesh),
                final(sesh),
                old(expansions),
                final(expansions),
                final(events),
                st,
                i,
                -1,
                Seq::empty(),
            ),
        decreases old(self).depth_left(), st.len() - i, 1int,
    {
        match next_event(events, Ghost(st), Ghost(i)) {
            Ok(_) => {},
            Err(e) => return Err(e),
        }
        let body = match self.parse_list_items(sesh, events, expansions, p_span, Ghost(st), Ghost(i + 1)) {
            Ok(body) => body,
            Err(e) => return Err(e),
        };
        let ghost k = at(events, st);
        match consume_list_end(events, Ghost(st), Ghost(k)) {
            Ok(()) => {},
            Err(e) => return Err(e),
        }
        proof {
            if claims(old(self), old(sesh), old(expansions), st, i) && p_seq(st, i + 1, Seq::empty(), old(self).macro_names(), old(expansions).events(), old(expansions).used(), old(self).depth_left()).0 is Ok {
                let vs = p_seq(st, i + 1, Seq::empty(), old(self).macro_names(), old(expansions).events(), old(expansions).used(), old(self).depth_left()).0->Ok_0;
                let v = session_v(sesh);
                lemma_pushed_children(
                    v,
                    Spanned { value: Expression::Do(body), span: p_span },
                    body.start(),
                    v.table.subrange(body.start(), body.start() + body.len()),
                    vs,
                );
            }
        }
        Ok(Expression::Do(body).scopy(p_span))
    }

    /// Parses an expression and stores it, from event `i`.
    fn parse_and_push<R: Reader>(
        &mut self,
        sesh: &mut Session,
        events: &mut R,
        expansions: &mut Expansions,
        Ghost(st): Ghost<Seq<ReadResult>>,
        Ghost(i): Ghost<int>,
    ) -> (r: Result<ExpressionId, SParseError>)
        requires
            old(self).inv(old(sesh)),
            stream_ok(st),
            reading(old(events), st, i),
        ensures
            (r matches Err(e) && e.value is ExpansionNeeded) ==> final(expansions).pending() is Some,
            final(expansions).events() == old(expansions).events(),
            final(self).inv(final(sesh)),
            session_v(final(sesh)).grows_from(session_v(old(sesh))),
            final(events).ready(),
            final(self).depth_left() == old(self).depth_left(),
            final(self).same_macros(old(self)),
            r is Ok ==> final(self).scratch_ids() == old(self).scratch_ids(),
            r is Ok ==> i < at(final(events), st) && reading(final(events), st, at(final(events), st)),
            r is Ok ==> 0 <= r->Ok_0.index() < final(sesh).expressions().len(),
            claims(old(self), old(sesh), old(expansions), st, i) ==> match p_expr(st, i, false, old(self).macro_names(), old(expansions).events(), old(expansions).used(), old(self).depth_left()).0 {
                Ok(v) => {
                    &&& r is Ok
                    &&& session_v(final(sesh)).expr(r->Ok_0.index()) == v
                    &&& reading(final(events), st, p_expr(st, i, false, old(self).macro_names(), old(expansions).events(), old(expansions).used(), old(self).depth_left()).1)
                    &&& within(
                        st,
                        session_v(old(sesh)),
                        old(self).scratch_ids().len() as int,
                        i,
                        session_v(final(sesh)),
                        final(self).scratch_ids().len() as int,
                        p_expr(st, i, false, old(self).macro_names(), old(expansions).events(), old(expansions).used(), old(self).depth_left()).1,
                        0,
                        old(expansions).events(),
                        old(expansions).used(),
                        final(expansions).used(),
                    )
                    &&& final(expansions).used() == p_expr(st, i, false, old(self).macro_names(), old(expansions).events(), old(expansions).used(), old(self).depth_left()).2
                },
                Err(PFail::Error(e)) => r == Err::<ExpressionId, SParseError>(e),
                Err(PFail::Opaque) => true,
            },
        decreases old(self).depth_left(), st.len() - i, 1int,
    {
        let e = match self.parse_expr(sesh, events, expansions, false, Ghost(st), Ghost(i)) {
            Ok(e) => e,
            Err(e) => return Err(e),
        };
        let ghost s1 = *sesh;
        let id = match self.push_expr(sesh, e) {
            Ok(id) => id,
            Err(e) => {
                proof {
                    lemma_grows_trans(session_v(old(sesh)), session_v(&s1), session_v(sesh));
                }
                return Err(e);
            },
        };
        proof {
            lemma_grows_trans(session_v(old(sesh)), session_v(&s1), session_v(sesh));
        }
        Ok(id)
    }

    /// `(if cond then else)`, from the event `if` at `i`.
    #[verifier::rlimit(60)]
    #[verifier::spinoff_prover]
    fn parse_if<R: Reader>(
        &mut self,
        sesh: &mut Session,
        events: &mut R,
        expansions: &mut Expansions,
        p_span: Span,
        Ghost(st): Ghost<Seq<ReadResult>>,
        Ghost(i): Ghost<int>,
    ) -> (r: Result<SExpression, SParseError>)
        requires
            old(self).inv(old(sesh)),
            stream_ok(st),
            reading(old(events), st, i),
            st[i] is Ok && !is_terminal(st[i]),
        ensures
            (r matches Err(e) && e.value is ExpansionNeeded) ==> final(expansions).pending() is Some,
            final(expansions).events() == old(expansions).events(),
            final(self).inv(final(sesh)),
            session_v(final(sesh)).grows_from(session_v(old(sesh))),
            final(events).ready(),
            final(self).depth_left() == old(self).depth_left(),
            final(self).same_macros(old(self)),
            r is Ok ==> final(self).scratch_ids() == old(self).scratch_ids(),
            r is Ok ==> i < at(final(events), st) && reading(final(events), st, at(final(events), st)),
            r is Ok ==> session_v(final(sesh)).expr_ok(r->Ok_0.value, final(sesh).expressions().len() as int),
            claims(old(self), old(sesh), old(expansions), st, i) ==> expr_outcome(
                p_if(st, i, p_span, old(self).macro_names(), old(expansions).events(), old(expansions).used(), old(self).depth_left()),
                r,
                old(self),
                final(self),
                old(sesh),
                final(sesh),
                old(expansions),
                final(expansions),
                final(events),
                st,
                i,
                -1,
                Seq::empty(),
            ),
        decreases old(self).depth_left(), st.len() - i, 1int,
    {
        match next_event(events, Ghost(st), Ghost(i)) {
            Ok(_) => {},
            Err(e) => return Err(e),
        }
        let ghost s0 = *sesh;
        let cond = match self.parse_and_push(sesh, events, expansions, Ghost(st), Ghost(i + 1)) {
            Ok(id) => id,
            Err(e) => return Err(e),
        };
        let ghost s1 = *sesh;
        let ghost k1 = at(events, st);
        let ghost x1 = *expansions;
        proof {
            let ms = old(self).macro_names();
            let xs = old(expansions).events();
            let d = old(self).depth_left();
            if claims(old(self), old(sesh), old(expansions), st, i) && p_expr(st, i + 1, false, ms, xs, old(expansions).used(), d).0 is Ok {
                lemma_bytes_from_mono(st, i, i + 1);
                lemma_claims_move(old(self), old(sesh), old(expansions), self, sesh, expansions, st, i, k1, 0);
            }
        }
        let t_branch = match self.parse_and_push(sesh, events, expansions, Ghost(st), Ghost(k1)) {
            Ok(id) => id,
            Err(e) => {
                proof {
                    lemma_grows_trans(session_v(&s0), session_v(&s1), session_v(sesh));
                }
                return Err(e);
            },
        };
        let ghost s2 = *sesh;
        let ghost k2 = at(events, st);
        proof {
            lemma_grows_trans(session_v(&s0), session_v(&s1), session_v(&s2));
            let ms = old(self).macro_names();
            let xs = old(expansions).events();
            let d = old(self).depth_left();
            if claims(old(self), old(sesh), old(expansions), st, i) && p_expr(st, i + 1, false, ms, xs, old(expansions).used(), d).0 is Ok
                && p_expr(st, k1, false, ms, xs, x1.used(), d).0 is Ok {
                lemma_bytes_from_mono(st, i, i + 1);
                lemma_claims_move(old(self), old(sesh), old(expansions), self, sesh, expansions, st, i, k2, 0);
            }
        }
        let f_branch = match self.parse_and_push(sesh, events, expansions, Ghost(st), Ghost(k2)) {
            Ok(id) => id,
            Err(e) => {
                proof {
                    lemma_grows_trans(session_v(&s0), session_v(&s2), session_v(sesh));
                }
                return Err(e);
            },
        };
        let ghost s3 = *sesh;
        let ghost k3 = at(events, st);
        proof {
            lemma_grows_trans(session_v(&s0), session_v(&s2), session_v(&s3));
            lemma_grows_trans(session_v(&s1), session_v(&s2), session_v(&s3));
        }
        match consume_list_end(events, Ghost(st), Ghost(k3)) {
            Ok(()) => {},
            Err(e) => return Err(e),
        }
        proof {
            if claims(old(self), old(sesh), old(expansions), st, i) {
                let v = session_v(sesh);
                let e = Spanned { value: Expression::If { cond, t_branch, f_branch }, span: p_span };
                lemma_expr_frame(session_v(&s1), v, cond.index());
                lemma_expr_frame(session_v(&s2), v, t_branch.index());
                lemma_pushed_sub(v, e, cond);
                lemma_pushed_sub(v, e, t_branch);
                lemma_pushed_sub(v, e, f_branch);
            }
        }
        Ok(Expression::If { cond, t_branch, f_branch }.scopy(p_span))
    }

    /// `(def name value)` or `(set name value)`, from the event `def` or
    /// `set` at `i`.
    fn parse_bind<R: Reader>(
        &mut self,
        sesh: &mut Session,
        events: &mut R,
        expansions: &mut Expansions,
        p_span: Span,
        kind: BindKind,
        Ghost(st): Ghost<Seq<ReadResult>>,
        Ghost(i): Ghost<int>,
    ) -> (r: Result<SExpression, SParseError>)
        requires
            old(self).inv(old(sesh)),
            stream_ok(st),
            reading(old(events), st, i),
            st[i] is Ok && !is_terminal(st[i]),
        ensures
            (r matches Err(e) && e.value is ExpansionNeeded) ==> final(expansions).pending() is Some,
            final(expansions).events() == old(expansions).events(),
            final(self).inv(final(sesh)),
            session_v(final(sesh)).grows_from(session_v(old(sesh))),
            final(events).ready(),
            final(self).depth_left() == old(self).depth_left(),
            final(self).same_macros(old(self)),
            r is Ok ==> final(self).scratch_ids() == old(self).scratch_ids(),
            r is Ok ==> i < at(final(events), st) && reading(final(events), st, at(final(events), st)),
            r is Ok ==> session_v(final(sesh)).expr_ok(r->Ok_0.value, final(sesh).expressions().len() as int),
            claims(old(self), old(sesh), old(expansions), st, i) ==> expr_outcome(
                p_bind(st, i, kind, p_span, old(self).macro_names(), old(expansions).events(), old(expansions).used(), old(self).depth_left()),
                r,
                old(self),
                final(self),
                old(sesh),
                final(sesh),
                old(expansions),
                final(expansions),
                final(events),
                st,
                i,
                -1,
                Seq::empty(),
            ),
        decreases old(self).depth_left(), st.len() - i, 1int,
    {
        match next_event(events, Ghost(st), Ghost(i)) {
            Ok(_) => {},
            Err(e) => return Err(e),
        }
        let name = match next_event(events, Ghost(st), Ghost(i + 1)) {
            Ok(e) => e,
            Err(e) => return Err(e),
        };
        let name = match name.value {
            Event::Symbol(n) => {
                if ReservedSymbols::matches(n.as_str()) {
                    return Err(ParseError::UnexpectedReservedSymbol.scopy(name.span));
                }
                self.make_symbol(sesh, n.as_str())
            },
            _ => return Err(ParseError::ExpectedSymbol.scopy(name.span)),
        };
        let ghost s1 = *sesh;
        proof {
            if claims(old(self), old(sesh), old(expansions), st, i) {
                lemma_within_refl(st, session_v(old(sesh)), old(self).scratch_ids().len() as int, i, i + 2, old(expansions).events(), old(expansions).used());
                lemma_claims_move(old(self), old(sesh), old(expansions), self, sesh, expansions, st, i, i + 2, 0);
            }
        }
        let value = match self.parse_and_push(sesh, events, expansions, Ghost(st), Ghost(i + 2)) {
            Ok(id) => id,
            Err(e) => {
                proof {
                    lemma_grows_trans(session_v(old(sesh)), session_v(&s1), session_v(sesh));
                }
                return Err(e);
            },
        };
        proof {
            lemma_grows_trans(session_v(old(sesh)), session_v(&s1), session_v(sesh));
        }
        let ghost k = at(events, st);
        match consume_list_end(events, Ghost(st), Ghost(k)) {
            Ok(()) => {},
            Err(e) => return Err(e),
        }
        proof {
            let v = session_v(sesh);
            assert(v.names[name.index()] == session_v(&s1).names[name.index()]);
            if claims(old(self), old(sesh), old(expansions), st, i) && p_expr(st, i + 2, false, old(self).macro_names(), old(expansions).events(), old(expansions).used(), old(self).depth_left()).0 is Ok {
                lemma_pushed_sub(v, Spanned { value: Expression::Bind { kind, name, value }, span: p_span }, value);
                lemma_within_refl(st, session_v(old(sesh)), old(self).scratch_ids().len() as int, i, i + 2, old(expansions).events(), old(expansions).used());
                lemma_within_trans(
                    st,
                    session_v(old(sesh)),
                    old(self).scratch_ids().len() as int,
                    i,
                    session_v(&s1),
                    old(self).scratch_ids().len() as int,
                    i + 2,
                    0,
                    v,
                    old(self).scratch_ids().len() as int,
                    k,
                    0,
                    old(expansions).events(),
                    old(expansions).used(),
                    old(expansions).used(),
                    expansions.used(),
                );
                lemma_bytes_from_mono(st, k, k + 1);
            }
        }
        Ok(Expression::Bind { kind, name, value }.scopy(p_span))
    }

    /// The parameters of a callable, from event `j` after its `(`: the
    /// required ones go to the session's parameter table in order; the rest
    /// parameter, if any, is returned.
    fn parse_params<R: Reader>(
        &mut self,
        sesh: &mut Session,
        events: &mut R,
        Ghost(st): Ghost<Seq<ReadResult>>,
        Ghost(j): Ghost<int>,
    ) -> (r: Result<Option<SymbolId>, SParseError>)
        requires
            old(self).inv(old(sesh)),
            stream_ok(st),
            reading(old(events), st, j),
        ensures
            r is Err ==> !(r->Err_0.value is ExpansionNeeded),
            final(self).inv(final(sesh)),
            final(self).scratch_ids() == old(self).scratch_ids(),
            final(self).same_macros(old(self)),
            final(self).depth_left() == old(self).depth_left(),
            session_v(final(sesh)).grows_from(session_v(old(sesh))),
            final(sesh).expressions() == old(sesh).expressions(),
            final(sesh).expression_table() == old(sesh).expression_table(),
            final(sesh).text() == old(sesh).text(),
            final(events).ready(),
            r is Ok ==> j < at(final(events), st) && reading(final(events), st, at(final(events), st)),
            r is Ok ==> (r->Ok_0 matches Some(s) ==> 0 <= s.index() < final(sesh).names().len()),
            match p_params(st, j, Seq::empty()).0 {
                Ok((names, rest)) => {
                    &&& r is Ok
                    &&& reading(final(events), st, p_params(st, j, Seq::empty()).1)
                    &&& params_names(final(sesh), old(sesh).params().len() as int) == names
                    &&& match rest {
                        Some(n) => r->Ok_0 matches Some(s) && final(sesh).names()[s.index()] == n,
                        None => r->Ok_0 is None,
                    }
                },
                Err(PFail::Error(e)) => r == Err::<Option<SymbolId>, SParseError>(e),
                Err(PFail::Opaque) => true,
            },
    {
        let ghost s0 = *sesh;
        let ghost mut k = j;
        let ghost mut names: Seq<Seq<char>> = Seq::empty();
        let mut seen: Vec<SymbolId> = Vec::new();
        proof {
            lemma_grows_refl(session_v(sesh));
        }
        loop
            invariant
                self.inv(sesh),
                stream_ok(st),
                reading(events, st, k),
                j <= k,
                s0 == *old(sesh),
                self.scratch_ids() == old(self).scratch_ids(),
                self.same_macros(old(self)),
                self.depth_left() == old(self).depth_left(),
                session_v(sesh).grows_from(session_v(&s0)),
                sesh.expressions() == s0.expressions(),
                sesh.expression_table() == s0.expression_table(),
                sesh.text() == s0.text(),
                sesh.params() == s0.params() + seen@,
                names.len() == seen@.len(),
                forall|m: int| 0 <= m < seen@.len() ==> 0 <= #[trigger] seen@[m].index() < sesh.names().len()
                    && sesh.names()[seen@[m].index()] == names[m],
                p_params(st, j, Seq::empty()) == p_params(st, k, names),
            decreases st.len() - k,
        {
            let event = match next_event(events, Ghost(st), Ghost(k)) {
                Ok(e) => e,
                Err(e) => return Err(e),
            };
            proof {
                assert(symbol_named(st[k]));
            }
            match event.value {
                Event::ListEnd => {
                    proof {
                        assert(params_names(sesh, s0.params().len() as int) =~= names) by {
                            assert forall|m: int| 0 <= m < names.len() implies params_names(
                                sesh,
                                s0.params().len() as int,
                            )[m] == names[m] by {
                                assert(sesh.params()[s0.params().len() + m] == seen@[m]);
                            }
                        }
                    }
                    return Ok(None);
                },
                Event::Symbol(name) => {
                    let mut dup = false;
                    let mut m: usize = 0;
                    while m < seen.len()
                        invariant
                            0 <= m <= seen@.len(),
                            self.inv(sesh),
                            forall|q: int| 0 <= q < seen@.len() ==> 0 <= #[trigger] seen@[q].index() < sesh.names().len()
                                && sesh.names()[seen@[q].index()] == names[q],
                            names.len() == seen@.len(),
                            dup <==> exists|q: int| 0 <= q < m && names[q] == name@,
                        decreases seen@.len() - m,
                    {
                        if str_eq(sesh.get_symbol(seen[m]), name.as_str()) {
                            dup = true;
                        }
                        m = m + 1;
                    }
                    proof {
                        assert(dup == names.contains(name@));
                    }
                    if SymbolMarkers::matches_rest(name.as_str()) {
                        let ghost sb = *sesh;
                        let param = self.make_symbol(sesh, name.as_str());
                        proof {
                            lemma_names_kept(&sb, sesh, seen@, names);
                            lemma_grows_trans(session_v(&s0), session_v(&sb), session_v(sesh));
                        }
                        if dup {
                            return Err(ParseError::DuplicateParameter.scopy(event.span));
                        }
                        let end = match next_event(events, Ghost(st), Ghost(k + 1)) {
                            Ok(e) => e,
                            Err(e) => return Err(e),
                        };
                        if !matches!(end.value, Event::ListEnd) {
                            return Err(ParseError::ExpectedListEnd.scopy(end.span));
                        }
                        proof {
                            assert(params_names(sesh, s0.params().len() as int) =~= names) by {
                                assert forall|q: int| 0 <= q < names.len() implies params_names(
                                    sesh,
                                    s0.params().len() as int,
                                )[q] == names[q] by {
                                    assert(sesh.params()[s0.params().len() + q] == seen@[q]);
                                }
                            }
                        }
                        return Ok(Some(param));
                    }
                    if ReservedSymbols::matches(name.as_str()) {
                        return Err(ParseError::UnexpectedReservedSymbol.scopy(event.span));
                    }
                    let ghost sa = *sesh;
                    let param = self.make_symbol(sesh, name.as_str());
                    proof {
                        lemma_names_kept(&sa, sesh, seen@, names);
                        lemma_grows_trans(session_v(&s0), session_v(&sa), session_v(sesh));
                    }
                    if dup {
                        return Err(ParseError::DuplicateParameter.scopy(event.span));
                    }
                    let ghost sb = *sesh;
                    sesh.push_param(param);
                    seen.push(param);
                    proof {
                        let v = session_v(&sb);
                        let v2 = session_v(sesh);
                        assert(v2.params =~= v.params.push(param));
                        assert(v.params =~= v2.params.subrange(0, v.params.len() as int));
                        assert(v.exprs =~= v2.exprs.subrange(0, v.exprs.len() as int));
                        assert(v.table =~= v2.table.subrange(0, v.table.len() as int));
                        assert(v.names =~= v2.names.subrange(0, v.names.len() as int));
                        assert(v.text =~= v2.text.subrange(0, v.text.len() as int));
                        lemma_grows_trans(session_v(&s0), v, v2);
                        assert forall|i: int| 0 <= i < v2.exprs.len() implies v2.expr_ok(#[trigger] v2.exprs[i].value, i) by {
                            assert(v.expr_ok(v.exprs[i].value, i));
                        }
                        assert forall|q: int| 0 <= q < v2.params.len() implies v2.symbol_ok(#[trigger] v2.params[q]) by {
                            if q < v.params.len() {
                                assert(v.symbol_ok(v.params[q]));
                            }
                        }
                        self.lemma_inv_grows(&sb, sesh);
                        assert(sesh.params() =~= s0.params() + seen@);
                        assert forall|q: int| 0 <= q < seen@.len() implies 0 <= #[trigger] seen@[q].index()
                            < sesh.names().len() && sesh.names()[seen@[q].index()] == names.push(name@)[q] by {
                            if q < seen@.len() - 1 {
                                assert(seen@[q] == seen@.drop_last()[q]);
                            }
                        }
                        names = names.push(name@);
                        k = k + 1;
                    }
                },
                _ => return Err(ParseError::ExpectedSymbol.scopy(event.span)),
            }
        }
    }

    /// The parts of `(fn (params...) body)` or, with `includes_name`, of
    /// `(def-macro name (params...) body)`, from the event `fn` or
    /// `def-macro` at `i`: the name, the required parameters, the rest
    /// parameter and the body.
    #[verifier::spinoff_prover]
    fn parse_callable<R: Reader>(
        &mut self,
        sesh: &mut Session,
        events: &mut R,
        expansions: &mut Expansions,
        includes_name: bool,
        Ghost(p_span): Ghost<Span>,
        Ghost(st): Ghost<Seq<ReadResult>>,
        Ghost(i): Ghost<int>,
    ) -> (r: Result<(Option<SymbolId>, ParamRange, Option<SymbolId>, ExpressionId), SParseError>)
        requires
            old(self).inv(old(sesh)),
            stream_ok(st),
            reading(old(events), st, i),
            st[i] is Ok && !is_terminal(st[i]),
        ensures
            (r matches Err(e) && e.value is ExpansionNeeded) ==> final(expansions).pending() is Some,
            final(expansions).events() == old(expansions).events(),
            final(self).inv(final(sesh)),
            session_v(final(sesh)).grows_from(session_v(old(sesh))),
            final(events).ready(),
            final(self).depth_left() == old(self).depth_left(),
            final(self).same_macros(old(self)),
            r is Ok ==> final(self).scratch_ids() == old(self).scratch_ids(),
            r is Ok ==> i < at(final(events), st) && reading(final(events), st, at(final(events), st)),
            r is Ok ==> {
                let (name, req, rest, body) = r->Ok_0;
                &&& session_v(final(sesh)).params_ok(req)
                &&& (rest matches Some(s) ==> session_v(final(sesh)).symbol_ok(s))
                &&& (name matches Some(s) ==> session_v(final(sesh)).symbol_ok(s))
                &&& (includes_name ==> name is Some)
                &&& 0 <= body.index() < final(sesh).expressions().len()
            },
            claims(old(self), old(sesh), old(expansions), st, i) ==> match p_callable(
                st,
                i,
                p_span,
                includes_name,
                old(self).macro_names(),
                old(expansions).events(),
                old(expansions).used(),
                old(self).depth_left(),
            ).0 {
                Ok(v) => {
                    let (name, req, rest, body) = r->Ok_0;
                    let w = session_v(final(sesh));
                    &&& r is Ok
                    &&& v == Spanned {
                        value: ExprV::Fn {
                            req_params: w.param_names(req),
                            rest_param: match rest {
                                Some(s) => Some(w.names[s.index()]),
                                None => None,
                            },
                            body: Box::new(w.expr(body.index())),
                        },
                        span: p_span,
                    }
                    &&& reading(final(events), st, p_callable(st, i, p_span, includes_name, old(self).macro_names(), old(expansions).events(), old(expansions).used(), old(self).depth_left()).1)
                    &&& within(
                        st,
                        session_v(old(sesh)),
                        old(self).scratch_ids().len() as int,
                        i,
                        w,
                        final(self).scratch_ids().len() as int,
                        p_callable(st, i, p_span, includes_name, old(self).macro_names(), old(expansions).events(), old(expansions).used(), old(self).depth_left()).1,
                        -1,
                        old(expansions).events(),
                        old(expansions).used(),
                        final(expansions).used(),
                    )
                    &&& final(self).macros_named()
                    &&& final(expansions).used() == p_callable(st, i, p_span, includes_name, old(self).macro_names(), old(expansions).events(), old(expansions).used(), old(self).depth_left()).2
                    &&& (includes_name ==> (name is Some && (st[i + 1] matches Ok(ne) && ne.value
                        == EventV::Symbol(w.names[name->0.index()]))))
                },
                Err(PFail::Error(e)) => r == Err::<
                    (Option<SymbolId>, ParamRange, Option<SymbolId>, ExpressionId),
                    SParseError,
                >(e),
                Err(PFail::Opaque) => true,
            },
        decreases old(self).depth_left(), st.len() - i, 1int,
    {
        match next_event(events, Ghost(st), Ghost(i)) {
            Ok(_) => {},
            Err(e) => return Err(e),
        }
        let ghost s0 = *sesh;
        proof {
            lemma_grows_refl(session_v(sesh));
        }
        let name = if includes_name {
            let event = match next_event(events, Ghost(st), Ghost(i + 1)) {
                Ok(e) => e,
                Err(e) => return Err(e),
            };
            match event.value {
                Event::Symbol(n) => Some(self.make_symbol(sesh, n.as_str())),
                _ => return Err(ParseError::ExpectedSymbol.scopy(event.span)),
            }
        } else {
            None
        };
        let ghost j = if includes_name { i + 2 } else { i + 1 };
        let ghost s1 = *sesh;
        let list_start = match next_event(events, Ghost(st), Ghost(j)) {
            Ok(e) => e,
            Err(e) => return Err(e),
        };
        if !matches!(list_start.value, Event::ListStart) {
            return Err(ParseError::ExpectedParameterList.scopy(list_start.span));
        }
        let params_start = sesh.get_n_params();
        let rest_param = match self.parse_params(sesh, events, Ghost(st), Ghost(j + 1)) {
            Ok(r) => r,
            Err(e) => {
                proof {
                    lemma_grows_trans(session_v(&s0), session_v(&s1), session_v(sesh));
                }
                return Err(e);
            },
        };
        let req_params = ParamRange::new(params_start, sesh.get_n_params());
        let ghost s2 = *sesh;
        let ghost k = at(events, st);
        proof {
            lemma_grows_trans(session_v(&s0), session_v(&s1), session_v(&s2));
            if claims(old(self), old(sesh), old(expansions), st, i) && p_params(st, j + 1, Seq::empty()).0 is Ok {
                assert(k == p_params(st, j + 1, Seq::empty()).1);
                lemma_within_refl(st, session_v(old(sesh)), old(self).scratch_ids().len() as int, i, k, old(expansions).events(), old(expansions).used());
                lemma_claims_move(old(self), old(sesh), old(expansions), self, sesh, expansions, st, i, k, 0);
            }
        }
        let body = match self.parse_and_push(sesh, events, expansions, Ghost(st), Ghost(k)) {
            Ok(id) => id,
            Err(e) => {
                proof {
                    lemma_grows_trans(session_v(&s0), session_v(&s2), session_v(sesh));
                }
                return Err(e);
            },
        };
        proof {
            lemma_grows_trans(session_v(&s0), session_v(&s2), session_v(sesh));
            lemma_grows_trans(session_v(&s1), session_v(&s2), session_v(sesh));
            if includes_name {
                let id = name->0.index();
                assert(session_v(sesh).names[id] == s1.names()[id]);
            }
            assert(session_v(&s2).params_ok(req_params));
            lemma_param_names_kept(session_v(&s2), session_v(sesh), req_params);
            assert(session_v(&s2).param_names(req_params) =~= params_names(&s2, params_start as int));
            if claims(old(self), old(sesh), old(expansions), st, i) && p_params(st, j + 1, Seq::empty()).0 is Ok
                && p_expr(st, k, false, old(self).macro_names(), old(expansions).events(), old(expansions).used(), old(self).depth_left()).0 is Ok {
                lemma_within_refl(st, session_v(old(sesh)), old(self).scratch_ids().len() as int, i, k, old(expansions).events(), old(expansions).used());
                lemma_within_trans(
                    st,
                    session_v(old(sesh)),
                    old(self).scratch_ids().len() as int,
                    i,
                    session_v(&s2),
                    old(self).scratch_ids().len() as int,
                    k,
                    0,
                    session_v(sesh),
                    old(self).scratch_ids().len() as int,
                    at(events, st),
                    0,
                    old(expansions).events(),
                    old(expansions).used(),
                    old(expansions).used(),
                    expansions.used(),
                );
                lemma_bytes_from_mono(st, at(events, st), at(events, st) + 1);
            }
        }
        let ghost k2 = at(events, st);
        match consume_list_end(events, Ghost(st), Ghost(k2)) {
            Ok(()) => {},
            Err(e) => return Err(e),
        }
        Ok((name, req_params, rest_param, body))
    }

    /// The arguments of a call of `call`, from event `k`, then the end of
    /// the list opened at `p_span`.
    fn parse_call_fn<R: Reader>(
        &mut self,
        sesh: &mut Session,
        events: &mut R,
        expansions: &mut Expansions,
        call: SExpression,
        p_span: Span,
        Ghost(st): Ghost<Seq<ReadResult>>,
        Ghost(k): Ghost<int>,
    ) -> (r: Result<SExpression, SParseError>)
        requires
            old(self).inv(old(sesh)),
            stream_ok(st),
            reading(old(events), st, k),
            session_v(old(sesh)).expr_ok(call.value, old(sesh).expressions().len() as int),
        ensures
            (r matches Err(e) && e.value is ExpansionNeeded) ==> final(expansions).pending() is Some,
            final(expansions).events() == old(expansions).events(),
            final(self).inv(final(sesh)),
            session_v(final(sesh)).grows_from(session_v(old(sesh))),
            final(events).ready(),
            final(self).depth_left() == old(self).depth_left(),
            final(self).same_macros(old(self)),
            r is Ok ==> final(self).scratch_ids() == old(self).scratch_ids(),
            r is Ok ==> k < at(final(events), st) && reading(final(events), st, at(final(events), st)),
            r is Ok ==> session_v(final(sesh)).expr_ok(r->Ok_0.value, final(sesh).expressions().len() as int),
            claims_slack(old(self), old(sesh), old(expansions), st, k, 1) ==> expr_outcome(
                p_call_args(st, k, pushed_view(session_v(old(sesh)), call), p_span, old(self).macro_names(), old(expansions).events(), old(expansions).used(), old(self).depth_left()),
                r,
                old(self),
                final(self),
                old(sesh),
                final(sesh),
                old(expansions),
                final(expansions),
                final(events),
                st,
                k,
                1,
                Seq::empty(),
            ),
        decreases old(self).depth_left(), st.len() - k, 2int,
    {
        let ghost h = pushed_view(session_v(sesh), call);
        let call = match self.push_expr(sesh, call) {
            Ok(id) => id,
            Err(e) => return Err(e),
        };
        let ghost s1 = *sesh;
        let args = match self.parse_list_items(sesh, events, expansions, p_span, Ghost(st), Ghost(k)) {
            Ok(args) => args,
            Err(e) => {
                proof {
                    lemma_grows_trans(session_v(old(sesh)), session_v(&s1), session_v(sesh));
                }
                return Err(e);
            },
        };
        proof {
            lemma_grows_trans(session_v(old(sesh)), session_v(&s1), session_v(sesh));
        }
        let ghost k2 = at(events, st);
        match consume_list_end(events, Ghost(st), Ghost(k2)) {
            Ok(()) => {},
            Err(e) => return Err(e),
        }
        proof {
            if claims_slack(old(self), old(sesh), old(expansions), st, k, 1) && p_seq(st, k, Seq::empty(), old(self).macro_names(), old(expansions).events(), old(expansions).used(), old(self).depth_left()).0 is Ok {
                let vs = p_seq(st, k, Seq::empty(), old(self).macro_names(), old(expansions).events(), old(expansions).used(), old(self).depth_left()).0->Ok_0;
                let v = session_v(sesh);
                let e = Spanned { value: Expression::Call { call, args }, span: p_span };
                lemma_expr_frame(session_v(&s1), v, call.index());
                lemma_pushed_sub(v, e, call);
                lemma_pushed_children(
                    v,
                    e,
                    args.start(),
                    v.table.subrange(args.start(), args.start() + args.len()),
                    vs,
                );
            }
        }
        Ok(Expression::Call { call, args }.scopy(p_span))
    }

    /// The macro named by `name`, if the parser knows one.
    fn find_macro(&self, name: SymbolId) -> (r: Option<MacroDef>)
        ensures
            r is Some ==> self.knows_macros(),
            r matches Some(d) ==> d.name == name && exists|k: int|
                0 <= k < self.macros@.len() && #[trigger] self.macros@[k] == d,
            r is None ==> forall|k: int| 0 <= k < self.macros@.len() ==> (#[trigger] self.macros@[k]).name != name,
    {
        let mut k: usize = 0;
        while k < self.macros.len()
            invariant
                0 <= k <= self.macros@.len(),
                forall|m: int| 0 <= m < k ==> (#[trigger] self.macros@[m]).name != name,
            decreases self.macros@.len() - k,
        {
            if self.macros[k].name == name {
                return Some(self.macros[k]);
            }
            k = k + 1;
        }
        None
    }

    /// Whether the parser defined a macro named `name`.
    fn has_macro_named(&self, name: &str) -> (r: bool)
        ensures
            r == self.macro_names().contains(name@),
    {
        let mut k: usize = 0;
        while k < self.macro_texts.len()
            invariant
                0 <= k <= self.macro_texts@.len(),
                forall|m: int| 0 <= m < k ==> (#[trigger] self.macro_texts@[m])@ != name@,
            decreases self.macro_texts@.len() - k,
        {
            if str_eq(self.macro_texts[k].as_str(), name) {
                proof {
                    assert(self.macro_names()[k as int] == name@);
                }
                return true;
            }
            k = k + 1;
        }
        proof {
            if self.macro_names().contains(name@) {
                let m = choose|m: int| 0 <= m < self.macro_names().len() && self.macro_names()[m] == name@;
                assert(self.macro_texts@[m]@ == name@);
            }
        }
        false
    }

    /// The macro that the parser defined under the name `name`, if there is one.
    fn find_macro_named(&self, name: &str) -> (r: Option<MacroDef>)
        ensures
            r matches Some(d) ==> exists|k: int|
                0 <= k < self.macros@.len() && #[trigger] self.macros@[k] == d && k < self.macro_names().len()
                    && self.macro_names()[k] == name@,
            r is None && self.macros_named() ==> !self.macro_names().contains(name@),
    {
        let mut k: usize = 0;
        while k < self.macro_texts.len()
            invariant
                0 <= k <= self.macro_texts@.len(),
                forall|m: int| 0 <= m < k ==> (#[trigger] self.macro_texts@[m])@ != name@,
            decreases self.macro_texts@.len() - k,
        {
            if str_eq(self.macro_texts[k].as_str(), name) && k < self.macros.len() {
                proof {
                    assert(self.macro_names()[k as int] == name@);
                }
                return Some(self.macros[k]);
            }
            if str_eq(self.macro_texts[k].as_str(), name) {
                proof {
                    assert(!self.macros_named());
                }
                return None;
            }
            k = k + 1;
        }
        proof {
            if self.macro_names().contains(name@) {
                let m = choose|m: int| 0 <= m < self.macro_names().len() && self.macro_names()[m] == name@;
                assert(self.macro_texts@[m]@ == name@);
            }
        }
        None
    }

    /// A parser for the expansion of a macro call: it knows the same macros
    /// and may nest one level less.
    fn child(&self) -> (r: Parser)
        requires
            self.depth_left() > 0,
        ensures
            r.scratch@.len() == 0,
            r.fresh_names@.len() == 0,
            r.depth_left() == self.depth_left() - 1,
            r.same_macros(self),
    {
        let mut macros: Vec<MacroDef> = Vec::new();
        let mut macro_texts: Vec<String> = Vec::new();
        let mut k: usize = 0;
        while k < self.macros.len()
            invariant
                0 <= k <= self.macros@.len(),
                macros@ == self.macros@.take(k as int),
            decreases self.macros@.len() - k,
        {
            macros.push(self.macros[k]);
            k = k + 1;
            assert(macros@ =~= self.macros@.take(k as int));
        }
        let mut m: usize = 0;
        while m < self.macro_texts.len()
            invariant
                0 <= m <= self.macro_texts@.len(),
                macro_texts@ == self.macro_texts@.take(m as int),
            decreases self.macro_texts@.len() - m,
        {
            macro_texts.push(self.macro_texts[m].clone());
            m = m + 1;
            assert(macro_texts@ =~= self.macro_texts@.take(m as int));
        }
        proof {
            assert(macros@ =~= self.macros@);
            assert(macro_texts@ =~= self.macro_texts@);
        }
        let r = Parser { macros, macro_texts, scratch: Vec::new(), fresh_names: Vec::new(), depth: self.depth - 1 };
        r
    }

    /// Parses the expansion `expansion` of a macro call at `p_span` as one
    /// expression, with a parser that knows the same macros and may nest one
    /// level less.
    fn parse_expansion(
        &mut self,
        sesh: &mut Session,
        expansion: Vec<SEvent>,
        expansions: &mut Expansions,
        p_span: Span,
    ) -> (r: Result<SExpression, SParseError>)
        requires
            old(self).inv(old(sesh)),
            old(self).depth_left() > 0,
        ensures
            (r matches Err(e) && e.value is ExpansionNeeded) ==> final(expansions).pending() is Some,
            final(expansions).events() == old(expansions).events(),
            final(self).inv(final(sesh)),
            session_v(final(sesh)).grows_from(session_v(old(sesh))),
            *final(self) == *old(self),
            r is Ok ==> session_v(final(sesh)).expr_ok(r->Ok_0.value, final(sesh).expressions().len() as int),
            old(self).macros_named() && budget_ok(
                session_v(old(sesh)),
                0,
                value_stream(expansion@, p_span),
                0,
                old(expansions).events(),
                old(expansions).used(),
            ) ==> {
                let sp = p_expr(
                    value_stream(expansion@, p_span),
                    0,
                    false,
                    old(self).macro_names(),
                    old(expansions).events(),
                    old(expansions).used(),
                    old(self).depth_left() - 1,
                );
                match sp.0 {
                    Ok(v) => {
                        &&& r is Ok
                        &&& pushed_view(session_v(final(sesh)), r->Ok_0) == v
                        &&& final(expansions).used() == sp.2
                        &&& 0 <= sp.1 < value_stream(expansion@, p_span).len()
                        &&& within(
                            value_stream(expansion@, p_span),
                            session_v(old(sesh)),
                            0,
                            0,
                            session_v(final(sesh)),
                            0,
                            sp.1,
                            1,
                            old(expansions).events(),
                            old(expansions).used(),
                            final(expansions).used(),
                        )
                    },
                    Err(PFail::Error(e)) => r == Err::<SExpression, SParseError>(e),
                    Err(PFail::Opaque) => true,
                }
            },
        decreases old(self).depth_left(), 0int, 0int,
    {
        let mut reader = ValueReader::new(expansion, p_span);
        let ghost st2 = reader.stream();
        proof {
            reader.lemma_stream();
            assert(st2.subrange(0, st2.len() as int) =~= st2);
        }
        let mut parser = self.child();
        let ghost s1 = *sesh;
        let ghost c0 = parser;
        proof {
            assert(parser.macro_names() =~= self.macro_names());
            assert(parser.inv(sesh));
        }
        let r = parser.parse_expr(sesh, &mut reader, expansions, false, Ghost(st2), Ghost(0));
        proof {
            lemma_grows_trans(session_v(old(sesh)), session_v(&s1), session_v(sesh));
            self.lemma_inv_grows(&s1, sesh);
            assert(c0.scratch_ids().len() == 0);
        }
        r
    }

    /// A call of the macro `def`, from the first argument's event at `k`:
    /// the arguments are read as quoted expressions, the macro is expanded,
    /// and its expansion is parsed as the expression of the call.
    fn parse_call_macro<R: Reader>(
        &mut self,
        sesh: &mut Session,
        events: &mut R,
        expansions: &mut Expansions,
        def: &MacroDef,
        p_span: Span,
        Ghost(st): Ghost<Seq<ReadResult>>,
        Ghost(k): Ghost<int>,
    ) -> (r: Result<SExpression, SParseError>)
        requires
            old(self).inv(old(sesh)),
            stream_ok(st),
            reading(old(events), st, k),
        ensures
            (r matches Err(e) && e.value is ExpansionNeeded) ==> final(expansions).pending() is Some,
            final(expansions).events() == old(expansions).events(),
            final(self).inv(final(sesh)),
            session_v(final(sesh)).grows_from(session_v(old(sesh))),
            final(events).ready(),
            final(self).depth_left() == old(self).depth_left(),
            final(self).same_macros(old(self)),
            r is Ok ==> final(self).scratch_ids() == old(self).scratch_ids(),
            r is Ok ==> k < at(final(events), st) && reading(final(events), st, at(final(events), st)),
            r is Ok ==> session_v(final(sesh)).expr_ok(r->Ok_0.value, final(sesh).expressions().len() as int),
            claims_slack(old(self), old(sesh), old(expansions), st, k, 1) ==> expr_outcome(
                p_macro_call(st, k, p_span, old(self).macro_names(), old(expansions).events(), old(expansions).used(), old(self).depth_left()),
                r,
                old(self),
                final(self),
                old(sesh),
                final(sesh),
                old(expansions),
                final(expansions),
                final(events),
                st,
                k,
                1,
                Seq::empty(),
            ),
            claims_slack(old(self), old(sesh), old(expansions), st, k, 1) && p_list_q(st, k, p_span).0 is Ok
                && old(self).depth_left() > 0 && old(expansions).used() >= old(expansions).events().len() ==> (
            final(expansions).pending() matches Some(q) && q.def == *def && q.span == p_span && items_in(
                session_v(final(sesh)),
                q.args@,
                p_seq_q(st, k, Seq::empty()).0->Ok_0,
            )),
        decreases old(self).depth_left(), st.len() - k, 2int,
    {
        let args = match self.parse_items_quoted(sesh, events, expansions, p_span, Ghost(st), Ghost(k)) {
            Ok(args) => args,
            Err(e) => return Err(e),
        };
        let ghost s1 = *sesh;
        let ghost range = args;
        let ids = sesh.get_expressions(args);
        let mut args: Vec<ExpressionId> = Vec::new();
        let mut m: usize = 0;
        while m < ids.len()
            invariant
                0 <= m <= ids@.len(),
                args@ == ids@.take(m as int),
            decreases ids@.len() - m,
        {
            args.push(ids[m]);
            m = m + 1;
            assert(args@ =~= ids@.take(m as int));
        }
        proof {
            assert(args@ =~= ids@);
        }
        let ghost k2 = at(events, st);
        match consume_list_end(events, Ghost(st), Ghost(k2)) {
            Ok(()) => {},
            Err(e) => return Err(e),
        }
        if self.depth == 0 {
            return Err(ParseError::ExpansionTooDeep.scopy(p_span));
        }
        let ghost s2 = *sesh;
        proof {
            if claims_slack(old(self), old(sesh), old(expansions), st, k, 1) && p_list_q(st, k, p_span).0 is Ok {
                let vs = p_seq_q(st, k, Seq::empty()).0->Ok_0;
                assert(p_seq_q(st, k, Seq::empty()).0 is Ok);
                assert(range_holds(session_v(&s1), range, vs));
                assert(args@ == session_v(&s1).table.subrange(range.start(), range.start() + range.len()));
                assert(items_in(session_v(sesh), args@, vs));
                assert(self.macros_named());
            }
        }
        let ghost x1 = *expansions;
        let expanded = match expansions.expand(def, args.as_slice(), p_span) {
            Ok(events) => events,
            Err(e) => return Err(e),
        };
        let ghost x2 = *expansions;
        let ghost c = x1.used();
        let ghost xs = x1.events();
        proof {
            if claims_slack(old(self), old(sesh), old(expansions), st, k, 1) && p_list_q(st, k, p_span).0 is Ok {
                let st2 = value_stream(expanded@, p_span);
                lemma_expansion_budget(xs, c, p_span);
                lemma_xs_nonneg(xs, c);
                assert(budget_ok(session_v(sesh), 0, st2, 0, xs, c + 1));
            }
        }
        let r = self.parse_expansion(sesh, expanded, expansions, p_span);
        proof {
            lemma_grows_trans(session_v(old(sesh)), session_v(&s2), session_v(sesh));
            if claims_slack(old(self), old(sesh), old(expansions), st, k, 1) && p_list_q(st, k, p_span).0 is Ok {
                let st2 = value_stream(xs[c], p_span);
                lemma_expansion_budget(xs, c, p_span);
                lemma_bytes_from_mono(st, k2, k2 + 1);
                lemma_xs_nonneg(xs, c);
            }
        }
        r
    }

    /// The rest of a list opened at `p_span`, from event `i`, the first
    /// after the bracket: a special form, a macro call, a call, or `()`.
    #[verifier::rlimit(60)]
    #[verifier::spinoff_prover]
    fn parse_list<R: Reader>(
        &mut self,
        sesh: &mut Session,
        events: &mut R,
        expansions: &mut Expansions,
        p_span: Span,
        is_top: bool,
        Ghost(st): Ghost<Seq<ReadResult>>,
        Ghost(i): Ghost<int>,
    ) -> (r: Result<SExpression, SParseError>)
        requires
            old(self).inv(old(sesh)),
            stream_ok(st),
            reading(old(events), st, i),
        ensures
            (r matches Err(e) && e.value is ExpansionNeeded) ==> final(expansions).pending() is Some,
            final(expansions).events() == old(expansions).events(),
            final(self).inv(final(sesh)),
            session_v(final(sesh)).grows_from(session_v(old(sesh))),
            final(events).ready(),
            final(self).depth_left() == old(self).depth_left(),
            !is_top ==> final(self).same_macros(old(self)),
            r is Ok ==> final(self).scratch_ids() == old(self).scratch_ids(),
            r is Ok ==> i < at(final(events), st) && reading(final(events), st, at(final(events), st)),
            r is Ok ==> session_v(final(sesh)).expr_ok(r->Ok_0.value, final(sesh).expressions().len() as int),
            claims(old(self), old(sesh), old(expansions), st, i) ==> expr_outcome(
                p_list(st, i, p_span, is_top, old(self).macro_names(), old(expansions).events(), old(expansions).used(), old(self).depth_left()),
                r,
                old(self),
                final(self),
                old(sesh),
                final(sesh),
                old(expansions),
                final(expansions),
                final(events),
                st,
                i,
                -1,
                if is_top { list_def(st, i) } else { Seq::empty() },
            ),
        decreases old(self).depth_left(), st.len() - i, 3int,
    {
        proof {
            lemma_grows_refl(session_v(sesh));
        }
        let head = match peek_event(events, Ghost(st), Ghost(i)) {
            Ok(e) => list_head(e),
            Err(e) => return Err(e),
        };
        proof {
            if !(head is DefMacro) {
                assert(list_def(st, i) =~= Seq::<Seq<char>>::empty());
            }
        }
        match head {
            ListHead::Quote => self.parse_quote(sesh, events, expansions, is_top, Ghost(st), Ghost(i)),
            ListHead::Do => self.parse_do(sesh, events, expansions, p_span, Ghost(st), Ghost(i)),
            ListHead::If => self.parse_if(sesh, events, expansions, p_span, Ghost(st), Ghost(i)),
            ListHead::Fn => {
                let (_, req_params, rest_param, body) = match self.parse_callable(
                    sesh,
                    events,
                    expansions,
                    false,
                    Ghost(p_span),
                    Ghost(st),
                    Ghost(i),
                ) {
                    Ok(parts) => parts,
                    Err(e) => return Err(e),
                };
                proof {
                    if claims(old(self), old(sesh), old(expansions), st, i) {
                        let v = session_v(sesh);
                        let e = Spanned { value: Expression::Fn { req_params, rest_param, body }, span: p_span };
                        lemma_pushed_sub(v, e, body);
                    }
                }
                Ok(Expression::Fn { req_params, rest_param, body }.scopy(p_span))
            },
            ListHead::Def => self.parse_bind(sesh, events, expansions, p_span, BindKind::Def, Ghost(st), Ghost(i)),
            ListHead::Assign => self.parse_bind(sesh, events, expansions, p_span, BindKind::Assign, Ghost(st), Ghost(i)),
            ListHead::DefMacro => {
                if !is_top {
                    return Err(ParseError::MacroDefinitionNotInTopLevel.scopy(p_span));
                }
                let (name, req_params, rest_param, body) = match self.parse_callable(
                    sesh,
                    events,
                    expansions,
                    true,
                    Ghost(p_span),
                    Ghost(st),
                    Ghost(i),
                ) {
                    Ok(parts) => parts,
                    Err(e) => return Err(e),
                };
                let name = name.unwrap();
                let ghost ms = old(self).macro_names();
                let ghost xs0 = old(expansions).events();
                let ghost c0 = old(expansions).used();
                let ghost d0 = old(self).depth_left();
                let ghost n = sesh.names()[name.index()];
                proof {
                    if claims(old(self), old(sesh), old(expansions), st, i) && p_callable(st, i, p_span, true, ms, xs0, c0, d0).0 is Ok {
                        assert(list_def(st, i) == seq![n]);
                    }
                }
                let text = sesh.get_symbol(name).to_owned();
                if self.has_macro_named(text.as_str()) {
                    proof {
                        if claims(old(self), old(sesh), old(expansions), st, i) && p_callable(st, i, p_span, true, ms, xs0, c0, d0).0 is Ok {
                            assert(p_list(st, i, p_span, true, ms, xs0, c0, d0) == p_def_macro(st, i, p_span, ms, xs0, c0, d0));
                        }
                    }
                    return Err(ParseError::MacroAlreadyDefined.scopy(p_span));
                }
                let ghost before = self.macro_texts@;
                self.macros.push(MacroDef { name, req_params, rest_param, body });
                self.macro_texts.push(text);
                proof {
                    assert(self.macro_names() =~= old(self).macro_names().push(n));
                    if claims(old(self), old(sesh), old(expansions), st, i) && p_callable(st, i, p_span, true, ms, xs0, c0, d0).0 is Ok {
                        assert(p_list(st, i, p_span, true, ms, xs0, c0, d0) == p_def_macro(st, i, p_span, ms, xs0, c0, d0));
                        assert(p_def_macro(st, i, p_span, ms, xs0, c0, d0).1 == p_callable(st, i, p_span, true, ms, xs0, c0, d0).1);
                        assert(p_def_macro(st, i, p_span, ms, xs0, c0, d0).0 == made(ExprV::Null, p_span));
                    }
                    if self.macros_named() {
                        assert forall|k: int| 0 <= k < self.macros@.len() implies 0
                            <= (#[trigger] self.macros@[k]).name.index() < sesh.names().len()
                            && sesh.names()[self.macros@[k].name.index()] == self.macro_texts@[k]@ by {
                            if k < self.macros@.len() - 1 {
                                assert(self.macro_texts@[k] == before[k]);
                            }
                        }
                    }
                }
                let r = Ok(Expression::Null.scopy(p_span));
                proof {
                    if claims(old(self), old(sesh), old(expansions), st, i) && p_callable(st, i, p_span, true, ms, xs0, c0, d0).0 is Ok {
                        assert(pushed_view(session_v(sesh), r->Ok_0) == Spanned { value: ExprV::Null, span: p_span });
                        assert(self.macro_names() == old(self).macro_names() + list_def(st, i));
                    }
                }
                r
            },
            ListHead::End => {
                match next_event(events, Ghost(st), Ghost(i)) {
                    Ok(_) => {},
                    Err(e) => return Err(e),
                }
                Ok(Expression::Null.scopy(p_span))
            },
            ListHead::Other => {
                let call = match self.parse_expr(sesh, events, expansions, false, Ghost(st), Ghost(i)) {
                    Ok(call) => call,
                    Err(e) => return Err(e),
                };
                let ghost s1 = *sesh;
                let ghost k = at(events, st);
                proof {
                    if claims(old(self), old(sesh), old(expansions), st, i) && p_expr(st, i, false, old(self).macro_names(), old(expansions).events(), old(expansions).used(), old(self).depth_left()).0 is Ok {
                        assert(k == p_expr(st, i, false, old(self).macro_names(), old(expansions).events(), old(expansions).used(), old(self).depth_left()).1);
                        assert(claims_slack(self, sesh, expansions, st, k, 1));
                    }
                }
                let found = match call.value {
                    Expression::Symbol(name) => self.find_macro_named(sesh.get_symbol(name)),
                    _ => None,
                };
                let ghost ms = old(self).macro_names();
                let ghost sp = p_expr(st, i, false, ms, old(expansions).events(), old(expansions).used(), old(self).depth_left());
                proof {
                    if claims(old(self), old(sesh), old(expansions), st, i) && sp.0 is Ok {
                        let h = sp.0->Ok_0;
                        assert(h == pushed_view(session_v(sesh), call));
                        assert(expansions.used() == sp.2);
                        if found is Some {
                            let n = h.value->Symbol_0;
                            assert(ms.contains(n));
                        } else if call.value is Symbol {
                            assert(!ms.contains(h.value->Symbol_0));
                        }
                    }
                }
                let r = match found {
                    Some(def) => self.parse_call_macro(sesh, events, expansions, &def, p_span, Ghost(st), Ghost(k)),
                    None => self.parse_call_fn(sesh, events, expansions, call, p_span, Ghost(st), Ghost(k)),
                };
                proof {
                    lemma_grows_trans(session_v(old(sesh)), session_v(&s1), session_v(sesh));
                }
                r
            },
        }
    }

    /// Parses the whole stream: the range of the session's child table that
    /// lists its top-level expressions, or the first error.
    pub fn parse<R: Reader>(
        self,
        sesh: &mut Session,
        events: &mut R,
        expansions: &mut Expansions,
    ) -> (r: Result<ExpressionRange, SParseError>)
        requires
            self.fresh(),
            old(sesh).wf(),
            session_v(old(sesh)).wf(),
            old(events).ready(),
        ensures
            (r matches Err(e) && e.value is ExpansionNeeded) ==> final(expansions).pending() is Some,
            final(expansions).events() == old(expansions).events(),
            final(sesh).wf(),
            session_v(final(sesh)).wf(),
            session_v(final(sesh)).grows_from(session_v(old(sesh))),
            r is Ok ==> session_v(final(sesh)).children_ok(r->Ok_0, final(sesh).expressions().len() as int),
            !self.knows_macros() && budget_ok(
                session_v(old(sesh)),
                0,
                old(events).stream(),
                0,
                old(expansions).events(),
                old(expansions).used(),
            ) ==> match p_all(
                old(events).stream(),
                0,
                Seq::empty(),
                Seq::empty(),
                old(expansions).events(),
                old(expansions).used(),
                self.depth_left(),
            ).0 {
                Ok(vs) => r is Ok && range_holds(session_v(final(sesh)), r->Ok_0, vs),
                Err(PFail::Error(e)) => r == Err::<ExpressionRange, SParseError>(e),
                Err(PFail::Opaque) => true,
            },
    {
        let mut parser = self;
        let ghost st = events.stream();
        let ghost s0 = *sesh;
        let ghost p0 = parser;
        let ghost x0 = *expansions;
        let ghost mut j: int = 0;
        let ghost mut acc: Seq<SExprV> = Seq::empty();
        proof {
            events.lemma_stream();
            assert(st.subrange(0, st.len() as int) =~= st);
            lemma_grows_refl(session_v(sesh));
            assert(parser.scratch@.skip(0) =~= Seq::<ExpressionId>::empty());
            assert(claims(&p0, &s0, &x0, st, 0) == (!self.knows_macros() && budget_ok(
                session_v(old(sesh)),
                0,
                old(events).stream(),
                0,
                old(expansions).events(),
                old(expansions).used(),
            )));
            assert(items_in(session_v(sesh), parser.scratch_ids(), acc));
            assert(parser.macro_names() =~= Seq::<Seq<char>>::empty());
        }
        loop
            invariant
                parser.inv(sesh),
                stream_ok(st),
                reading(events, st, j),
                0 <= j,
                st == old(events).stream(),
                s0 == *old(sesh),
                p0 == self,
                x0 == *old(expansions),
                expansions.events() == x0.events(),
                p0.fresh(),
                p0.scratch_ids().len() == 0,
                parser.depth_left() == p0.depth_left(),
                session_v(sesh).grows_from(session_v(&s0)),
                claims(&p0, &s0, &x0, st, 0) && !is_opaque(p_all(st, 0, Seq::empty(), Seq::empty(), x0.events(), x0.used(), p0.depth_left()).0) ==> {
                    &&& p_all(st, 0, Seq::empty(), Seq::empty(), x0.events(), x0.used(), p0.depth_left()) == p_all(st, j, acc, parser.macro_names(), x0.events(), expansions.used(), p0.depth_left())
                    &&& items_in(session_v(sesh), parser.scratch_ids(), acc)
                    &&& within(st, session_v(&s0), 0, 0, session_v(sesh), parser.scratch_ids().len() as int, j, 0, x0.events(), x0.used(), expansions.used())
                    &&& parser.macros_named()
                },
            decreases st.len() - j,
        {
            let is_end = match peek_event(events, Ghost(st), Ghost(j)) {
                Ok(e) => matches!(e.value, Event::SourceEnd),
                Err(e) => return Err(e),
            };
            if is_end {
                let ghost sb = *sesh;
                let ghost xb = *expansions;
            let ghost xb = *expansions;
                let ghost ids = parser.scratch@;
                let range = match parser.push_scratch(sesh, 0, Span::new(0, 0)) {
                    Ok(range) => range,
                    Err(e) => {
                        proof {
                            lemma_grows_trans(session_v(&s0), session_v(&sb), session_v(sesh));
                        }
                        return Err(e);
                    },
                };
                proof {
                    lemma_grows_trans(session_v(&s0), session_v(&sb), session_v(sesh));
                    let v = session_v(sesh);
                    assert(ids.skip(0) =~= ids);
                    assert(v.table.subrange(range.start(), range.start() + range.len()) =~= ids);
                    assert forall|k: int| range.start() <= k < range.start() + range.len() implies 0
                        <= #[trigger] v.table[k].index() < v.exprs.len() by {
                        assert(v.table[k] == ids[k - range.start()]);
                    }
                    if claims(&p0, &s0, &x0, st, 0) && !is_opaque(p_all(st, 0, Seq::empty(), Seq::empty(), x0.events(), x0.used(), p0.depth_left()).0) {
                        lemma_items_frame(session_v(&sb), v, ids, acc);
                    }
                }
                return Ok(range);
            }
            let ghost pb = parser;
            let ghost sb = *sesh;
            let ghost xb = *expansions;
            proof {
                if claims(&p0, &s0, &x0, st, 0) && !is_opaque(p_all(st, 0, Seq::empty(), Seq::empty(), x0.events(), x0.used(), p0.depth_left()).0) {
                    lemma_claims_move(&p0, &s0, &x0, &parser, sesh, expansions, st, 0, j, 0);
                }
            }
            let e = match parser.parse_expr(sesh, events, expansions, true, Ghost(st), Ghost(j)) {
                Ok(e) => e,
                Err(e) => {
                    proof {
                        lemma_grows_trans(session_v(&s0), session_v(&sb), session_v(sesh));
                    }
                    return Err(e);
                },
            };
            let ghost sc = *sesh;
            proof {
                lemma_grows_trans(session_v(&s0), session_v(&sb), session_v(sesh));
            }
            let id = match parser.push_expr(sesh, e) {
                Ok(id) => id,
                Err(e) => {
                    proof {
                        lemma_grows_trans(session_v(&s0), session_v(&sc), session_v(sesh));
                    }
                    return Err(e);
                },
            };
            proof {
                lemma_grows_trans(session_v(&s0), session_v(&sc), session_v(sesh));
            }
            let ghost before_ids = parser.scratch@;
            parser.scratch.push(id);
            proof {
                let k = at(events, st);
                if claims(&p0, &s0, &x0, st, 0) && !is_opaque(p_all(st, 0, Seq::empty(), Seq::empty(), x0.events(), x0.used(), p0.depth_left()).0) {
                    let c = pushed_view(session_v(&sc), e);
                    assert(k == p_expr(st, j, true, pb.macro_names(), x0.events(), xb.used(), p0.depth_left()).1);
                    assert(p_all(st, j, acc, pb.macro_names(), x0.events(), xb.used(), p0.depth_left()) == p_all(st, k, acc.push(c), parser.macro_names(), x0.events(), expansions.used(), p0.depth_left()));
                    lemma_grows_trans(session_v(&sb), session_v(&sc), session_v(sesh));
                    lemma_items_frame(session_v(&sb), session_v(sesh), before_ids, acc);
                    assert(parser.scratch@ =~= before_ids.push(id));
                    assert(session_v(sesh).expr(id.index()) == c);
                    lemma_items_push(session_v(sesh), before_ids, acc, id, c);
                    lemma_within_trans(
                        st,
                        session_v(&s0),
                        0,
                        0,
                        session_v(&sb),
                        before_ids.len() as int,
                        j,
                        0,
                        session_v(&sc),
                        before_ids.len() as int,
                        k,
                        1,
                        x0.events(),
                        x0.used(),
                        xb.used(),
                        expansions.used(),
                    );
                    acc = acc.push(c);
                }
                j = k;
            }
        }
    }

    /// Only the names of the session changed, and only by growing.
    proof fn lemma_inv_names(&self, sesh: &Session, sesh2: &Session)
        requires
            self.inv(sesh),
            sesh2.wf(),
            sesh2.expressions() == sesh.expressions(),
            sesh2.expression_table() == sesh.expression_table(),
            sesh2.params() == sesh.params(),
            sesh2.text() == sesh.text(),
            sesh.names().is_prefix_of(sesh2.names()),
        ensures
            session_v(sesh2).wf(),
            session_v(sesh2).grows_from(session_v(sesh)),
            self.inv(sesh2),
    {
        let v = session_v(sesh);
        let v2 = session_v(sesh2);
        lemma_grows_refl(v);
        assert forall|i: int| 0 <= i < v2.exprs.len() implies v2.expr_ok(#[trigger] v2.exprs[i].value, i) by {
            assert(v.expr_ok(v.exprs[i].value, i));
        }
        assert forall|k: int| 0 <= k < v2.params.len() implies v2.symbol_ok(#[trigger] v2.params[k]) by {
            assert(v.symbol_ok(v.params[k]));
        }
        self.lemma_inv_grows(sesh, sesh2);
    }
}

} // verus!
