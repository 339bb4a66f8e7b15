use crate::expression::{BindKind, Expression, ExpressionId, SExpression, SymbolId};
use crate::runtime::session::{ParamRange, Session, StringRange};
use crate::span::{Span, Spanned};
use crate::text::{byte_pos, lemma_byte_pos_mono};
use crate::util::ArenaRange;
use vstd::prelude::*;

verus! {

/// The mathematical value of an expression of a session: names, texts and
/// sub-expressions in place of the ids that refer to them.
pub enum ExprV {
    Null,
    Boolean(bool),
    Integer(i64),
    Float(Seq<char>),
    String(Seq<char>),
    Symbol(Seq<char>),
    SymbolQ(Seq<char>),
    List(Seq<Spanned<ExprV>>),
    Do(Seq<Spanned<ExprV>>),
    Call { call: Box<Spanned<ExprV>>, args: Seq<Spanned<ExprV>> },
    If {
        cond: Box<Spanned<ExprV>>,
        t_branch: Box<Spanned<ExprV>>,
        f_branch: Box<Spanned<ExprV>>,
    },
    Fn { req_params: Seq<Seq<char>>, rest_param: Option<Seq<char>>, body: Box<Spanned<ExprV>> },
    Bind { kind: BindKind, name: Seq<char>, value: Box<Spanned<ExprV>> },
}

pub type SExprV = Spanned<ExprV>;

/// What a session holds, as plain sequences.
pub struct SessionV {
    pub exprs: Seq<SExpression>,
    pub table: Seq<ExpressionId>,
    pub names: Seq<Seq<char>>,
    pub params: Seq<SymbolId>,
    pub text: Seq<char>,
}

pub open spec fn session_v(s: &Session) -> SessionV {
    SessionV {
        exprs: s.expressions(),
        table: s.expression_table(),
        names: s.names(),
        params: s.params(),
        text: s.text(),
    }
}

/// The index of the character at byte offset `b` of `t`.
pub open spec fn char_at(t: Seq<char>, b: int) -> int {
    choose|i: int| 0 <= i <= t.len() && byte_pos(t, i) == b
}

/// Whether `r` runs between two character boundaries of `t`.
pub open spec fn range_ok(t: Seq<char>, r: StringRange) -> bool {
    exists|i: int, j: int|
        0 <= i <= j <= t.len() && byte_pos(t, i) == r.start() && byte_pos(t, j) == r.end()
}

/// The characters of `t` that the byte range `r` covers.
pub open spec fn range_text(t: Seq<char>, r: StringRange) -> Seq<char> {
    t.subrange(char_at(t, r.start()), char_at(t, r.end()))
}

/// A character index is the one its byte offset names.
pub proof fn lemma_char_at(t: Seq<char>, i: int)
    requires
        0 <= i <= t.len(),
    ensures
        char_at(t, byte_pos(t, i) as int) == i,
{
    let b = byte_pos(t, i) as int;
    assert(0 <= i <= t.len() && byte_pos(t, i) == b);
    let k = char_at(t, b);
    if k < i {
        lemma_byte_pos_mono(t, k, i);
    } else if i < k {
        lemma_byte_pos_mono(t, i, k);
    }
}

/// The range `i..j` of characters of `t`, given as byte offsets, covers
/// exactly those characters.
pub proof fn lemma_range_text(t: Seq<char>, i: int, j: int, r: StringRange)
    requires
        0 <= i <= j <= t.len(),
        r.start() == byte_pos(t, i),
        r.end() == byte_pos(t, j),
    ensures
        range_ok(t, r),
        range_text(t, r) == t.subrange(i, j),
{
    lemma_char_at(t, i);
    lemma_char_at(t, j);
}

/// Growing a text keeps the byte offsets of its characters.
pub proof fn lemma_byte_pos_prefix(t: Seq<char>, t2: Seq<char>, i: int)
    requires
        t.is_prefix_of(t2),
        0 <= i <= t.len(),
    ensures
        byte_pos(t2, i) == byte_pos(t, i),
{
    assert(t2.take(i) =~= t.take(i));
}

/// Growing a text keeps what its ranges cover.
pub proof fn lemma_range_text_prefix(t: Seq<char>, t2: Seq<char>, r: StringRange)
    requires
        t.is_prefix_of(t2),
        range_ok(t, r),
    ensures
        range_ok(t2, r),
        range_text(t2, r) == range_text(t, r),
{
    let (i, j) = choose|i: int, j: int|
        0 <= i <= j <= t.len() && byte_pos(t, i) == r.start() && byte_pos(t, j) == r.end();
    lemma_byte_pos_prefix(t, t2, i);
    lemma_byte_pos_prefix(t, t2, j);
    lemma_range_text(t, i, j, r);
    lemma_range_text(t2, i, j, r);
    assert(t2.subrange(i, j) =~= t.subrange(i, j));
}

impl SessionV {
    /// `self` holds everything `old` holds, and maybe more.
    pub open spec fn grows_from(self, old: SessionV) -> bool {
        &&& old.exprs.is_prefix_of(self.exprs)
        &&& old.table.is_prefix_of(self.table)
        &&& old.names.is_prefix_of(self.names)
        &&& old.params.is_prefix_of(self.params)
        &&& old.text.is_prefix_of(self.text)
    }

    /// Whether `r` is a range of the child table whose ids all come before
    /// index `i`.
    pub open spec fn children_ok(self, r: ArenaRange<SExpression>, i: int) -> bool {
        &&& 0 <= r.start()
        &&& 0 <= r.len()
        &&& r.start() + r.len() <= self.table.len()
        &&& forall|k: int|
            r.start() <= k < r.start() + r.len() ==> 0 <= #[trigger] self.table[k].index() < i
    }

    pub open spec fn symbol_ok(self, s: SymbolId) -> bool {
        0 <= s.index() < self.names.len()
    }

    pub open spec fn params_ok(self, r: ParamRange) -> bool {
        0 <= r.start() <= r.end() <= self.params.len()
    }

    /// Whether the expression `e`, stored at index `i`, refers only to what
    /// exists, and to sub-expressions before it.
    pub open spec fn expr_ok(self, e: Expression, i: int) -> bool {
        match e {
            Expression::Float(r) => range_ok(self.text, r),
            Expression::String(r) => range_ok(self.text, r),
            Expression::Symbol(s) => self.symbol_ok(s),
            Expression::SymbolQ(s) => self.symbol_ok(s),
            Expression::List(r) => self.children_ok(r, i),
            Expression::Do(r) => self.children_ok(r, i),
            Expression::Call { call, args } => 0 <= call.index() < i && self.children_ok(args, i),
            Expression::If { cond, t_branch, f_branch } => {
                &&& 0 <= cond.index() < i
                &&& 0 <= t_branch.index() < i
                &&& 0 <= f_branch.index() < i
            },
            Expression::Fn { req_params, rest_param, body } => {
                &&& self.params_ok(req_params)
                &&& (rest_param matches Some(s) ==> self.symbol_ok(s))
                &&& 0 <= body.index() < i
            },
            Expression::Bind { kind, name, value } => self.symbol_ok(name) && 0 <= value.index() < i,
            _ => true,
        }
    }

    /// Every stored expression and parameter refers only to what exists.
    pub open spec fn wf(self) -> bool {
        &&& forall|i: int| 0 <= i < self.exprs.len() ==> self.expr_ok(#[trigger] self.exprs[i].value, i)
        &&& forall|k: int| 0 <= k < self.params.len() ==> self.symbol_ok(#[trigger] self.params[k])
    }

    pub open spec fn param_names(self, r: ParamRange) -> Seq<Seq<char>> {
        Seq::new(
            (r.end() - r.start()) as nat,
            |k: int| self.names[self.params[r.start() + k].index()],
        )
    }

    /// The tree of the expression at index `id`.
    pub open spec fn expr(self, id: int) -> SExprV
        decreases id, 1int, 0int,
    {
        if 0 <= id < self.exprs.len() {
            let e = self.exprs[id];
            Spanned {
                value: match e.value {
                    Expression::Null => ExprV::Null,
                    Expression::Boolean(v) => ExprV::Boolean(v),
                    Expression::Integer(v) => ExprV::Integer(v),
                    Expression::Float(r) => ExprV::Float(range_text(self.text, r)),
                    Expression::String(r) => ExprV::String(range_text(self.text, r)),
                    Expression::Symbol(s) => ExprV::Symbol(self.names[s.index()]),
                    Expression::SymbolQ(s) => ExprV::SymbolQ(self.names[s.index()]),
                    Expression::List(r) => ExprV::List(self.children(id, r.start(), r.len())),
                    Expression::Do(r) => ExprV::Do(self.children(id, r.start(), r.len())),
                    Expression::Call { call, args } => ExprV::Call {
                        call: Box::new(self.sub(id, call)),
                        args: self.children(id, args.start(), args.len()),
                    },
                    Expression::If { cond, t_branch, f_branch } => ExprV::If {
                        cond: Box::new(self.sub(id, cond)),
                        t_branch: Box::new(self.sub(id, t_branch)),
                        f_branch: Box::new(self.sub(id, f_branch)),
                    },
                    Expression::Fn { req_params, rest_param, body } => ExprV::Fn {
                        req_params: self.param_names(req_params),
                        rest_param: match rest_param {
                            Some(s) => Some(self.names[s.index()]),
                            None => None,
                        },
                        body: Box::new(self.sub(id, body)),
                    },
                    Expression::Bind { kind, name, value } => ExprV::Bind {
                        kind,
                        name: self.names[name.index()],
                        value: Box::new(self.sub(id, value)),
                    },
                },
                span: e.span,
            }
        } else {
            Spanned { value: ExprV::Null, span: Span { start: 0, end: 0 } }
        }
    }

    /// The tree of `child`, which must come before `parent`.
    pub open spec fn sub(self, parent: int, child: ExpressionId) -> SExprV
        decreases parent, 0int, 0int,
    {
        if 0 <= child.index() < parent {
            self.expr(child.index())
        } else {
            Spanned { value: ExprV::Null, span: Span { start: 0, end: 0 } }
        }
    }

    /// The trees of the `len` ids of the child table from `start`, which
    /// must all come before `parent`.
    pub open spec fn children(self, parent: int, start: int, len: int) -> Seq<SExprV>
        decreases parent, 0int, len,
    {
        if len <= 0 {
            Seq::empty()
        } else {
            self.children(parent, start, len - 1).push(self.sub(parent, self.table[start + len - 1]))
        }
    }
}

/// The trees of a range of the child table are those of the ids listed there.
pub proof fn lemma_children(v: SessionV, parent: int, start: int, len: int)
    requires
        0 <= start,
        0 <= len,
        start + len <= v.table.len(),
        forall|k: int| start <= k < start + len ==> 0 <= #[trigger] v.table[k].index() < parent,
    ensures
        v.children(parent, start, len) =~= Seq::new(
            len as nat,
            |k: int| v.expr(v.table[start + k].index()),
        ),
    decreases len,
{
    if len > 0 {
        assert forall|k: int| start <= k < start + len - 1 implies 0 <= #[trigger] v.table[k].index()
            < parent by {}
        lemma_children(v, parent, start, len - 1);
        let c = v.table[start + len - 1];
        assert(0 <= c.index() < parent);
        assert(v.sub(parent, c) == v.expr(c.index()));
        let s = v.children(parent, start, len);
        assert forall|k: int| 0 <= k < len implies #[trigger] s[k] == v.expr(
            v.table[start + k].index(),
        ) by {
            if k < len - 1 {
                assert(s[k] == v.children(parent, start, len - 1)[k]);
            }
        }
    }
}

/// Growing a well-formed session keeps the trees of its expressions.
pub proof fn lemma_expr_frame(v: SessionV, v2: SessionV, id: int)
    requires
        v.wf(),
        v2.grows_from(v),
        0 <= id < v.exprs.len(),
    ensures
        v2.expr(id) == v.expr(id),
    decreases id,
{
    assert(v2.exprs[id] == v.exprs[id]);
    let e = v.exprs[id].value;
    assert(v.expr_ok(e, id));
    match e {
        Expression::Float(r) => {
            lemma_range_text_prefix(v.text, v2.text, r);
        },
        Expression::String(r) => {
            lemma_range_text_prefix(v.text, v2.text, r);
        },
        Expression::Symbol(s) => {
            assert(v2.names[s.index()] == v.names[s.index()]);
        },
        Expression::SymbolQ(s) => {
            assert(v2.names[s.index()] == v.names[s.index()]);
        },
        Expression::List(r) => {
            lemma_children_frame(v, v2, id, r.start(), r.len());
        },
        Expression::Do(r) => {
            lemma_children_frame(v, v2, id, r.start(), r.len());
        },
        Expression::Call { call, args } => {
            lemma_expr_frame(v, v2, call.index());
            lemma_children_frame(v, v2, id, args.start(), args.len());
        },
        Expression::If { cond, t_branch, f_branch } => {
            lemma_expr_frame(v, v2, cond.index());
            lemma_expr_frame(v, v2, t_branch.index());
            lemma_expr_frame(v, v2, f_branch.index());
        },
        Expression::Fn { req_params, rest_param, body } => {
            lemma_expr_frame(v, v2, body.index());
            assert forall|k: int| 0 <= k < req_params.end() - req_params.start() implies v2.param_names(
                req_params,
            )[k] == v.param_names(req_params)[k] by {
                let p = v.params[req_params.start() + k];
                assert(v2.params[req_params.start() + k] == p);
                assert(v.symbol_ok(p));
                assert(v2.names[p.index()] == v.names[p.index()]);
            }
            assert(v2.param_names(req_params) =~= v.param_names(req_params));
            match rest_param {
                Some(s) => {
                    assert(v2.names[s.index()] == v.names[s.index()]);
                },
                None => {},
            }
        },
        Expression::Bind { kind, name, value } => {
            lemma_expr_frame(v, v2, value.index());
            assert(v2.names[name.index()] == v.names[name.index()]);
        },
        _ => {},
    }
}

pub proof fn lemma_children_frame(v: SessionV, v2: SessionV, parent: int, start: int, len: int)
    requires
        v.wf(),
        v2.grows_from(v),
        0 <= parent <= v.exprs.len(),
        0 <= start,
        0 <= len,
        start + len <= v.table.len(),
        forall|k: int| start <= k < start + len ==> 0 <= #[trigger] v.table[k].index() < parent,
    ensures
        v2.children(parent, start, len) == v.children(parent, start, len),
    decreases parent, len,
{
    if len > 0 {
        lemma_children_frame(v, v2, parent, start, len - 1);
        let c = v.table[start + len - 1];
        assert(v2.table[start + len - 1] == c);
        assert(0 <= c.index() < parent);
        lemma_expr_frame(v, v2, c.index());
        assert(v2.sub(parent, c) == v.sub(parent, c));
    }
}

} // verus!
