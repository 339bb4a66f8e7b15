use crate::display::{int_text, push_i64};
use crate::span::{Span, Spanned};
use vstd::prelude::*;
use vstd::string::StringExecFns;

verus! {

pub type SExpression<'s> = Spanned<Expression<'s>>;

/// A lowered expression; sub-expressions are referred to by their ids in an
/// expression tree. A floating-point literal is kept as its text.
#[derive(Debug, Clone, PartialEq)]
pub enum Expression<'s> {
    Null,
    Boolean(bool),
    Integer(i64),
    Float(&'s str),
    String(&'s str),
    Symbol(&'s str),
    Call { call: ExpressionID, args: Vec<ExpressionID> },
    If { cond: ExpressionID, t_branch: ExpressionID, f_branch: ExpressionID },
    Function { args: Vec<&'s str>, body: Vec<ExpressionID> },
    Define { name: &'s str, value: ExpressionID },
}

#[derive(Debug, Copy, Clone, PartialEq)]
pub struct ExpressionID(usize);

impl ExpressionID {
    pub closed spec fn index(self) -> int {
        self.0 as int
    }
}

/// The mathematical value of a lowered expression: sub-expressions in place.
pub enum LoweredV {
    Null,
    Boolean(bool),
    Integer(i64),
    Float(Seq<char>),
    String(Seq<char>),
    Symbol(Seq<char>),
    Call { call: Box<Spanned<LoweredV>>, args: Seq<Spanned<LoweredV>> },
    If {
        cond: Box<Spanned<LoweredV>>,
        t_branch: Box<Spanned<LoweredV>>,
        f_branch: Box<Spanned<LoweredV>>,
    },
    Function { args: Seq<Seq<char>>, body: Seq<Spanned<LoweredV>> },
    Define { name: Seq<char>, value: Box<Spanned<LoweredV>> },
}

pub type SLoweredV = Spanned<LoweredV>;

pub open spec fn default_lowered() -> SLoweredV {
    Spanned { value: LoweredV::Null, span: Span { start: 0, end: 0 } }
}

pub open spec fn names_view(names: Seq<&str>) -> Seq<Seq<char>> {
    names.map_values(|s: &str| s@)
}

/// Whether every id that the expression at index `i` refers to is below `i`.
pub open spec fn expression_ok(e: Expression, i: int) -> bool {
    match e {
        Expression::Call { call, args } => {
            &&& 0 <= call.index() < i
            &&& forall|k: int| 0 <= k < args@.len() ==> 0 <= #[trigger] args@[k].index() < i
        },
        Expression::If { cond, t_branch, f_branch } => {
            &&& 0 <= cond.index() < i
            &&& 0 <= t_branch.index() < i
            &&& 0 <= f_branch.index() < i
        },
        Expression::Function { args, body } => forall|k: int|
            0 <= k < body@.len() ==> 0 <= #[trigger] body@[k].index() < i,
        Expression::Define { name, value } => 0 <= value.index() < i,
        _ => true,
    }
}

pub open spec fn expressions_wf(exprs: Seq<SExpression>) -> bool {
    forall|i: int| 0 <= i < exprs.len() ==> expression_ok(#[trigger] exprs[i].value, i)
}

/// The expression tree rooted at the expression with index `id`.
pub open spec fn expression_view(exprs: Seq<SExpression>, id: int) -> SLoweredV
    decreases id, 1int, 0int,
{
    if 0 <= id < exprs.len() {
        let e = exprs[id];
        Spanned {
            value: match e.value {
                Expression::Null => LoweredV::Null,
                Expression::Boolean(v) => LoweredV::Boolean(v),
                Expression::Integer(v) => LoweredV::Integer(v),
                Expression::Float(t) => LoweredV::Float(t@),
                Expression::String(t) => LoweredV::String(t@),
                Expression::Symbol(t) => LoweredV::Symbol(t@),
                Expression::Call { call, args } => LoweredV::Call {
                    call: Box::new(sub_view(exprs, id, call)),
                    args: ids_view(exprs, id, args@),
                },
                Expression::If { cond, t_branch, f_branch } => LoweredV::If {
                    cond: Box::new(sub_view(exprs, id, cond)),
                    t_branch: Box::new(sub_view(exprs, id, t_branch)),
                    f_branch: Box::new(sub_view(exprs, id, f_branch)),
                },
                Expression::Function { args, body } => LoweredV::Function {
                    args: names_view(args@),
                    body: ids_view(exprs, id, body@),
                },
                Expression::Define { name, value } => LoweredV::Define {
                    name: name@,
                    value: Box::new(sub_view(exprs, id, value)),
                },
            },
            span: e.span,
        }
    } else {
        default_lowered()
    }
}

/// The tree of `child`, which must come before `parent`.
pub open spec fn sub_view(exprs: Seq<SExpression>, parent: int, child: ExpressionID) -> SLoweredV
    decreases parent, 0int, 0int,
{
    if 0 <= child.index() < parent {
        expression_view(exprs, child.index())
    } else {
        default_lowered()
    }
}

/// The trees of `ids`, which must all come before `parent`.
pub open spec fn ids_view(exprs: Seq<SExpression>, parent: int, ids: Seq<ExpressionID>) -> Seq<SLoweredV>
    decreases parent, 0int, ids.len(),
{
    if ids.len() == 0 {
        Seq::empty()
    } else {
        ids_view(exprs, parent, ids.drop_last()).push(sub_view(exprs, parent, ids.last()))
    }
}

pub proof fn lemma_ids_view(exprs: Seq<SExpression>, parent: int, ids: Seq<ExpressionID>)
    requires
        forall|k: int| 0 <= k < ids.len() ==> 0 <= #[trigger] ids[k].index() < parent,
    ensures
        ids_view(exprs, parent, ids) =~= Seq::new(
            ids.len(),
            |k: int| expression_view(exprs, ids[k].index()),
        ),
    decreases ids.len(),
{
    if ids.len() > 0 {
        let init = ids.drop_last();
        assert forall|k: int| 0 <= k < init.len() implies 0 <= #[trigger] init[k].index() < parent by {
            assert(init[k] == ids[k]);
        }
        lemma_ids_view(exprs, parent, init);
        assert(0 <= ids.last().index() < parent);
        assert(sub_view(exprs, parent, ids.last()) == expression_view(exprs, ids.last().index()));
        assert forall|k: int| 0 <= k < ids.len() implies #[trigger] ids_view(exprs, parent, ids)[k]
            == expression_view(exprs, ids[k].index()) by {
            if k < init.len() {
                assert(init[k] == ids[k]);
            }
        }
    }
}

/// Adding expressions leaves the trees of existing ones as they were.
pub proof fn lemma_expression_view_frame(exprs: Seq<SExpression>, exprs2: Seq<SExpression>, id: int)
    requires
        expressions_wf(exprs),
        exprs.is_prefix_of(exprs2),
        0 <= id < exprs.len(),
    ensures
        expression_view(exprs2, id) == expression_view(exprs, id),
    decreases id,
{
    assert(exprs2[id] == exprs[id]);
    let e = exprs[id].value;
    assert(expression_ok(e, id));
    match e {
        Expression::Call { call, args } => {
            lemma_expression_view_frame(exprs, exprs2, call.index());
            lemma_ids_view(exprs, id, args@);
            lemma_ids_view(exprs2, id, args@);
            assert forall|k: int| 0 <= k < args@.len() implies expression_view(
                exprs2,
                #[trigger] args@[k].index(),
            ) == expression_view(exprs, args@[k].index()) by {
                lemma_expression_view_frame(exprs, exprs2, args@[k].index());
            }
            assert(ids_view(exprs2, id, args@) =~= ids_view(exprs, id, args@));
        },
        Expression::If { cond, t_branch, f_branch } => {
            lemma_expression_view_frame(exprs, exprs2, cond.index());
            lemma_expression_view_frame(exprs, exprs2, t_branch.index());
            lemma_expression_view_frame(exprs, exprs2, f_branch.index());
        },
        Expression::Function { args, body } => {
            lemma_ids_view(exprs, id, body@);
            lemma_ids_view(exprs2, id, body@);
            assert forall|k: int| 0 <= k < body@.len() implies expression_view(
                exprs2,
                #[trigger] body@[k].index(),
            ) == expression_view(exprs, body@[k].index()) by {
                lemma_expression_view_frame(exprs, exprs2, body@[k].index());
            }
            assert(ids_view(exprs2, id, body@) =~= ids_view(exprs, id, body@));
        },
        Expression::Define { name, value } => {
            lemma_expression_view_frame(exprs, exprs2, value.index());
        },
        _ => {},
    }
}

pub open spec fn bool_text(b: bool) -> Seq<char> {
    if b {
        "true"@
    } else {
        "false"@
    }
}

/// How a lowered expression is shown: its variant, then its parts in
/// brackets, separated by `, `. A floating-point literal shows its text.
pub open spec fn lowered_text(v: SLoweredV) -> Seq<char>
    decreases v, 0int,
{
    match v.value {
        LoweredV::Null => "Null"@,
        LoweredV::Boolean(b) => "Boolean("@ + bool_text(b) + ")"@,
        LoweredV::Integer(i) => "Integer("@ + int_text(i as int) + ")"@,
        LoweredV::Float(t) => "Float("@ + t + ")"@,
        LoweredV::String(t) => "String("@ + t + ")"@,
        LoweredV::Symbol(t) => "Symbol("@ + t + ")"@,
        LoweredV::Call { call, args } => "Call("@ + lowered_text(*call) + ", "@ + joined_text(
            args,
            args.len() as int,
        ) + ")"@,
        LoweredV::If { cond, t_branch, f_branch } => "If("@ + lowered_text(*cond) + ", "@
            + lowered_text(*t_branch) + ", "@ + lowered_text(*f_branch) + ")"@,
        LoweredV::Function { args, body } => "Function("@ + names_text(args, args.len() as int)
            + ", "@ + joined_text(body, body.len() as int) + ")"@,
        LoweredV::Define { name, value } => "Define("@ + name + ", "@ + lowered_text(*value)
            + ")"@,
    }
}

/// The first `n` expressions of `vs`, shown and separated by `, `.
pub open spec fn joined_text(vs: Seq<SLoweredV>, n: int) -> Seq<char>
    decreases vs, n,
{
    if n <= 0 || n > vs.len() {
        Seq::empty()
    } else if n == 1 {
        lowered_text(vs[0])
    } else {
        joined_text(vs, n - 1) + ", "@ + lowered_text(vs[n - 1])
    }
}

/// The first `n` names, separated by `, `.
pub open spec fn names_text(ns: Seq<Seq<char>>, n: int) -> Seq<char>
    decreases n,
{
    if n <= 0 || n > ns.len() {
        Seq::empty()
    } else if n == 1 {
        ns[0]
    } else {
        names_text(ns, n - 1) + ", "@ + ns[n - 1]
    }
}

/// The first `n` trees, shown one after the other.
pub open spec fn roots_text(vs: Seq<SLoweredV>, n: int) -> Seq<char>
    decreases n,
{
    if n <= 0 || n > vs.len() {
        Seq::empty()
    } else {
        roots_text(vs, n - 1) + lowered_text(vs[n - 1])
    }
}

/// Appends `names`, separated by `, `.
fn format_names(names: &[&str], out: &mut String)
    ensures
        final(out)@ == old(out)@ + names_text(names_view(names@), names@.len() as int),
{
    let ghost ns = names_view(names@);
    let mut i: usize = 0;
    while i < names.len()
        invariant
            ns == names_view(names@),
            0 <= i <= names@.len(),
            out@ == old(out)@ + names_text(ns, i as int),
        decreases names@.len() - i,
    {
        if i > 0 {
            out.append(", ");
        }
        out.append(names[i]);
        assert(ns[i as int] == names@[i as int]@);
        assert(out@ =~= old(out)@ + names_text(ns, i + 1));
        i = i + 1;
    }
}

/// Lowered expressions: each known by its id, the roots in order.
pub struct ExpressionTree<'s> {
    roots: Vec<ExpressionID>,
    expressions: Vec<SExpression<'s>>,
}

impl<'s> ExpressionTree<'s> {
    pub closed spec fn expressions(&self) -> Seq<SExpression<'s>> {
        self.expressions@
    }

    pub closed spec fn root_ids(&self) -> Seq<ExpressionID> {
        self.roots@
    }

    pub open spec fn wf(&self) -> bool {
        &&& expressions_wf(self.expressions())
        &&& forall|k: int|
            0 <= k < self.root_ids().len() ==> 0 <= #[trigger] self.root_ids()[k].index()
                < self.expressions().len()
    }

    /// The tree of the expression with id `id`.
    pub open spec fn node_view(&self, id: int) -> SLoweredV {
        expression_view(self.expressions(), id)
    }

    /// The trees of the roots, in order.
    pub open spec fn roots_view(&self) -> Seq<SLoweredV> {
        ids_view(self.expressions(), self.expressions().len() as int, self.root_ids())
    }

    pub fn new() -> (r: Self)
        ensures
            r.expressions() == Seq::<SExpression<'s>>::empty(),
            r.root_ids() == Seq::<ExpressionID>::empty(),
            r.wf(),
    {
        Self { roots: Vec::new(), expressions: Vec::new() }
    }

    pub fn get(&self, id: ExpressionID) -> (r: &SExpression<'s>)
        requires
            0 <= id.index() < self.expressions().len(),
        ensures
            *r == self.expressions()[id.index()],
    {
        &self.expressions[id.0]
    }

    /// The ids of the roots, in order.
    pub fn roots(&self) -> (r: &[ExpressionID])
        ensures
            r@ == self.root_ids(),
    {
        self.roots.as_slice()
    }

    /// Appends how the expression `id` is shown to `out`.
    pub fn format_expression(&self, id: ExpressionID, out: &mut String)
        requires
            self.wf(),
            0 <= id.index() < self.expressions().len(),
        ensures
            final(out)@ == old(out)@ + lowered_text(self.node_view(id.index())),
        decreases id.index(), 1int,
    {
        let e = &self.expressions[id.0];
        assert(expression_ok(self.expressions()[id.index()].value, id.index()));
        match &e.value {
            Expression::Null => {
                out.append("Null");
                assert(out@ =~= old(out)@ + lowered_text(self.node_view(id.index())));
            },
            Expression::Boolean(b) => {
                out.append("Boolean(");
                out.append(if *b { "true" } else { "false" });
                out.append(")");
                assert(out@ =~= old(out)@ + lowered_text(self.node_view(id.index())));
            },
            Expression::Integer(v) => {
                out.append("Integer(");
                push_i64(out, *v);
                out.append(")");
                assert(out@ =~= old(out)@ + lowered_text(self.node_view(id.index())));
            },
            Expression::Float(t) => {
                out.append("Float(");
                out.append(t);
                out.append(")");
                assert(out@ =~= old(out)@ + lowered_text(self.node_view(id.index())));
            },
            Expression::String(t) => {
                out.append("String(");
                out.append(t);
                out.append(")");
                assert(out@ =~= old(out)@ + lowered_text(self.node_view(id.index())));
            },
            Expression::Symbol(t) => {
                out.append("Symbol(");
                out.append(t);
                out.append(")");
                assert(out@ =~= old(out)@ + lowered_text(self.node_view(id.index())));
            },
            Expression::Call { call, args } => {
                out.append("Call(");
                self.format_expression(*call, out);
                out.append(", ");
                self.format_joined(Ghost(id.index()), args.as_slice(), out);
                out.append(")");
                proof {
                    lemma_ids_view(self.expressions(), id.index(), args@);
                }
                assert(out@ =~= old(out)@ + lowered_text(self.node_view(id.index())));
            },
            Expression::If { cond, t_branch, f_branch } => {
                out.append("If(");
                self.format_expression(*cond, out);
                out.append(", ");
                self.format_expression(*t_branch, out);
                out.append(", ");
                self.format_expression(*f_branch, out);
                out.append(")");
                assert(out@ =~= old(out)@ + lowered_text(self.node_view(id.index())));
            },
            Expression::Function { args, body } => {
                out.append("Function(");
                format_names(args.as_slice(), out);
                out.append(", ");
                self.format_joined(Ghost(id.index()), body.as_slice(), out);
                out.append(")");
                proof {
                    lemma_ids_view(self.expressions(), id.index(), body@);
                    assert(names_view(args@).len() == args@.len());
                }
                assert(out@ =~= old(out)@ + lowered_text(self.node_view(id.index())));
            },
            Expression::Define { name, value } => {
                out.append("Define(");
                out.append(name);
                out.append(", ");
                self.format_expression(*value, out);
                out.append(")");
                assert(out@ =~= old(out)@ + lowered_text(self.node_view(id.index())));
            },
        }
    }

    /// Appends the expressions `ids`, all before `parent`, shown and
    /// separated by `, `.
    fn format_joined(&self, Ghost(parent): Ghost<int>, ids: &[ExpressionID], out: &mut String)
        requires
            self.wf(),
            parent <= self.expressions().len(),
            forall|k: int| 0 <= k < ids@.len() ==> 0 <= #[trigger] ids@[k].index() < parent,
        ensures
            final(out)@ == old(out)@ + joined_text(
                ids_view(self.expressions(), parent, ids@),
                ids@.len() as int,
            ),
        decreases parent, 0int,
    {
        let ghost vs = ids_view(self.expressions(), parent, ids@);
        proof {
            lemma_ids_view(self.expressions(), parent, ids@);
        }
        let mut i: usize = 0;
        while i < ids.len()
            invariant
                self.wf(),
                parent <= self.expressions().len(),
                forall|k: int| 0 <= k < ids@.len() ==> 0 <= #[trigger] ids@[k].index() < parent,
                vs == ids_view(self.expressions(), parent, ids@),
                vs =~= Seq::new(ids@.len(), |k: int| expression_view(self.expressions(), ids@[k].index())),
                0 <= i <= ids@.len(),
                out@ == old(out)@ + joined_text(vs, i as int),
            decreases ids@.len() - i,
        {
            let ghost before = out@;
            if i > 0 {
                out.append(", ");
            }
            self.format_expression(ids[i], out);
            assert(vs[i as int] == self.node_view(ids@[i as int].index()));
            assert(out@ =~= old(out)@ + joined_text(vs, i + 1));
            i = i + 1;
        }
    }

    /// How all the roots are shown, one after the other.
    pub fn to_display_string(&self) -> (r: String)
        requires
            self.wf(),
        ensures
            r@ == roots_text(self.roots_view(), self.root_ids().len() as int),
    {
        let ghost vs = self.roots_view();
        proof {
            lemma_ids_view(self.expressions(), self.expressions().len() as int, self.root_ids());
        }
        let mut out = String::new();
        let mut i: usize = 0;
        while i < self.roots.len()
            invariant
                self.wf(),
                vs == self.roots_view(),
                vs =~= Seq::new(
                    self.root_ids().len(),
                    |k: int| expression_view(self.expressions(), self.root_ids()[k].index()),
                ),
                0 <= i <= self.root_ids().len(),
                out@ == roots_text(vs, i as int),
            decreases self.root_ids().len() - i,
        {
            self.format_expression(self.roots[i], &mut out);
            i = i + 1;
        }
        out
    }

    /// Stores an expression whose sub-expressions are all stored already.
    pub fn push(&mut self, expression: SExpression<'s>) -> (r: ExpressionID)
        requires
            expression_ok(expression.value, old(self).expressions().len() as int),
        ensures
            final(self).expressions() == old(self).expressions().push(expression),
            old(self).expressions().is_prefix_of(final(self).expressions()),
            final(self).root_ids() == old(self).root_ids(),
            r.index() == old(self).expressions().len(),
            old(self).wf() ==> final(self).wf(),
    {
        let ghost before = self.expressions@;
        self.expressions.push(expression);
        proof {
            assert(before =~= self.expressions@.subrange(0, before.len() as int));
            if old(self).wf() {
                assert forall|i: int| 0 <= i < self.expressions@.len() implies expression_ok(
                    #[trigger] self.expressions@[i].value,
                    i,
                ) by {
                    if i < before.len() {
                        assert(self.expressions@[i] == before[i]);
                    } else {
                        assert(self.expressions@[i] == expression);
                    }
                }
                assert forall|k: int| 0 <= k < self.root_ids().len() implies 0
                    <= #[trigger] self.root_ids()[k].index() < self.expressions().len() by {
                    assert(old(self).root_ids()[k] == self.root_ids()[k]);
                }
            }
        }
        ExpressionID(self.expressions.len() - 1)
    }

    /// Makes a stored expression the next root.
    pub fn push_root(&mut self, id: ExpressionID)
        requires
            0 <= id.index() < old(self).expressions().len(),
        ensures
            final(self).expressions() == old(self).expressions(),
            final(self).root_ids() == old(self).root_ids().push(id),
            old(self).wf() ==> final(self).wf(),
    {
        self.roots.push(id);
        proof {
            assert forall|k: int| 0 <= k < self.root_ids().len() && old(self).wf() implies 0
                <= #[trigger] self.root_ids()[k].index() < self.expressions().len() by {
                if k < old(self).root_ids().len() {
                    assert(old(self).root_ids()[k] == self.root_ids()[k]);
                } else {
                    assert(self.root_ids()[k] == id);
                }
            }
        }
    }
}

} // verus!
