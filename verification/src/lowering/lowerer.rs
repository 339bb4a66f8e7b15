use crate::lowering::expression::{
    expressions_wf, expression_view, lemma_expression_view_frame, lemma_ids_view, names_view,
    Expression, ExpressionID, ExpressionTree, LoweredV, SExpression, SLoweredV,
};
use crate::parsing::parser::{ParserError, SParserError};
use crate::parsing::syntax::{
    lemma_children_view_ids, SSyntaxV, Syntax, SyntaxId, SyntaxRange, SyntaxTree, SyntaxV,
};
use crate::span::{Span, Spanned, SpannedExt};
use crate::text::str_eq;
use vstd::prelude::*;

verus! {

broadcast use crate::parsing::syntax::group_id_bounds;

pub type SLowererError = Spanned<LowererError>;

/// Errors of lowering syntax into expressions.
#[derive(Debug, Clone, Copy, PartialEq)]
pub enum LowererError {
    ParseError(ParserError),
    UnexpectedExpression,
    InvalidIf,
    InvalidFunction,
    InvalidFunctionArgs,
    InvalidFunctionArg,
    InvalidFunctionBody,
    InvalidDefine,
    InvalidDefineName,
    InvalidCall,
}

impl From<SParserError> for SLowererError {
    fn from(value: SParserError) -> (r: Self) {
        LowererError::ParseError(value.value).scopy(value.span)
    }
}

impl vstd::std_specs::convert::FromSpecImpl<SParserError> for SLowererError {
    open spec fn obeys_from_spec() -> bool {
        true
    }

    open spec fn from_spec(value: SParserError) -> Self {
        Spanned { value: LowererError::ParseError(value.value), span: value.span }
    }
}

/// Why lowering stops: an error to report, or a list headed by `quote`,
/// which the lowerer does not handle.
pub enum LowerFailure {
    Error(SLowererError),
    Unsupported,
}

pub type LowerResult<T> = Result<T, LowerFailure>;

pub open spec fn fail<T>(e: LowererError, span: Span) -> LowerResult<T> {
    Err(LowerFailure::Error(Spanned { value: e, span }))
}

pub open spec fn lowered(v: LoweredV, span: Span) -> LowerResult<SLoweredV> {
    Ok(Spanned { value: v, span })
}

/// Whether a result is the failure on a list headed by `quote`.
pub open spec fn is_unsupported<T>(r: LowerResult<T>) -> bool {
    match r {
        Err(LowerFailure::Unsupported) => true,
        _ => false,
    }
}

/// The names that only make sense at the head of a list.
pub open spec fn is_keyword(name: Seq<char>) -> bool {
    ||| name == "if"@
    ||| name == "fn"@
    ||| name == "def"@
    ||| name == "quote"@
}

/// A symbol on its own: a literal name, or a variable.
pub open spec fn lower_symbol(name: Seq<char>, span: Span) -> LowerResult<SLoweredV> {
    if name == "null"@ {
        lowered(LoweredV::Null, span)
    } else if name == "true"@ {
        lowered(LoweredV::Boolean(true), span)
    } else if name == "false"@ {
        lowered(LoweredV::Boolean(false), span)
    } else if is_keyword(name) {
        fail(LowererError::UnexpectedExpression, span)
    } else {
        lowered(LoweredV::Symbol(name), span)
    }
}

/// The names of a parameter list, or the first item that is not a symbol.
pub open spec fn params_of(params: Seq<SSyntaxV>) -> Result<Seq<Seq<char>>, SLowererError>
    decreases params.len(),
{
    if params.len() == 0 {
        Ok(Seq::empty())
    } else {
        match params_of(params.drop_last()) {
            Err(e) => Err(e),
            Ok(names) => match params.last().value {
                SyntaxV::Symbol(n) => Ok(names.push(n)),
                _ => Err(Spanned { value: LowererError::InvalidFunctionArg, span: params.last().span }),
            },
        }
    }
}

/// Lowering one tree.
pub open spec fn lower_expr(s: SSyntaxV) -> LowerResult<SLoweredV>
    decreases s, 0int,
{
    match s.value {
        SyntaxV::Symbol(name) => lower_symbol(name, s.span),
        SyntaxV::Integer(v) => lowered(LoweredV::Integer(v), s.span),
        SyntaxV::Float(t) => lowered(LoweredV::Float(t), s.span),
        SyntaxV::String(t) => lowered(LoweredV::String(t), s.span),
        SyntaxV::List(items) => if items.len() == 0 {
            lowered(LoweredV::Null, s.span)
        } else {
            match items[0].value {
                SyntaxV::Symbol(head) => if head == "if"@ {
                    if_form(items, s.span)
                } else if head == "fn"@ {
                    fn_form(items, s.span)
                } else if head == "def"@ {
                    def_form(items, s.span)
                } else if head == "quote"@ {
                    Err(LowerFailure::Unsupported)
                } else {
                    call_form(items, s.span)
                },
                SyntaxV::List(_) => call_form(items, s.span),
                _ => fail(LowererError::InvalidCall, items[0].span),
            }
        },
    }
}

/// `(if cond then else)`.
pub open spec fn if_form(items: Seq<SSyntaxV>, span: Span) -> LowerResult<SLoweredV>
    decreases items, items.len() + 1,
{
    if items.len() != 4 {
        fail(LowererError::InvalidIf, span)
    } else {
        match lower_expr(items[1]) {
            Err(e) => Err(e),
            Ok(c) => match lower_expr(items[2]) {
                Err(e) => Err(e),
                Ok(t) => match lower_expr(items[3]) {
                    Err(e) => Err(e),
                    Ok(f) => lowered(
                        LoweredV::If { cond: Box::new(c), t_branch: Box::new(t), f_branch: Box::new(f) },
                        span,
                    ),
                },
            },
        }
    }
}

/// `(fn (params...) body...)`.
pub open spec fn fn_form(items: Seq<SSyntaxV>, span: Span) -> LowerResult<SLoweredV>
    decreases items, items.len() + 1,
{
    if items.len() < 2 {
        fail(LowererError::InvalidFunction, span)
    } else {
        match items[1].value {
            SyntaxV::List(params) => match params_of(params) {
                Err(e) => Err(LowerFailure::Error(e)),
                Ok(names) => if items.len() == 2 {
                    fail(LowererError::InvalidFunctionBody, span)
                } else {
                    match lower_range(items, 2, items.len() as int) {
                        Err(e) => Err(e),
                        Ok(body) => lowered(LoweredV::Function { args: names, body }, span),
                    }
                },
            },
            _ => fail(LowererError::InvalidFunctionArgs, items[1].span),
        }
    }
}

/// `(def name value)`.
pub open spec fn def_form(items: Seq<SSyntaxV>, span: Span) -> LowerResult<SLoweredV>
    decreases items, items.len() + 1,
{
    if items.len() != 3 {
        fail(LowererError::InvalidDefine, span)
    } else {
        match items[1].value {
            SyntaxV::Symbol(name) => match lower_expr(items[2]) {
                Err(e) => Err(e),
                Ok(v) => lowered(LoweredV::Define { name, value: Box::new(v) }, span),
            },
            _ => fail(LowererError::InvalidDefineName, items[1].span),
        }
    }
}

/// `(callee args...)`.
pub open spec fn call_form(items: Seq<SSyntaxV>, span: Span) -> LowerResult<SLoweredV>
    decreases items, items.len() + 1,
{
    if items.len() == 0 {
        lowered(LoweredV::Null, span)
    } else {
        match lower_expr(items[0]) {
            Err(e) => Err(e),
            Ok(h) => match lower_range(items, 1, items.len() as int) {
                Err(e) => Err(e),
                Ok(args) => lowered(LoweredV::Call { call: Box::new(h), args }, span),
            },
        }
    }
}

/// Lowering `items[from..to]` in order; the first failure stops it.
pub open spec fn lower_range(items: Seq<SSyntaxV>, from: int, to: int) -> LowerResult<Seq<SLoweredV>>
    decreases items, to,
{
    if 0 <= from < to <= items.len() {
        match lower_range(items, from, to - 1) {
            Err(e) => Err(e),
            Ok(vs) => match lower_expr(items[to - 1]) {
                Err(e) => Err(e),
                Ok(v) => Ok(vs.push(v)),
            },
        }
    } else {
        Ok(Seq::empty())
    }
}

/// Lowering all the top-level trees of a text.
pub open spec fn lower_all(roots: Seq<SSyntaxV>) -> LowerResult<Seq<SLoweredV>> {
    lower_range(roots, 0, roots.len() as int)
}

/// Once a range fails, longer ranges fail the same way.
pub proof fn lemma_range_fail(items: Seq<SSyntaxV>, from: int, i: int, j: int)
    requires
        0 <= from <= i <= j <= items.len(),
        lower_range(items, from, i) is Err,
    ensures
        lower_range(items, from, j) == lower_range(items, from, i),
    decreases j,
{
    if j > i {
        lemma_range_fail(items, from, i, j - 1);
    }
}

/// The trees of the nodes `ids` of a syntax tree.
pub open spec fn views_of(tree: &SyntaxTree, ids: Seq<SyntaxId>) -> Seq<SSyntaxV> {
    Seq::new(ids.len(), |k: int| tree.node_view(ids[k].index()))
}

/// The expressions `ids`, stored in `exprs`, have the trees `vs`.
pub open spec fn ids_lowered(exprs: Seq<SExpression>, ids: Seq<ExpressionID>, vs: Seq<SLoweredV>) -> bool {
    &&& ids.len() == vs.len()
    &&& forall|k: int|
        0 <= k < ids.len() ==> 0 <= #[trigger] ids[k].index() < exprs.len() && expression_view(
            exprs,
            ids[k].index(),
        ) == vs[k]
}

/// Growing the expressions keeps what stored ids stand for.
proof fn lemma_ids_lowered_frame(
    exprs: Seq<SExpression>,
    exprs2: Seq<SExpression>,
    ids: Seq<ExpressionID>,
    vs: Seq<SLoweredV>,
)
    requires
        expressions_wf(exprs),
        exprs.is_prefix_of(exprs2),
        ids_lowered(exprs, ids, vs),
    ensures
        ids_lowered(exprs2, ids, vs),
{
    assert forall|k: int| 0 <= k < ids.len() implies 0 <= #[trigger] ids[k].index() < exprs2.len()
        && expression_view(exprs2, ids[k].index()) == vs[k] by {
        lemma_expression_view_frame(exprs, exprs2, ids[k].index());
    }
}

/// What lowering node `id` leaves in `out`, as `lower_expr` says.
pub open spec fn node_lowered<'s>(
    spec_result: LowerResult<SLoweredV>,
    r: Result<ExpressionID, SLowererError>,
    out: &ExpressionTree<'s>,
) -> bool {
    match spec_result {
        Ok(v) => r is Ok && 0 <= r->Ok_0.index() < out.expressions().len() && out.node_view(
            r->Ok_0.index(),
        ) == v,
        Err(LowerFailure::Error(e)) => r == Err::<ExpressionID, SLowererError>(e),
        Err(LowerFailure::Unsupported) => true,
    }
}

/// `out` after a step of lowering: still well formed, grown, same roots.
pub open spec fn grown<'s>(before: &ExpressionTree<'s>, after: &ExpressionTree<'s>) -> bool {
    &&& after.wf()
    &&& before.expressions().is_prefix_of(after.expressions())
    &&& after.root_ids() == before.root_ids()
}

proof fn lemma_grown_trans<'s>(a: &ExpressionTree<'s>, b: &ExpressionTree<'s>, c: &ExpressionTree<'s>)
    requires
        grown(a, b),
        grown(b, c),
    ensures
        grown(a, c),
{
    assert(a.expressions() =~= c.expressions().subrange(0, a.expressions().len() as int)) by {
        assert forall|k: int| 0 <= k < a.expressions().len() implies a.expressions()[k]
            == c.expressions()[k] by {
            assert(a.expressions()[k] == b.expressions()[k]);
            assert(b.expressions()[k] == c.expressions()[k]);
        }
    }
}

proof fn lemma_grown_refl<'s>(a: &ExpressionTree<'s>)
    requires
        a.wf(),
    ensures
        grown(a, a),
{
    assert(a.expressions() =~= a.expressions().subrange(0, a.expressions().len() as int));
}

/// Lowers the nodes `children[from..]` in order into `out`: their ids, or
/// the first error.
fn lower_children<'s>(
    tree: &'s SyntaxTree,
    Ghost(parent): Ghost<int>,
    children: &[SyntaxId],
    from: usize,
    out: &mut ExpressionTree<'s>,
) -> (r: Result<Vec<ExpressionID>, SLowererError>)
    requires
        tree.wf(),
        parent <= tree.syntaxes.nodes().len(),
        forall|k: int| 0 <= k < children@.len() ==> 0 <= #[trigger] children@[k].index() < parent,
        from <= children@.len(),
        old(out).wf(),
        !is_unsupported(lower_range(views_of(tree, children@), from as int, children@.len() as int)),
    ensures
        grown(old(out), final(out)),
        match lower_range(views_of(tree, children@), from as int, children@.len() as int) {
            Ok(vs) => r is Ok && ids_lowered(final(out).expressions(), r->Ok_0@, vs),
            Err(LowerFailure::Error(e)) => r == Err::<Vec<ExpressionID>, SLowererError>(e),
            Err(LowerFailure::Unsupported) => true,
        },
    decreases parent, 0int,
{
    let ghost items = views_of(tree, children@);
    let ghost len = children@.len() as int;
    let ghost start = *out;
    let ghost mut vs: Seq<SLoweredV> = Seq::empty();
    let mut ids: Vec<ExpressionID> = Vec::new();
    let mut i = from;
    proof {
        lemma_grown_refl(out);
    }
    while i < children.len()
        invariant
            tree.wf(),
            parent <= tree.syntaxes.nodes().len(),
            forall|k: int| 0 <= k < children@.len() ==> 0 <= #[trigger] children@[k].index() < parent,
            items == views_of(tree, children@),
            len == children@.len(),
            from <= i <= children@.len(),
            grown(&start, out),
            start == *old(out),
            !is_unsupported(lower_range(items, from as int, len)),
            lower_range(items, from as int, i as int) == Ok::<Seq<SLoweredV>, LowerFailure>(vs),
            ids_lowered(out.expressions(), ids@, vs),
        decreases children@.len() - i,
    {
        let ghost before = *out;
        let child = children[i];
        assert(items[i as int] == tree.node_view(child.index()));
        proof {
            if is_unsupported(lower_expr(items[i as int])) {
                lemma_range_fail(items, from as int, i + 1, len);
            }
        }
        match lower_node(tree, child, out) {
            Ok(e) => {
                proof {
                    lemma_ids_lowered_frame(before.expressions(), out.expressions(), ids@, vs);
                    lemma_grown_trans(&start, &before, out);
                    vs = vs.push(out.node_view(e.index()));
                }
                ids.push(e);
                assert(ids_lowered(out.expressions(), ids@, vs)) by {
                    assert forall|k: int| 0 <= k < ids@.len() implies 0
                        <= #[trigger] ids@[k].index() < out.expressions().len() && expression_view(
                        out.expressions(),
                        ids@[k].index(),
                    ) == vs[k] by {
                        if k < ids@.len() - 1 {
                            assert(ids@[k] == ids@.drop_last()[k]);
                        }
                    }
                }
            },
            Err(e) => {
                proof {
                    lemma_grown_trans(&start, &before, out);
                    lemma_range_fail(items, from as int, i + 1, len);
                }
                return Err(e);
            },
        }
        i = i + 1;
    }
    Ok(ids)
}

/// Lowers node `id` and all it contains into `out`.
fn lower_node<'s>(tree: &'s SyntaxTree, id: SyntaxId, out: &mut ExpressionTree<'s>) -> (r: Result<
    ExpressionID,
    SLowererError,
>)
    requires
        tree.wf(),
        0 <= id.index() < tree.syntaxes.nodes().len(),
        old(out).wf(),
        !is_unsupported(lower_expr(tree.node_view(id.index()))),
    ensures
        grown(old(out), final(out)),
        node_lowered(lower_expr(tree.node_view(id.index())), r, final(out)),
    decreases id.index(), 3int,
{
    proof {
        lemma_grown_refl(out);
    }
    let node = tree.syntaxes.get(id);
    let span = node.span;
    match &node.value {
        Syntax::Symbol(sym) => {
            let name = tree.symbols.get(*sym);
            if str_eq(name, "null") {
                Ok(out.push(Expression::Null.scopy(span)))
            } else if str_eq(name, "true") {
                Ok(out.push(Expression::Boolean(true).scopy(span)))
            } else if str_eq(name, "false") {
                Ok(out.push(Expression::Boolean(false).scopy(span)))
            } else if str_eq(name, "if") || str_eq(name, "fn") || str_eq(name, "def") || str_eq(
                name,
                "quote",
            ) {
                Err(LowererError::UnexpectedExpression.scopy(span))
            } else {
                Ok(out.push(Expression::Symbol(name).scopy(span)))
            }
        },
        Syntax::Integer(v) => Ok(out.push(Expression::Integer(*v).scopy(span))),
        Syntax::Float(t) => Ok(out.push(Expression::Float(t.as_str()).scopy(span))),
        Syntax::String(sid) => Ok(out.push(Expression::String(tree.strings.get(*sid)).scopy(span))),
        Syntax::List(range) => lower_list(tree, id, *range, out),
    }
}

/// Once a prefix of a parameter list fails, longer prefixes fail the same way.
proof fn lemma_params_fail(ps: Seq<SSyntaxV>, i: int, j: int)
    requires
        0 <= i <= j <= ps.len(),
        params_of(ps.take(i)) is Err,
    ensures
        params_of(ps.take(j)) == params_of(ps.take(i)),
    decreases j,
{
    if j > i {
        lemma_params_fail(ps, i, j - 1);
        assert(ps.take(j).drop_last() =~= ps.take(j - 1));
    }
}

/// The children of a list node are the trees of the ids in its range.
proof fn lemma_list_items(tree: &SyntaxTree, id: int, range: SyntaxRange, children: Seq<SyntaxId>)
    requires
        tree.wf(),
        0 <= id < tree.syntaxes.nodes().len(),
        tree.syntaxes.nodes()[id].value == Syntax::List(range),
        children == tree.syntaxes.child_table().subrange(range.start(), range.end()),
    ensures
        tree.node_view(id).value == SyntaxV::List(views_of(tree, children)),
        tree.node_view(id).span == tree.syntaxes.nodes()[id].span,
        forall|k: int| 0 <= k < children.len() ==> 0 <= #[trigger] children[k].index() < id,
{
    let nodes = tree.syntaxes.nodes();
    let table = tree.syntaxes.child_table();
    assert(crate::parsing::syntax::node_ok(
        nodes[id].value,
        id,
        table,
        tree.symbols.names().len() as int,
        tree.strings.values().len() as int,
    ));
    lemma_children_view_ids(
        nodes,
        table,
        tree.symbols.names(),
        tree.strings.values(),
        id,
        range.start(),
        range.len(),
    );
    assert forall|k: int| 0 <= k < children.len() implies 0 <= #[trigger] children[k].index() < id by {
        assert(children[k] == table[range.start() + k]);
    }
    assert(views_of(tree, children) =~= crate::parsing::syntax::children_view(
        nodes,
        table,
        tree.symbols.names(),
        tree.strings.values(),
        id,
        range.start(),
        range.len(),
    ));
}

/// Lowers the list node `id`, whose children are listed in `range`.
fn lower_list<'s>(
    tree: &'s SyntaxTree,
    id: SyntaxId,
    range: SyntaxRange,
    out: &mut ExpressionTree<'s>,
) -> (r: Result<ExpressionID, SLowererError>)
    requires
        tree.wf(),
        0 <= id.index() < tree.syntaxes.nodes().len(),
        tree.syntaxes.nodes()[id.index()].value == Syntax::List(range),
        old(out).wf(),
        !is_unsupported(lower_expr(tree.node_view(id.index()))),
    ensures
        grown(old(out), final(out)),
        node_lowered(lower_expr(tree.node_view(id.index())), r, final(out)),
    decreases id.index(), 2int,
{
    proof {
        lemma_grown_refl(out);
    }
    let span = tree.syntaxes.get(id).span;
    assert(crate::parsing::syntax::node_ok(
        tree.syntaxes.nodes()[id.index()].value,
        id.index(),
        tree.syntaxes.child_table(),
        tree.symbols.names().len() as int,
        tree.strings.values().len() as int,
    ));
    let children = tree.syntaxes.children(range);
    proof {
        lemma_list_items(tree, id.index(), range, children@);
    }
    let ghost items = views_of(tree, children@);
    if children.len() == 0 {
        return Ok(out.push(Expression::Null.scopy(span)));
    }
    let head = tree.syntaxes.get(children[0]);
    assert(items[0] == tree.node_view(children@[0].index()));
    match &head.value {
        Syntax::Symbol(sym) => {
            let name = tree.symbols.get(*sym);
            if str_eq(name, "if") {
                lower_if(tree, Ghost(id.index()), children, span, out)
            } else if str_eq(name, "fn") {
                lower_fn(tree, Ghost(id.index()), children, span, out)
            } else if str_eq(name, "def") {
                lower_def(tree, Ghost(id.index()), children, span, out)
            } else if str_eq(name, "quote") {
                // Ruled out by the requirement that no `quote` form is reached.
                assert(false);
                Err(LowererError::InvalidCall.scopy(span))
            } else {
                lower_call(tree, Ghost(id.index()), children, span, out)
            }
        },
        Syntax::List(_) => lower_call(tree, Ghost(id.index()), children, span, out),
        _ => Err(LowererError::InvalidCall.scopy(head.span)),
    }
}

/// Lowers `(if cond then else)`, whose items are the nodes `children`.
fn lower_if<'s>(
    tree: &'s SyntaxTree,
    Ghost(parent): Ghost<int>,
    children: &[SyntaxId],
    span: Span,
    out: &mut ExpressionTree<'s>,
) -> (r: Result<ExpressionID, SLowererError>)
    requires
        tree.wf(),
        parent <= tree.syntaxes.nodes().len(),
        forall|k: int| 0 <= k < children@.len() ==> 0 <= #[trigger] children@[k].index() < parent,
        old(out).wf(),
        !is_unsupported(if_form(views_of(tree, children@), span)),
    ensures
        grown(old(out), final(out)),
        node_lowered(if_form(views_of(tree, children@), span), r, final(out)),
    decreases parent, 1int,
{
    let ghost items = views_of(tree, children@);
    let ghost s0 = *out;
    proof {
        lemma_grown_refl(out);
    }
    if children.len() != 4 {
        return Err(LowererError::InvalidIf.scopy(span));
    }
    assert(items[1] == tree.node_view(children@[1].index()));
    assert(items[2] == tree.node_view(children@[2].index()));
    assert(items[3] == tree.node_view(children@[3].index()));
    let c = match lower_node(tree, children[1], out) {
        Ok(c) => c,
        Err(e) => return Err(e),
    };
    let ghost s1 = *out;
    let t = match lower_node(tree, children[2], out) {
        Ok(t) => t,
        Err(e) => {
            proof {
                lemma_grown_trans(&s0, &s1, out);
            }
            return Err(e);
        },
    };
    let ghost s2 = *out;
    proof {
        lemma_grown_trans(&s0, &s1, &s2);
    }
    let f = match lower_node(tree, children[3], out) {
        Ok(f) => f,
        Err(e) => {
            proof {
                lemma_grown_trans(&s0, &s2, out);
            }
            return Err(e);
        },
    };
    let ghost s3 = *out;
    proof {
        lemma_grown_trans(&s0, &s2, &s3);
        lemma_grown_trans(&s1, &s2, &s3);
    }
    let e = out.push(Expression::If { cond: c, t_branch: t, f_branch: f }.scopy(span));
    proof {
        lemma_grown_trans(&s0, &s3, out);
        lemma_grown_trans(&s1, &s3, out);
        lemma_grown_trans(&s2, &s3, out);
        lemma_expression_view_frame(s1.expressions(), out.expressions(), c.index());
        lemma_expression_view_frame(s2.expressions(), out.expressions(), t.index());
        lemma_expression_view_frame(s3.expressions(), out.expressions(), f.index());
    }
    Ok(e)
}

/// Lowers `(def name value)`, whose items are the nodes `children`.
fn lower_def<'s>(
    tree: &'s SyntaxTree,
    Ghost(parent): Ghost<int>,
    children: &[SyntaxId],
    span: Span,
    out: &mut ExpressionTree<'s>,
) -> (r: Result<ExpressionID, SLowererError>)
    requires
        tree.wf(),
        parent <= tree.syntaxes.nodes().len(),
        forall|k: int| 0 <= k < children@.len() ==> 0 <= #[trigger] children@[k].index() < parent,
        old(out).wf(),
        !is_unsupported(def_form(views_of(tree, children@), span)),
    ensures
        grown(old(out), final(out)),
        node_lowered(def_form(views_of(tree, children@), span), r, final(out)),
    decreases parent, 1int,
{
    let ghost items = views_of(tree, children@);
    let ghost s0 = *out;
    proof {
        lemma_grown_refl(out);
    }
    if children.len() != 3 {
        return Err(LowererError::InvalidDefine.scopy(span));
    }
    assert(items[1] == tree.node_view(children@[1].index()));
    assert(items[2] == tree.node_view(children@[2].index()));
    let name_node = tree.syntaxes.get(children[1]);
    assert(crate::parsing::syntax::node_ok(
        tree.syntaxes.nodes()[children@[1].index()].value,
        children@[1].index(),
        tree.syntaxes.child_table(),
        tree.symbols.names().len() as int,
        tree.strings.values().len() as int,
    ));
    match &name_node.value {
        Syntax::Symbol(sym) => {
            let name = tree.symbols.get(*sym);
            let v = match lower_node(tree, children[2], out) {
                Ok(v) => v,
                Err(e) => return Err(e),
            };
            let ghost s1 = *out;
            let e = out.push(Expression::Define { name, value: v }.scopy(span));
            proof {
                lemma_grown_trans(&s0, &s1, out);
                lemma_expression_view_frame(s1.expressions(), out.expressions(), v.index());
            }
            Ok(e)
        },
        _ => Err(LowererError::InvalidDefineName.scopy(name_node.span)),
    }
}

/// Lowers `(callee args...)`, whose items are the nodes `children`.
fn lower_call<'s>(
    tree: &'s SyntaxTree,
    Ghost(parent): Ghost<int>,
    children: &[SyntaxId],
    span: Span,
    out: &mut ExpressionTree<'s>,
) -> (r: Result<ExpressionID, SLowererError>)
    requires
        tree.wf(),
        parent <= tree.syntaxes.nodes().len(),
        forall|k: int| 0 <= k < children@.len() ==> 0 <= #[trigger] children@[k].index() < parent,
        old(out).wf(),
        !is_unsupported(call_form(views_of(tree, children@), span)),
    ensures
        grown(old(out), final(out)),
        node_lowered(call_form(views_of(tree, children@), span), r, final(out)),
    decreases parent, 1int,
{
    let ghost items = views_of(tree, children@);
    let ghost s0 = *out;
    proof {
        lemma_grown_refl(out);
    }
    if children.len() == 0 {
        return Ok(out.push(Expression::Null.scopy(span)));
    }
    assert(items[0] == tree.node_view(children@[0].index()));
    let h = match lower_node(tree, children[0], out) {
        Ok(h) => h,
        Err(e) => return Err(e),
    };
    let ghost s1 = *out;
    let args = match lower_children(tree, Ghost(parent), children, 1, out) {
        Ok(args) => args,
        Err(e) => {
            proof {
                lemma_grown_trans(&s0, &s1, out);
            }
            return Err(e);
        },
    };
    let ghost s2 = *out;
    let ghost vs = lower_range(items, 1, items.len() as int)->Ok_0;
    proof {
        lemma_grown_trans(&s0, &s1, &s2);
    }
    let e = out.push(Expression::Call { call: h, args }.scopy(span));
    proof {
        lemma_grown_trans(&s0, &s2, out);
        lemma_grown_trans(&s1, &s2, out);
        lemma_expression_view_frame(s1.expressions(), out.expressions(), h.index());
        lemma_ids_lowered_frame(s2.expressions(), out.expressions(), args@, vs);
        lemma_ids_view(out.expressions(), e.index(), args@);
        assert(crate::lowering::expression::ids_view(out.expressions(), e.index(), args@) =~= vs);
    }
    Ok(e)
}

/// The names of the parameter nodes `params`, or the first that is not a
/// symbol.
fn lower_params<'s>(tree: &'s SyntaxTree, params: &[SyntaxId]) -> (r: Result<Vec<&'s str>, SLowererError>)
    requires
        tree.wf(),
        forall|k: int| 0 <= k < params@.len() ==> 0 <= #[trigger] params@[k].index() < tree.syntaxes.nodes().len(),
    ensures
        match params_of(views_of(tree, params@)) {
            Ok(ns) => r is Ok && names_view(r->Ok_0@) == ns,
            Err(e) => r == Err::<Vec<&'s str>, SLowererError>(e),
        },
{
    let ghost pviews = views_of(tree, params@);
    let mut names: Vec<&'s str> = Vec::new();
    let mut i: usize = 0;
    assert(pviews.take(0) =~= Seq::<SSyntaxV>::empty());
    assert(names_view(names@) =~= Seq::<Seq<char>>::empty());
    while i < params.len()
        invariant
            tree.wf(),
            pviews == views_of(tree, params@),
            forall|k: int| 0 <= k < params@.len() ==> 0 <= #[trigger] params@[k].index() < tree.syntaxes.nodes().len(),
            0 <= i <= params@.len(),
            params_of(pviews.take(i as int)) == Ok::<Seq<Seq<char>>, SLowererError>(names_view(names@)),
        decreases params@.len() - i,
    {
        let p = tree.syntaxes.get(params[i]);
        assert(pviews[i as int] == tree.node_view(params@[i as int].index()));
        assert(pviews.take(i + 1).drop_last() =~= pviews.take(i as int));
        assert(crate::parsing::syntax::node_ok(
            tree.syntaxes.nodes()[params@[i as int].index()].value,
            params@[i as int].index(),
            tree.syntaxes.child_table(),
            tree.symbols.names().len() as int,
            tree.strings.values().len() as int,
        ));
        match &p.value {
            Syntax::Symbol(sym) => {
                let ghost before = names@;
                names.push(tree.symbols.get(*sym));
                assert(names_view(names@) =~= names_view(before).push(names@.last()@));
            },
            _ => {
                proof {
                    lemma_params_fail(pviews, i + 1, pviews.len() as int);
                    assert(pviews.take(pviews.len() as int) =~= pviews);
                }
                return Err(LowererError::InvalidFunctionArg.scopy(p.span));
            },
        }
        i = i + 1;
    }
    assert(pviews.take(pviews.len() as int) =~= pviews);
    Ok(names)
}

/// Lowers `(fn (params...) body...)`, whose items are the nodes `children`.
fn lower_fn<'s>(
    tree: &'s SyntaxTree,
    Ghost(parent): Ghost<int>,
    children: &[SyntaxId],
    span: Span,
    out: &mut ExpressionTree<'s>,
) -> (r: Result<ExpressionID, SLowererError>)
    requires
        tree.wf(),
        parent <= tree.syntaxes.nodes().len(),
        forall|k: int| 0 <= k < children@.len() ==> 0 <= #[trigger] children@[k].index() < parent,
        old(out).wf(),
        !is_unsupported(fn_form(views_of(tree, children@), span)),
    ensures
        grown(old(out), final(out)),
        node_lowered(fn_form(views_of(tree, children@), span), r, final(out)),
    decreases parent, 1int,
{
    let ghost items = views_of(tree, children@);
    let ghost s0 = *out;
    proof {
        lemma_grown_refl(out);
    }
    if children.len() < 2 {
        return Err(LowererError::InvalidFunction.scopy(span));
    }
    assert(items[1] == tree.node_view(children@[1].index()));
    let params_node = tree.syntaxes.get(children[1]);
    let prange = match &params_node.value {
        Syntax::List(prange) => *prange,
        _ => return Err(LowererError::InvalidFunctionArgs.scopy(params_node.span)),
    };
    assert(crate::parsing::syntax::node_ok(
        tree.syntaxes.nodes()[children@[1].index()].value,
        children@[1].index(),
        tree.syntaxes.child_table(),
        tree.symbols.names().len() as int,
        tree.strings.values().len() as int,
    ));
    let params = tree.syntaxes.children(prange);
    proof {
        lemma_list_items(tree, children@[1].index(), prange, params@);
    }
    let names = match lower_params(tree, params) {
        Ok(names) => names,
        Err(e) => return Err(e),
    };
    if children.len() == 2 {
        return Err(LowererError::InvalidFunctionBody.scopy(span));
    }
    let body = match lower_children(tree, Ghost(parent), children, 2, out) {
        Ok(body) => body,
        Err(e) => return Err(e),
    };
    let ghost s1 = *out;
    let ghost vs = lower_range(items, 2, items.len() as int)->Ok_0;
    let e = out.push(Expression::Function { args: names, body }.scopy(span));
    proof {
        lemma_grown_trans(&s0, &s1, out);
        lemma_ids_lowered_frame(s1.expressions(), out.expressions(), body@, vs);
        lemma_ids_view(out.expressions(), e.index(), body@);
        assert(crate::lowering::expression::ids_view(out.expressions(), e.index(), body@) =~= vs);
    }
    Ok(e)
}

/// Lowers every top-level tree of a parsed text into an expression tree,
/// or stops at the first error.
pub fn lower<'s>(tree: &'s SyntaxTree) -> (r: Result<ExpressionTree<'s>, SLowererError>)
    requires
        tree.wf(),
        !is_unsupported(lower_all(tree.roots_view())),
    ensures
        match lower_all(tree.roots_view()) {
            Ok(vs) => r is Ok && r->Ok_0.wf() && r->Ok_0.roots_view() == vs,
            Err(LowerFailure::Error(e)) => r == Err::<ExpressionTree<'s>, SLowererError>(e),
            Err(LowerFailure::Unsupported) => true,
        },
{
    let roots = tree.syntaxes.children(tree.roots);
    let ghost n = tree.syntaxes.nodes().len() as int;
    proof {
        let table = tree.syntaxes.child_table();
        lemma_children_view_ids(
            tree.syntaxes.nodes(),
            table,
            tree.symbols.names(),
            tree.strings.values(),
            n,
            tree.roots.start(),
            tree.roots.len(),
        );
        assert forall|k: int| 0 <= k < roots@.len() implies 0 <= #[trigger] roots@[k].index() < n by {
            assert(roots@[k] == table[tree.roots.start() + k]);
        }
        assert(views_of(tree, roots@) =~= tree.roots_view());
    }
    let mut out = ExpressionTree::new();
    let ids = match lower_children(tree, Ghost(n), roots, 0, &mut out) {
        Ok(ids) => ids,
        Err(e) => return Err(e),
    };
    let ghost vs = lower_all(tree.roots_view())->Ok_0;
    let ghost exprs = out.expressions();
    let mut i: usize = 0;
    while i < ids.len()
        invariant
            out.wf(),
            out.expressions() == exprs,
            ids_lowered(exprs, ids@, vs),
            0 <= i <= ids@.len(),
            out.root_ids() == ids@.take(i as int),
        decreases ids@.len() - i,
    {
        out.push_root(ids[i]);
        assert(out.root_ids() =~= ids@.take(i + 1));
        i = i + 1;
    }
    proof {
        assert(ids@.take(ids@.len() as int) =~= ids@);
        lemma_ids_view(exprs, exprs.len() as int, ids@);
        assert(out.roots_view() =~= vs);
    }
    Ok(out)
}

} // verus!
