use crate::expression::{BindKind, Expression, ExpressionId, ExpressionRange, SymbolId};
use crate::runtime::environment::{lemma_owner_is_bound, EnvView, Environment, ScopeId};
use crate::runtime::error::{RuntimeError, SRuntimeError};
use crate::runtime::session::{Session, StringRange};
use crate::runtime::tree::{range_text, session_v, SessionV};
use crate::runtime::value::{held, is_truthy, truthy, Heap, ListId, RtValue, TextId, UserFn};
use crate::span::{Span, Spanned, SpannedExt};
use vstd::prelude::*;

verus! {

/// What evaluation comes back to once the expression in hand has a value.
#[derive(Debug, Clone, Copy)]
pub enum Frame {
    /// The items of `do`, the one at `next` being evaluated; the last gives the value.
    Do { ids: ExpressionRange, next: usize, env: ScopeId },
    /// The items of a list literal, whose values so far lie on the value
    /// stack from `base`.
    List { ids: ExpressionRange, next: usize, env: ScopeId, base: usize },
    /// The arguments of a call of `f`, whose values so far lie on the value
    /// stack from `base`.
    Args { f: RtValue, ids: ExpressionRange, next: usize, env: ScopeId, base: usize, span: Span },
    /// The head of a call, whose arguments come next.
    CallHead { args: ExpressionRange, env: ScopeId, span: Span },
    /// The condition of `if`.
    If { t_branch: ExpressionId, f_branch: ExpressionId, env: ScopeId },
    /// The value of `def` or `set`.
    Bind { kind: BindKind, name: SymbolId, env: ScopeId, span: Span },
}

/// What the evaluator does next.
#[derive(Debug, Clone, Copy)]
pub enum Control {
    /// Evaluate an expression in a scope.
    Eval(ExpressionId, ScopeId),
    /// Hand a value to the frame on top.
    Value(RtValue),
    /// Call `f` on the values of the value stack from `base`.
    Apply { f: RtValue, base: usize, span: Span },
    /// Wait for the host's builtin to answer for the values from `base`.
    AwaitBuiltin { base: usize, span: Span },
    /// Wait for the host to read a number with a fraction.
    AwaitFloat { span: Span },
    /// Evaluation has failed.
    Stopped,
}

/// A running evaluation: what comes next, the frames to come back to, and
/// the values gathered for lists and calls.
pub struct EvalState {
    pub control: Control,
    pub frames: Vec<Frame>,
    pub values: Vec<RtValue>,
}

/// A running evaluation, viewed.
pub struct StateV {
    pub control: Control,
    pub frames: Seq<Frame>,
    pub values: Seq<RtValue>,
}

impl View for EvalState {
    type V = StateV;

    open spec fn view(&self) -> StateV {
        StateV { control: self.control, frames: self.frames@, values: self.values@ }
    }
}

/// What the host is asked to do after a step.
#[derive(Debug)]
pub enum EvalAction {
    /// Step again.
    Continue,
    /// Evaluation ended with a value.
    Done(RtValue),
    /// Evaluation ended with an error.
    Failed(SRuntimeError),
    /// Run the builtin `index` on the values of the value stack from `base`,
    /// and step again with its result as the reply.
    CallBuiltin { index: usize, base: usize, span: Span },
    /// Read the number with a fraction written as the text `text`, and step
    /// again with it as the reply.
    ParseFloat { text: StringRange, span: Span },
}

/// A step, viewed: the new state, the action, the environment, and the heap's
/// lists and texts.
pub struct Step {
    pub state: StateV,
    pub action: EvalAction,
    pub env: EnvView<RtValue>,
    pub lists: Seq<Seq<RtValue>>,
    pub texts: Seq<Seq<char>>,
}

/// The ids of the range `r` of the child table.
pub open spec fn children_of(s: SessionV, r: ExpressionRange) -> Seq<ExpressionId> {
    s.table.subrange(r.start(), r.start() + r.len())
}

/// Going on with the control `c`.
pub open spec fn going(st: StateV, c: Control, env: EnvView<RtValue>, ls: Seq<Seq<RtValue>>, ts: Seq<Seq<char>>) -> Step {
    Step {
        state: StateV { control: c, frames: st.frames, values: st.values },
        action: EvalAction::Continue,
        env,
        lists: ls,
        texts: ts,
    }
}

/// Stopping with the error `e` at `span`.
pub open spec fn failing(e: RuntimeError, span: Span, env: EnvView<RtValue>, ls: Seq<Seq<RtValue>>, ts: Seq<Seq<char>>) -> Step {
    Step {
        state: StateV { control: Control::Stopped, frames: Seq::empty(), values: Seq::empty() },
        action: EvalAction::Failed(Spanned { value: e, span }),
        env,
        lists: ls,
        texts: ts,
    }
}

/// Evaluating `e` in scope `sc`, to come back to the frame `f`.
pub open spec fn entering(st: StateV, e: ExpressionId, sc: ScopeId, f: Frame, env: EnvView<RtValue>, ls: Seq<Seq<RtValue>>, ts: Seq<Seq<char>>) -> Step {
    Step {
        state: StateV { control: Control::Eval(e, sc), frames: st.frames.push(f), values: st.values },
        action: EvalAction::Continue,
        env,
        lists: ls,
        texts: ts,
    }
}

/// Evaluating the expression `e` in scope `sc`.
pub open spec fn eval_spec(s: SessionV, env: EnvView<RtValue>, ls: Seq<Seq<RtValue>>, ts: Seq<Seq<char>>, st: StateV, e: ExpressionId, sc: ScopeId) -> Step {
    let x = s.exprs[e.index()];
    let span = x.span;
    match x.value {
        Expression::Null => going(st, Control::Value(RtValue::Null), env, ls, ts),
        Expression::Boolean(b) => going(st, Control::Value(RtValue::Boolean(b)), env, ls, ts),
        Expression::Integer(i) => going(st, Control::Value(RtValue::Integer(i)), env, ls, ts),
        Expression::Float(t) => Step {
            state: StateV { control: Control::AwaitFloat { span }, frames: st.frames, values: st.values },
            action: EvalAction::ParseFloat { text: t, span },
            env,
            lists: ls,
            texts: ts,
        },
        Expression::String(t) => going(
            st,
            Control::Value(RtValue::String(TextId(ts.len() as usize))),
            env,
            ls,
            ts.push(range_text(s.text, t)),
        ),
        Expression::Symbol(v) => match env.lookup(sc.index(), v) {
            Some(x) => going(st, Control::Value(x), env, ls, ts),
            None => failing(RuntimeError::UndefinedVariable, span, env, ls, ts),
        },
        Expression::SymbolQ(v) => going(st, Control::Value(RtValue::Symbol(v)), env, ls, ts),
        Expression::List(r) => if r.len() == 0 {
            going(st, Control::Value(RtValue::Null), env, ls, ts)
        } else {
            entering(st, children_of(s, r)[0], sc, Frame::List { ids: r, next: 0, env: sc, base: st.values.len() as usize }, env, ls, ts)
        },
        Expression::Do(r) => if r.len() == 0 {
            going(st, Control::Value(RtValue::Null), env, ls, ts)
        } else {
            entering(st, children_of(s, r)[0], sc, Frame::Do { ids: r, next: 0, env: sc }, env, ls, ts)
        },
        Expression::Call { call, args } => entering(st, call, sc, Frame::CallHead { args, env: sc, span }, env, ls, ts),
        Expression::If { cond, t_branch, f_branch } => entering(st, cond, sc, Frame::If { t_branch, f_branch, env: sc }, env, ls, ts),
        Expression::Fn { req_params, rest_param, body } => going(
            st,
            Control::Value(RtValue::UserFn(UserFn { req_params, rest_param, body, env: sc })),
            env,
            ls,
            ts,
        ),
        Expression::Bind { kind, name, value } => entering(st, value, sc, Frame::Bind { kind, name, env: sc, span }, env, ls, ts),
    }
}

/// Handing the value `v` to the frame on top.
pub open spec fn value_spec(s: SessionV, env: EnvView<RtValue>, ls: Seq<Seq<RtValue>>, ts: Seq<Seq<char>>, st: StateV, v: RtValue) -> Step {
    if st.frames.len() == 0 {
        Step { state: st, action: EvalAction::Done(v), env, lists: ls, texts: ts }
    } else {
        let rest = StateV { control: st.control, frames: st.frames.drop_last(), values: st.values };
        match st.frames.last() {
            Frame::Do { ids, next, env: sc } => if next + 1 < ids.len() {
                entering(rest, children_of(s, ids)[next + 1], sc, Frame::Do { ids, next: (next + 1) as usize, env: sc }, env, ls, ts)
            } else {
                going(rest, Control::Value(v), env, ls, ts)
            },
            Frame::List { ids, next, env: sc, base } => {
                let pushed = StateV { control: st.control, frames: rest.frames, values: st.values.push(v) };
                if next + 1 < ids.len() {
                    entering(pushed, children_of(s, ids)[next + 1], sc, Frame::List { ids, next: (next + 1) as usize, env: sc, base }, env, ls, ts)
                } else {
                    Step {
                        state: StateV {
                            control: Control::Value(RtValue::List(ListId(ls.len() as usize))),
                            frames: rest.frames,
                            values: pushed.values.take(base as int),
                        },
                        action: EvalAction::Continue,
                        env,
                        lists: ls.push(pushed.values.skip(base as int)),
                        texts: ts,
                    }
                }
            },
            Frame::Args { f, ids, next, env: sc, base, span } => {
                let pushed = StateV { control: st.control, frames: rest.frames, values: st.values.push(v) };
                if next + 1 < ids.len() {
                    entering(pushed, children_of(s, ids)[next + 1], sc, Frame::Args { f, ids, next: (next + 1) as usize, env: sc, base, span }, env, ls, ts)
                } else {
                    going(pushed, Control::Apply { f, base, span }, env, ls, ts)
                }
            },
            Frame::CallHead { args, env: sc, span } => if args.len() == 0 {
                going(rest, Control::Apply { f: v, base: st.values.len() as usize, span }, env, ls, ts)
            } else {
                entering(rest, children_of(s, args)[0], sc, Frame::Args { f: v, ids: args, next: 0, env: sc, base: st.values.len() as usize, span }, env, ls, ts)
            },
            Frame::If { t_branch, f_branch, env: sc } => going(
                rest,
                Control::Eval(if truthy(ls, ts, v) { t_branch } else { f_branch }, sc),
                env,
                ls,
                ts,
            ),
            Frame::Bind { kind, name, env: sc, span } => match kind {
                BindKind::Def => if env.binds.contains_key((sc.index(), name)) {
                    failing(RuntimeError::AlreadyDefinedVariable, span, env, ls, ts)
                } else {
                    going(rest, Control::Value(RtValue::Null), env.bind(sc.index(), name, v), ls, ts)
                },
                BindKind::Assign => match env.owner(sc.index(), name) {
                    Some(o) => going(rest, Control::Value(RtValue::Null), env.bind(o, name, v), ls, ts),
                    None => failing(RuntimeError::UndefinedVariable, span, env, ls, ts),
                },
            },
        }
    }
}

/// Binding `names` to `vals` one by one in scope `sc`, from index `i`,
/// stopping at a name the scope already has: the environment then, and
/// whether all were bound.
pub open spec fn bind_params(env: EnvView<RtValue>, sc: int, names: Seq<SymbolId>, vals: Seq<RtValue>, i: int) -> (EnvView<RtValue>, bool)
    decreases names.len() - i,
{
    if 0 <= i < names.len() {
        if env.binds.contains_key((sc, names[i])) {
            (env, false)
        } else {
            bind_params(env.bind(sc, names[i], vals[i]), sc, names, vals, i + 1)
        }
    } else {
        (env, true)
    }
}

/// Whether the parts of the function `f` are in the session and the environment.
pub open spec fn fn_ok(s: SessionV, env: EnvView<RtValue>, f: UserFn) -> bool {
    &&& env.has_scope(f.env.index())
    &&& s.params_ok(f.req_params)
    &&& 0 <= f.body.index() < s.exprs.len()
}

/// Calling `f` on the values of the stack from `base`: a builtin is run by
/// the host; a function of the language gets a new scope under its own, with
/// its parameters bound to the arguments and the rest in a list, and its body
/// is evaluated there.
pub open spec fn apply_spec(s: SessionV, env: EnvView<RtValue>, ls: Seq<Seq<RtValue>>, ts: Seq<Seq<char>>, st: StateV, f: RtValue, base: int, span: Span) -> Step {
    let args = st.values.skip(base);
    match f {
        RtValue::Builtin(k) => Step {
            state: StateV { control: Control::AwaitBuiltin { base: base as usize, span }, frames: st.frames, values: st.values },
            action: EvalAction::CallBuiltin { index: k, base: base as usize, span },
            env,
            lists: ls,
            texts: ts,
        },
        RtValue::UserFn(uf) => if !fn_ok(s, env, uf) {
            failing(RuntimeError::NotCallable, span, env, ls, ts)
        } else {
            let n = uf.req_params.end() - uf.req_params.start();
            if args.len() < n || (uf.rest_param is None && args.len() != n) {
                failing(RuntimeError::InvalidArgCount, span, env, ls, ts)
            } else {
                let sc = env.parents.len() as int;
                let (env2, ok) = bind_params(
                    env.with_child(uf.env.index()),
                    sc,
                    s.params.subrange(uf.req_params.start(), uf.req_params.end()),
                    args,
                    0,
                );
                let next = StateV { control: Control::Eval(uf.body, ScopeId::at(sc)), frames: st.frames, values: st.values.take(base) };
                if !ok {
                    failing(RuntimeError::AlreadyDefinedVariable, span, env2, ls, ts)
                } else {
                    match uf.rest_param {
                        None => Step { state: next, action: EvalAction::Continue, env: env2, lists: ls, texts: ts },
                        Some(r) => if env2.binds.contains_key((sc, r)) {
                            failing(RuntimeError::AlreadyDefinedVariable, span, env2, ls.push(args.skip(n)), ts)
                        } else {
                            Step {
                                state: next,
                                action: EvalAction::Continue,
                                env: env2.bind(sc, r, RtValue::List(ListId(ls.len() as usize))),
                                lists: ls.push(args.skip(n)),
                                texts: ts,
                            }
                        },
                    }
                }
            }
        },
        _ => failing(RuntimeError::NotCallable, span, env, ls, ts),
    }
}

/// One step of evaluation from the state `st`, with the host's reply to the
/// last action.
pub open spec fn eval_step_spec(
    s: SessionV,
    env: EnvView<RtValue>,
    ls: Seq<Seq<RtValue>>,
    ts: Seq<Seq<char>>,
    st: StateV,
    reply: Option<Result<RtValue, RuntimeError>>,
) -> Step {
    match st.control {
        Control::Eval(e, sc) => eval_spec(s, env, ls, ts, st, e, sc),
        Control::Value(v) => value_spec(s, env, ls, ts, st, v),
        Control::Apply { f, base, span } => apply_spec(s, env, ls, ts, st, f, base as int, span),
        Control::AwaitBuiltin { base, span } => match reply {
            Some(Ok(v)) => Step {
                state: StateV { control: Control::Value(v), frames: st.frames, values: st.values.take(base as int) },
                action: EvalAction::Continue,
                env,
                lists: ls,
                texts: ts,
            },
            Some(Err(e)) => failing(e, span, env, ls, ts),
            None => Step { state: st, action: EvalAction::Continue, env, lists: ls, texts: ts },
        },
        Control::AwaitFloat { span } => match reply {
            Some(Ok(v)) => going(st, Control::Value(v), env, ls, ts),
            Some(Err(e)) => failing(e, span, env, ls, ts),
            None => Step { state: st, action: EvalAction::Continue, env, lists: ls, texts: ts },
        },
        Control::Stopped => Step { state: st, action: EvalAction::Continue, env, lists: ls, texts: ts },
    }
}

/// The stack height from which a frame gathers values, for the frames that do.
pub open spec fn frame_base(f: Frame) -> Option<int> {
    match f {
        Frame::List { base, .. } => Some(base as int),
        Frame::Args { base, .. } => Some(base as int),
        _ => None,
    }
}

/// Whether the frame `f` gathers from no higher than `b`.
pub open spec fn base_below(f: Frame, b: int) -> bool {
    match frame_base(f) {
        Some(x) => x <= b,
        None => true,
    }
}

/// The stack height that the next step keeps.
pub open spec fn control_base(c: Control, n: int) -> int {
    match c {
        Control::Apply { base, .. } => base as int,
        Control::AwaitBuiltin { base, .. } => base as int,
        _ => n,
    }
}

/// Whether the range `r` lists sub-expressions that the session holds.
pub open spec fn items_ok(s: SessionV, r: ExpressionRange, next: int) -> bool {
    &&& s.children_ok(r, s.exprs.len() as int)
    &&& 0 <= next < r.len()
}

/// Whether the frame `f` refers only to what exists, with `n` values on the stack.
pub open spec fn frame_ok(s: SessionV, env: EnvView<RtValue>, ls: Seq<Seq<RtValue>>, ts: Seq<Seq<char>>, f: Frame, n: int) -> bool {
    match f {
        Frame::Do { ids, next, env: sc } => items_ok(s, ids, next as int) && env.has_scope(sc.index()),
        Frame::List { ids, next, env: sc, base } => items_ok(s, ids, next as int) && env.has_scope(sc.index()) && base <= n,
        Frame::Args { f, ids, next, env: sc, base, .. } => items_ok(s, ids, next as int) && env.has_scope(sc.index()) && base <= n
            && held(ls, ts, f, ls.len() as int),
        Frame::CallHead { args, env: sc, .. } => s.children_ok(args, s.exprs.len() as int) && env.has_scope(sc.index()),
        Frame::If { t_branch, f_branch, env: sc } => 0 <= t_branch.index() < s.exprs.len() && 0 <= f_branch.index() < s.exprs.len()
            && env.has_scope(sc.index()),
        Frame::Bind { env: sc, .. } => env.has_scope(sc.index()),
    }
}

/// Whether the control `c` refers only to what exists, with `n` values on the stack.
pub open spec fn control_ok(s: SessionV, env: EnvView<RtValue>, ls: Seq<Seq<RtValue>>, ts: Seq<Seq<char>>, c: Control, n: int) -> bool {
    match c {
        Control::Eval(e, sc) => 0 <= e.index() < s.exprs.len() && env.has_scope(sc.index()),
        Control::Value(v) => held(ls, ts, v, ls.len() as int),
        Control::Apply { f, base, .. } => held(ls, ts, f, ls.len() as int) && base <= n,
        Control::AwaitBuiltin { base, .. } => base <= n,
        _ => true,
    }
}

/// Whether the state `st` refers only to what the session, the environment
/// and the heap hold, and its frames keep their values in stack order.
pub open spec fn state_ok(s: SessionV, env: EnvView<RtValue>, ls: Seq<Seq<RtValue>>, ts: Seq<Seq<char>>, st: StateV) -> bool {
    &&& forall|i: int| 0 <= i < st.values.len() ==> held(ls, ts, #[trigger] st.values[i], ls.len() as int)
    &&& control_ok(s, env, ls, ts, st.control, st.values.len() as int)
    &&& forall|i: int| 0 <= i < st.frames.len() ==> frame_ok(s, env, ls, ts, #[trigger] st.frames[i], st.values.len() as int)
    &&& forall|i: int, j: int|
        0 <= i < j < st.frames.len() && (#[trigger] frame_base(st.frames[j])) is Some ==> base_below(
            #[trigger] st.frames[i],
            frame_base(st.frames[j])->0,
        )
    &&& forall|i: int| 0 <= i < st.frames.len() ==> base_below(#[trigger] st.frames[i], control_base(st.control, st.values.len() as int))
    &&& control_base(st.control, st.values.len() as int) <= st.values.len()
}

/// Whether every variable of `env` holds a value of the heap.
pub open spec fn env_held(env: EnvView<RtValue>, ls: Seq<Seq<RtValue>>, ts: Seq<Seq<char>>) -> bool {
    forall|k: (int, SymbolId)| #[trigger] env.binds.contains_key(k) ==> held(ls, ts, env.binds[k], ls.len() as int)
}

/// Whether the result `r` of a step, with the environment `env1` and the
/// heap's lists `ls1` and texts `ts1` after it, is the step `sp`.
pub open spec fn step_is(
    sp: Step,
    r: (EvalState, EvalAction),
    env1: EnvView<RtValue>,
    ls1: Seq<Seq<RtValue>>,
    ts1: Seq<Seq<char>>,
) -> bool {
    &&& r.0@.control == sp.state.control
    &&& r.0@.frames == sp.state.frames
    &&& r.0@.values == sp.state.values
    &&& r.1 == sp.action
    &&& env1 == sp.env
    &&& ls1 == sp.lists
    &&& ts1 == sp.texts
}

/// A value held by a heap stays held as the heap grows.
pub proof fn lemma_held_grows(ls: Seq<Seq<RtValue>>, ts: Seq<Seq<char>>, ls2: Seq<Seq<RtValue>>, ts2: Seq<Seq<char>>, v: RtValue)
    requires
        ls.len() <= ls2.len(),
        ts.len() <= ts2.len(),
        held(ls, ts, v, ls.len() as int),
    ensures
        held(ls2, ts2, v, ls2.len() as int),
{
}

/// A state stays in order as the environment gains scopes and the heap grows.
pub proof fn lemma_state_grows(
    s: SessionV,
    env: EnvView<RtValue>,
    ls: Seq<Seq<RtValue>>,
    ts: Seq<Seq<char>>,
    env2: EnvView<RtValue>,
    ls2: Seq<Seq<RtValue>>,
    ts2: Seq<Seq<char>>,
    st: StateV,
)
    requires
        env.parents.len() <= env2.parents.len(),
        ls.len() <= ls2.len(),
        ts.len() <= ts2.len(),
        state_ok(s, env, ls, ts, st),
    ensures
        state_ok(s, env2, ls2, ts2, st),
{
    assert forall|i: int| 0 <= i < st.values.len() implies held(ls2, ts2, #[trigger] st.values[i], ls2.len() as int) by {
        lemma_held_grows(ls, ts, ls2, ts2, st.values[i]);
    }
    assert forall|i: int| 0 <= i < st.frames.len() implies frame_ok(s, env2, ls2, ts2, #[trigger] st.frames[i], st.values.len() as int) by {
        assert(frame_ok(s, env, ls, ts, st.frames[i], st.values.len() as int));
        if st.frames[i] is Args {
            lemma_held_grows(ls, ts, ls2, ts2, st.frames[i]->Args_f);
        }
    }
    match st.control {
        Control::Value(v) => lemma_held_grows(ls, ts, ls2, ts2, v),
        Control::Apply { f, .. } => lemma_held_grows(ls, ts, ls2, ts2, f),
        _ => {},
    }
}

/// A stopped state, with the error `e` at `span`.
fn failed(e: RuntimeError, span: Span) -> (r: (EvalState, EvalAction))
    ensures
        r.0@.control == Control::Stopped,
        r.0@.frames == Seq::<Frame>::empty(),
        r.0@.values == Seq::<RtValue>::empty(),
        r.1 == EvalAction::Failed(Spanned { value: e, span }),
{
    (EvalState { control: Control::Stopped, frames: Vec::new(), values: Vec::new() }, EvalAction::Failed(e.scopy(span)))
}

/// What a step needs: a well-formed session, environment and heap, a state
/// in order, and variables that hold values of the heap.
pub open spec fn machine_ok(sesh: &Session, envs: &Environment<RtValue>, heap: &Heap, st: StateV) -> bool {
    &&& sesh.wf()
    &&& session_v(sesh).wf()
    &&& envs.wf()
    &&& heap.wf()
    &&& state_ok(session_v(sesh), envs@, heap.lists(), heap.texts(), st)
    &&& env_held(envs@, heap.lists(), heap.texts())
}

/// The step from `Eval(e, sc)`.
fn step_eval(
    sesh: &Session,
    heap: &mut Heap,
    envs: &mut Environment<RtValue>,
    frames: Vec<Frame>,
    values: Vec<RtValue>,
    e: ExpressionId,
    sc: ScopeId,
) -> (r: (EvalState, EvalAction))
    requires
        machine_ok(sesh, old(envs), old(heap), StateV { control: Control::Eval(e, sc), frames: frames@, values: values@ }),
    ensures
        step_is(
            eval_spec(
                session_v(sesh),
                old(envs)@,
                old(heap).lists(),
                old(heap).texts(),
                StateV { control: Control::Eval(e, sc), frames: frames@, values: values@ },
                e,
                sc,
            ),
            r,
            final(envs)@,
            final(heap).lists(),
            final(heap).texts(),
        ),
        r.0.control is Stopped || machine_ok(sesh, final(envs), final(heap), r.0@),
{
    let ghost s = session_v(sesh);
    let ghost st = StateV { control: Control::Eval(e, sc), frames: frames@, values: values@ };
    let mut frames = frames;
    let x = *sesh.get_expression(e);
    let span = x.span;
    proof {
        assert(s.expr_ok(s.exprs[e.index()].value, e.index()));
    }
    match x.value {
        Expression::Null => (EvalState { control: Control::Value(RtValue::Null), frames, values }, EvalAction::Continue),
        Expression::Boolean(b) => (EvalState { control: Control::Value(RtValue::Boolean(b)), frames, values }, EvalAction::Continue),
        Expression::Integer(i) => (EvalState { control: Control::Value(RtValue::Integer(i)), frames, values }, EvalAction::Continue),
        Expression::SymbolQ(v) => (EvalState { control: Control::Value(RtValue::Symbol(v)), frames, values }, EvalAction::Continue),
        Expression::Float(t) => (
            EvalState { control: Control::AwaitFloat { span }, frames, values },
            EvalAction::ParseFloat { text: t, span },
        ),
        Expression::String(t) => {
            let ghost ls0 = heap.lists();
            let ghost ts0 = heap.texts();
            let text = sesh.get_string(t);
            proof {
                let (i0, j0) = choose|i: int, j: int|
                    0 <= i <= j <= s.text.len() && crate::text::byte_pos(s.text, i) == t.start()
                        && crate::text::byte_pos(s.text, j) == t.end();
                crate::runtime::tree::lemma_range_text(s.text, i0, j0, t);
                assert(text@ == range_text(s.text, t));
            }
            let v = heap.push_string(text);
            proof {
                lemma_state_grows(s, envs@, ls0, ts0, envs@, heap.lists(), heap.texts(), st);
                assert forall|k: (int, SymbolId)| #[trigger] envs@.binds.contains_key(k) implies held(heap.lists(), heap.texts(), envs@.binds[k], heap.lists().len() as int) by {
                    lemma_held_grows(ls0, ts0, heap.lists(), heap.texts(), envs@.binds[k]);
                }
            }
            (EvalState { control: Control::Value(v), frames, values }, EvalAction::Continue)
        },
        Expression::Symbol(v) => {
            match envs.get(sc, v) {
                Ok(x) => {
                    let x = *x;
                    proof {
                        lemma_owner_is_bound(envs@, sc.index(), v);
                    }
                    (EvalState { control: Control::Value(x), frames, values }, EvalAction::Continue)
                },
                Err(_) => failed(RuntimeError::UndefinedVariable, span),
            }
        },
        Expression::List(r) => {
            let ids = sesh.get_expressions(r);
            if ids.len() == 0 {
                (EvalState { control: Control::Value(RtValue::Null), frames, values }, EvalAction::Continue)
            } else {
                let first = ids[0];
                frames.push(Frame::List { ids: r, next: 0, env: sc, base: values.len() });
                proof {
                    assert(s.table[r.start()] == ids@[0]);
                    assert(frames@.last() == Frame::List { ids: r, next: 0, env: sc, base: values@.len() as usize });
                    assert forall|i: int| 0 <= i < frames@.len() implies frame_ok(s, envs@, heap.lists(), heap.texts(), #[trigger] frames@[i], values@.len() as int) by {
                        if i < frames@.len() - 1 {
                            assert(frames@[i] == st.frames[i]);
                        }
                    }
                }
                (EvalState { control: Control::Eval(first, sc), frames, values }, EvalAction::Continue)
            }
        },
        Expression::Do(r) => {
            let ids = sesh.get_expressions(r);
            if ids.len() == 0 {
                (EvalState { control: Control::Value(RtValue::Null), frames, values }, EvalAction::Continue)
            } else {
                let first = ids[0];
                frames.push(Frame::Do { ids: r, next: 0, env: sc });
                proof {
                    assert(s.table[r.start()] == ids@[0]);
                    assert forall|i: int| 0 <= i < frames@.len() implies frame_ok(s, envs@, heap.lists(), heap.texts(), #[trigger] frames@[i], values@.len() as int) by {
                        if i < frames@.len() - 1 {
                            assert(frames@[i] == st.frames[i]);
                        }
                    }
                }
                (EvalState { control: Control::Eval(first, sc), frames, values }, EvalAction::Continue)
            }
        },
        Expression::Call { call, args } => {
            frames.push(Frame::CallHead { args, env: sc, span });
            proof {
                assert forall|i: int| 0 <= i < frames@.len() implies frame_ok(s, envs@, heap.lists(), heap.texts(), #[trigger] frames@[i], values@.len() as int) by {
                    if i < frames@.len() - 1 {
                        assert(frames@[i] == st.frames[i]);
                    }
                }
            }
            (EvalState { control: Control::Eval(call, sc), frames, values }, EvalAction::Continue)
        },
        Expression::If { cond, t_branch, f_branch } => {
            frames.push(Frame::If { t_branch, f_branch, env: sc });
            proof {
                assert forall|i: int| 0 <= i < frames@.len() implies frame_ok(s, envs@, heap.lists(), heap.texts(), #[trigger] frames@[i], values@.len() as int) by {
                    if i < frames@.len() - 1 {
                        assert(frames@[i] == st.frames[i]);
                    }
                }
            }
            (EvalState { control: Control::Eval(cond, sc), frames, values }, EvalAction::Continue)
        },
        Expression::Fn { req_params, rest_param, body } => (
            EvalState { control: Control::Value(RtValue::UserFn(UserFn { req_params, rest_param, body, env: sc })), frames, values },
            EvalAction::Continue,
        ),
        Expression::Bind { kind, name, value } => {
            frames.push(Frame::Bind { kind, name, env: sc, span });
            proof {
                assert forall|i: int| 0 <= i < frames@.len() implies frame_ok(s, envs@, heap.lists(), heap.texts(), #[trigger] frames@[i], values@.len() as int) by {
                    if i < frames@.len() - 1 {
                        assert(frames@[i] == st.frames[i]);
                    }
                }
            }
            (EvalState { control: Control::Eval(value, sc), frames, values }, EvalAction::Continue)
        },
    }
}

/// The step from `Value(v)`.
fn step_value(
    sesh: &Session,
    heap: &mut Heap,
    envs: &mut Environment<RtValue>,
    frames: Vec<Frame>,
    values: Vec<RtValue>,
    v: RtValue,
) -> (r: (EvalState, EvalAction))
    requires
        machine_ok(sesh, old(envs), old(heap), StateV { control: Control::Value(v), frames: frames@, values: values@ }),
    ensures
        step_is(
            value_spec(
                session_v(sesh),
                old(envs)@,
                old(heap).lists(),
                old(heap).texts(),
                StateV { control: Control::Value(v), frames: frames@, values: values@ },
                v,
            ),
            r,
            final(envs)@,
            final(heap).lists(),
            final(heap).texts(),
        ),
        r.0.control is Stopped || machine_ok(sesh, final(envs), final(heap), r.0@),
{
    let ghost s = session_v(sesh);
    let ghost st = StateV { control: Control::Value(v), frames: frames@, values: values@ };
    let mut frames = frames;
    let mut values = values;
    let top = match frames.pop() {
        Some(top) => top,
        None => {
            return (EvalState { control: Control::Value(v), frames, values }, EvalAction::Done(v));
        },
    };
    let ghost rest = frames@;
    proof {
        assert(rest == st.frames.drop_last());
        assert(top == st.frames.last());
        assert(frame_ok(s, envs@, heap.lists(), heap.texts(), st.frames[st.frames.len() - 1], values@.len() as int));
        assert forall|i: int| 0 <= i < rest.len() implies rest[i] == st.frames[i] by {}
    }
    match top {
        Frame::Do { ids, next, env: sc } => {
            let items = sesh.get_expressions(ids);
            if items.len() - next > 1 {
                let e = items[next + 1];
                frames.push(Frame::Do { ids, next: next + 1, env: sc });
                proof {
                    assert(s.table[ids.start() + next + 1] == items@[next + 1]);
                    assert forall|i: int| 0 <= i < frames@.len() implies frame_ok(s, envs@, heap.lists(), heap.texts(), #[trigger] frames@[i], values@.len() as int) by {
                        if i < frames@.len() - 1 {
                            assert(frames@[i] == st.frames[i]);
                        }
                    }
                }
                (EvalState { control: Control::Eval(e, sc), frames, values }, EvalAction::Continue)
            } else {
                (EvalState { control: Control::Value(v), frames, values }, EvalAction::Continue)
            }
        },
        Frame::List { ids, next, env: sc, base } => {
            let items = sesh.get_expressions(ids);
            values.push(v);
            if items.len() - next > 1 {
                let e = items[next + 1];
                frames.push(Frame::List { ids, next: next + 1, env: sc, base });
                proof {
                    assert(s.table[ids.start() + next + 1] == items@[next + 1]);
                    assert forall|i: int| 0 <= i < frames@.len() implies frame_ok(s, envs@, heap.lists(), heap.texts(), #[trigger] frames@[i], values@.len() as int) by {
                        if i < frames@.len() - 1 {
                            assert(frames@[i] == st.frames[i]);
                        }
                    }
                    assert forall|i: int| 0 <= i < values@.len() implies held(heap.lists(), heap.texts(), #[trigger] values@[i], heap.lists().len() as int) by {
                        if i < values@.len() - 1 {
                            assert(values@[i] == st.values[i]);
                        }
                    }
                }
                (EvalState { control: Control::Eval(e, sc), frames, values }, EvalAction::Continue)
            } else {
                let ghost all = values@;
                let ghost ls0 = heap.lists();
                let ghost ts0 = heap.texts();
                let gathered = values.split_off(base);
                proof {
                    assert forall|j: int| 0 <= j < gathered@.len() implies heap.holds(#[trigger] gathered@[j]) by {
                        assert(gathered@[j] == all[base + j]);
                        if base + j < all.len() - 1 {
                            assert(all[base + j] == st.values[base + j]);
                        }
                    }
                    assert(gathered@ == all.skip(base as int));
                    assert(values@ == all.take(base as int));
                }
                let list = heap.push_list(gathered);
                proof {
                    assert forall|k: (int, SymbolId)| #[trigger] envs@.binds.contains_key(k) implies held(heap.lists(), heap.texts(), envs@.binds[k], heap.lists().len() as int) by {
                        lemma_held_grows(ls0, ts0, heap.lists(), heap.texts(), envs@.binds[k]);
                    }
                    assert forall|i: int| 0 <= i < values@.len() implies held(heap.lists(), heap.texts(), #[trigger] values@[i], heap.lists().len() as int) by {
                        assert(values@[i] == st.values[i]);
                        lemma_held_grows(ls0, ts0, heap.lists(), heap.texts(), st.values[i]);
                    }
                    assert forall|i: int| 0 <= i < frames@.len() implies frame_ok(s, envs@, heap.lists(), heap.texts(), #[trigger] frames@[i], values@.len() as int) by {
                        assert(frames@[i] == st.frames[i]);
                        assert(base_below(st.frames[i], base as int));
                        if frames@[i] is Args {
                            lemma_held_grows(ls0, ts0, heap.lists(), heap.texts(), frames@[i]->Args_f);
                        }
                    }
                }
                (EvalState { control: Control::Value(list), frames, values }, EvalAction::Continue)
            }
        },
        Frame::Args { f, ids, next, env: sc, base, span } => {
            let items = sesh.get_expressions(ids);
            values.push(v);
            proof {
                assert forall|i: int| 0 <= i < values@.len() implies held(heap.lists(), heap.texts(), #[trigger] values@[i], heap.lists().len() as int) by {
                    if i < values@.len() - 1 {
                        assert(values@[i] == st.values[i]);
                    }
                }
            }
            if items.len() - next > 1 {
                let e = items[next + 1];
                frames.push(Frame::Args { f, ids, next: next + 1, env: sc, base, span });
                proof {
                    assert(s.table[ids.start() + next + 1] == items@[next + 1]);
                    assert forall|i: int| 0 <= i < frames@.len() implies frame_ok(s, envs@, heap.lists(), heap.texts(), #[trigger] frames@[i], values@.len() as int) by {
                        if i < frames@.len() - 1 {
                            assert(frames@[i] == st.frames[i]);
                        }
                    }
                }
                (EvalState { control: Control::Eval(e, sc), frames, values }, EvalAction::Continue)
            } else {
                proof {
                    assert forall|i: int| 0 <= i < frames@.len() implies frame_ok(s, envs@, heap.lists(), heap.texts(), #[trigger] frames@[i], values@.len() as int) by {
                        assert(frames@[i] == st.frames[i]);
                    }
                }
                (EvalState { control: Control::Apply { f, base, span }, frames, values }, EvalAction::Continue)
            }
        },
        Frame::CallHead { args, env: sc, span } => {
            let items = sesh.get_expressions(args);
            if items.len() == 0 {
                (EvalState { control: Control::Apply { f: v, base: values.len(), span }, frames, values }, EvalAction::Continue)
            } else {
                let e = items[0];
                frames.push(Frame::Args { f: v, ids: args, next: 0, env: sc, base: values.len(), span });
                proof {
                    assert(s.table[args.start()] == items@[0]);
                    assert forall|i: int| 0 <= i < frames@.len() implies frame_ok(s, envs@, heap.lists(), heap.texts(), #[trigger] frames@[i], values@.len() as int) by {
                        if i < frames@.len() - 1 {
                            assert(frames@[i] == st.frames[i]);
                        }
                    }
                }
                (EvalState { control: Control::Eval(e, sc), frames, values }, EvalAction::Continue)
            }
        },
        Frame::If { t_branch, f_branch, env: sc } => {
            let e = if is_truthy(heap, v) {
                t_branch
            } else {
                f_branch
            };
            (EvalState { control: Control::Eval(e, sc), frames, values }, EvalAction::Continue)
        },
        Frame::Bind { kind, name, env: sc, span } => {
            let ghost e0 = envs@;
            let done = match kind {
                BindKind::Def => envs.def(sc, name, v),
                BindKind::Assign => envs.set(sc, name, v),
            };
            match done {
                Ok(()) => {
                    proof {
                        if kind == BindKind::Assign {
                            lemma_owner_is_bound(e0, sc.index(), name);
                        }
                        assert forall|k: (int, SymbolId)| #[trigger] envs@.binds.contains_key(k) implies held(heap.lists(), heap.texts(), envs@.binds[k], heap.lists().len() as int) by {
                            if e0.binds.contains_key(k) {
                                assert(held(heap.lists(), heap.texts(), e0.binds[k], heap.lists().len() as int));
                            }
                        }
                    }
                    (EvalState { control: Control::Value(RtValue::Null), frames, values }, EvalAction::Continue)
                },
                Err(e) => failed(e, span),
            }
        },
    }
}

/// The step from `Apply { f, base, span }`.
fn step_apply(
    sesh: &Session,
    heap: &mut Heap,
    envs: &mut Environment<RtValue>,
    frames: Vec<Frame>,
    values: Vec<RtValue>,
    f: RtValue,
    base: usize,
    span: Span,
) -> (r: (EvalState, EvalAction))
    requires
        machine_ok(sesh, old(envs), old(heap), StateV { control: Control::Apply { f, base, span }, frames: frames@, values: values@ }),
    ensures
        step_is(
            apply_spec(
                session_v(sesh),
                old(envs)@,
                old(heap).lists(),
                old(heap).texts(),
                StateV { control: Control::Apply { f, base, span }, frames: frames@, values: values@ },
                f,
                base as int,
                span,
            ),
            r,
            final(envs)@,
            final(heap).lists(),
            final(heap).texts(),
        ),
        r.0.control is Stopped || machine_ok(sesh, final(envs), final(heap), r.0@),
{
    let ghost s = session_v(sesh);
    let ghost st = StateV { control: Control::Apply { f, base, span }, frames: frames@, values: values@ };
    let mut values = values;
    match f {
        RtValue::Builtin(k) => (
            EvalState { control: Control::AwaitBuiltin { base, span }, frames, values },
            EvalAction::CallBuiltin { index: k, base, span },
        ),
        RtValue::UserFn(uf) => {
            let (a, b) = uf.req_params.bounds();
            if !(envs.has_scope(uf.env) && a <= b && b <= sesh.get_n_params() && uf.body.to_index() < sesh.n_expressions()) {
                return failed(RuntimeError::NotCallable, span);
            }
            let n = b - a;
            let n_args = values.len() - base;
            if n_args < n || (uf.rest_param.is_none() && n_args != n) {
                return failed(RuntimeError::InvalidArgCount, span);
            }
            let ghost env0 = envs@;
            let ghost ls0 = heap.lists();
            let ghost ts0 = heap.texts();
            let scope = envs.child(uf.env);
            let ghost env1 = envs@;
            let ghost sc = env0.parents.len() as int;
            let params = sesh.get_params(uf.req_params);
            let ghost names = params@;
            let ghost args = values@.skip(base as int);
            let mut i: usize = 0;
            let mut bound = true;
            proof {
                assert(envs@.has_scope(sc));
            }
            while bound && i < params.len()
                invariant
                    envs.wf(),
                    envs@.parents == env1.parents,
                    envs@.has_scope(sc),
                    scope.index() == sc,
                    names == params@,
                    names.len() == n,
                    base + n <= values.len(),
                    args == values@.skip(base as int),
                    0 <= i <= names.len(),
                    heap.lists() == ls0,
                    heap.texts() == ts0,
                    forall|j: int| 0 <= j < values@.len() ==> held(ls0, ts0, #[trigger] values@[j], ls0.len() as int),
                    env_held(envs@, ls0, ts0),
                    bound ==> bind_params(env1, sc, names, args, 0) == bind_params(envs@, sc, names, args, i as int),
                    !bound ==> bind_params(env1, sc, names, args, 0) == (envs@, false),
                decreases (names.len() - i) * 2 + if bound { 1int } else { 0int },
            {
                proof {
                    assert(args[i as int] == values@[base + i]);
                }
                match envs.def(scope, params[i], values[base + i]) {
                    Ok(()) => {
                        i = i + 1;
                    },
                    Err(_) => {
                        bound = false;
                    },
                }
            }
            if !bound {
                return failed(RuntimeError::AlreadyDefinedVariable, span);
            }
            let ghost env2 = envs@;
            match uf.rest_param {
                Some(r) => {
                    let rest = values.split_off(base + n);
                    proof {
                        assert(rest@ =~= args.skip(n as int));
                        assert forall|j: int| 0 <= j < rest@.len() implies heap.holds(#[trigger] rest@[j]) by {
                            assert(rest@[j] == st.values[base + n + j]);
                        }
                    }
                    let list = heap.push_list(rest);
                    match envs.def(scope, r, list) {
                        Ok(()) => {},
                        Err(_) => {
                            return failed(RuntimeError::AlreadyDefinedVariable, span);
                        },
                    }
                },
                None => {},
            }
            values.truncate(base);
            proof {
                assert(values@ =~= st.values.take(base as int));
            }
            (EvalState { control: Control::Eval(uf.body, scope), frames, values }, EvalAction::Continue)
        },
        _ => failed(RuntimeError::NotCallable, span),
    }
}

/// One step of evaluation from `st`, with the host's reply to the last
/// action: the step that `eval_step_spec` describes. A state in order stays
/// in order, unless evaluation has stopped.
pub fn eval_step(
    sesh: &Session,
    heap: &mut Heap,
    envs: &mut Environment<RtValue>,
    st: EvalState,
    reply: Option<Result<RtValue, RuntimeError>>,
) -> (r: (EvalState, EvalAction))
    requires
        machine_ok(sesh, old(envs), old(heap), st@),
        reply matches Some(Ok(v)) ==> old(heap).holds(v),
    ensures
        step_is(
            eval_step_spec(session_v(sesh), old(envs)@, old(heap).lists(), old(heap).texts(), st@, reply),
            r,
            final(envs)@,
            final(heap).lists(),
            final(heap).texts(),
        ),
        r.0.control is Stopped || machine_ok(sesh, final(envs), final(heap), r.0@),
{
    let ghost s0 = st@;
    let EvalState { control, frames, values } = st;
    match control {
        Control::Eval(e, sc) => step_eval(sesh, heap, envs, frames, values, e, sc),
        Control::Value(v) => step_value(sesh, heap, envs, frames, values, v),
        Control::Apply { f, base, span } => step_apply(sesh, heap, envs, frames, values, f, base, span),
        Control::AwaitBuiltin { base, span } => match reply {
            Some(Ok(v)) => {
                let mut values = values;
                values.truncate(base);
                proof {
                    assert(values@ =~= s0.values.take(base as int));
                    assert forall|i: int| 0 <= i < frames@.len() implies frame_ok(session_v(sesh), envs@, heap.lists(), heap.texts(), #[trigger] frames@[i], values@.len() as int) by {
                        assert(frame_ok(session_v(sesh), envs@, heap.lists(), heap.texts(), s0.frames[i], s0.values.len() as int));
                        assert(base_below(s0.frames[i], base as int));
                    }
                }
                (EvalState { control: Control::Value(v), frames, values }, EvalAction::Continue)
            },
            Some(Err(e)) => failed(e, span),
            None => (EvalState { control, frames, values }, EvalAction::Continue),
        },
        Control::AwaitFloat { span } => match reply {
            Some(Ok(v)) => (EvalState { control: Control::Value(v), frames, values }, EvalAction::Continue),
            Some(Err(e)) => failed(e, span),
            None => (EvalState { control, frames, values }, EvalAction::Continue),
        },
        Control::Stopped => (EvalState { control, frames, values }, EvalAction::Continue),
    }
}

impl EvalState {
    /// Evaluating the expressions `roots` one after the other in scope `env`:
    /// the value is that of the last, or `null` where there are none.
    pub fn start(sesh: &Session, envs: &Environment<RtValue>, heap: &Heap, roots: ExpressionRange, env: ScopeId) -> (r: Self)
        requires
            session_v(sesh).children_ok(roots, sesh.expressions().len() as int),
            envs@.has_scope(env.index()),
        ensures
            roots.len() == 0 ==> r@.control == Control::Value(RtValue::Null) && r@.frames == Seq::<Frame>::empty(),
            roots.len() > 0 ==> r@.control == Control::Eval(children_of(session_v(sesh), roots)[0], env)
                && r@.frames == seq![Frame::Do { ids: roots, next: 0, env }],
            r@.values == Seq::<RtValue>::empty(),
            state_ok(session_v(sesh), envs@, heap.lists(), heap.texts(), r@),
    {
        let ids = sesh.get_expressions(roots);
        let r = if ids.len() == 0 {
            EvalState { control: Control::Value(RtValue::Null), frames: Vec::new(), values: Vec::new() }
        } else {
            let mut frames = Vec::new();
            frames.push(Frame::Do { ids: roots, next: 0, env });
            proof {
                assert(session_v(sesh).table[roots.start()] == ids@[0]);
            }
            EvalState { control: Control::Eval(ids[0], env), frames, values: Vec::new() }
        };
        proof {
            assert(r@.frames =~= (if ids.len() == 0 { Seq::<Frame>::empty() } else { seq![Frame::Do { ids: roots, next: 0, env }] }));
            assert(r@.values =~= Seq::<RtValue>::empty());
        }
        r
    }

    /// Evaluating the expression `e` in scope `env`.
    pub fn eval(e: ExpressionId, env: ScopeId) -> (r: Self)
        ensures
            r@.control == Control::Eval(e, env),
            r@.frames == Seq::<Frame>::empty(),
            r@.values == Seq::<RtValue>::empty(),
    {
        let r = EvalState { control: Control::Eval(e, env), frames: Vec::new(), values: Vec::new() };
        proof {
            assert(r@.frames =~= Seq::<Frame>::empty());
            assert(r@.values =~= Seq::<RtValue>::empty());
        }
        r
    }

    /// Calling `f` on the values `args`, for a call at `span`.
    pub fn apply(f: RtValue, args: Vec<RtValue>, span: Span) -> (r: Self)
        ensures
            r@.control == (Control::Apply { f, base: 0, span }),
            r@.frames == Seq::<Frame>::empty(),
            r@.values == args@,
    {
        let r = EvalState { control: Control::Apply { f, base: 0, span }, frames: Vec::new(), values: args };
        proof {
            assert(r@.frames =~= Seq::<Frame>::empty());
        }
        r
    }
}

/// Whether `env2` keeps every scope and every variable of `env`.
pub open spec fn env_grows(env: EnvView<RtValue>, env2: EnvView<RtValue>) -> bool {
    &&& env.parents.is_prefix_of(env2.parents)
    &&& forall|k: (int, SymbolId)| #[trigger] env.binds.contains_key(k) ==> env2.binds.contains_key(k)
}

proof fn lemma_bind_params_grows(env: EnvView<RtValue>, sc: int, names: Seq<SymbolId>, vals: Seq<RtValue>, i: int)
    ensures
        env_grows(env, bind_params(env, sc, names, vals, i).0),
    decreases names.len() - i,
{
    assert(env.parents.is_prefix_of(env.parents));
    if 0 <= i < names.len() && !env.binds.contains_key((sc, names[i])) {
        let e1 = env.bind(sc, names[i], vals[i]);
        lemma_bind_params_grows(e1, sc, names, vals, i + 1);
        let e2 = bind_params(e1, sc, names, vals, i + 1).0;
        assert(e1.parents == env.parents);
        assert forall|k: (int, SymbolId)| #[trigger] env.binds.contains_key(k) implies e2.binds.contains_key(k) by {
            assert(e1.binds.contains_key(k));
        }
    }
}

/// A step of evaluation only adds: every scope and variable stays, and the
/// heap's lists and texts are kept, with new ones after them.
pub proof fn law_step_grows(
    s: SessionV,
    env: EnvView<RtValue>,
    ls: Seq<Seq<RtValue>>,
    ts: Seq<Seq<char>>,
    st: StateV,
    reply: Option<Result<RtValue, RuntimeError>>,
)
    ensures
        env_grows(env, eval_step_spec(s, env, ls, ts, st, reply).env),
        ls.is_prefix_of(eval_step_spec(s, env, ls, ts, st, reply).lists),
        ts.is_prefix_of(eval_step_spec(s, env, ls, ts, st, reply).texts),
{
    let sp = eval_step_spec(s, env, ls, ts, st, reply);
    assert(env.parents.is_prefix_of(env.parents));
    match st.control {
        Control::Apply { f, base, span } => {
            if let RtValue::UserFn(uf) = f {
                let env1 = env.with_child(uf.env.index());
                let sc = env.parents.len() as int;
                let args = st.values.skip(base as int);
                let names = s.params.subrange(uf.req_params.start(), uf.req_params.end());
                lemma_bind_params_grows(env1, sc, names, args, 0);
                let env2 = bind_params(env1, sc, names, args, 0).0;
                assert(env.parents.is_prefix_of(env1.parents));
                assert(env.parents.is_prefix_of(env2.parents)) by {
                    assert forall|i: int| 0 <= i < env.parents.len() implies env.parents[i] == env2.parents[i] by {
                        assert(env1.parents[i] == env2.parents[i]);
                    }
                }
                assert forall|k: (int, SymbolId)| #[trigger] env.binds.contains_key(k) implies env2.binds.contains_key(k) by {
                    assert(env1.binds.contains_key(k));
                }
            }
        },
        _ => {},
    }
}

/// The state with the value `v` handed to the frames `frames`.
pub open spec fn handing(v: RtValue, frames: Seq<Frame>, values: Seq<RtValue>) -> StateV {
    StateV { control: Control::Value(v), frames, values }
}

/// In `if`, a true condition leads on to the then-branch and a false one to
/// the else-branch, in the scope of the `if`: `false`, `null`, `0`, `0.0`,
/// an empty text and an empty list are false; `true`, other integers,
/// symbols and functions are true.
pub proof fn law_if_branches(
    s: SessionV,
    env: EnvView<RtValue>,
    ls: Seq<Seq<RtValue>>,
    ts: Seq<Seq<char>>,
    frames: Seq<Frame>,
    values: Seq<RtValue>,
    v: RtValue,
    t_branch: ExpressionId,
    f_branch: ExpressionId,
    sc: ScopeId,
    reply: Option<Result<RtValue, RuntimeError>>,
)
    ensures
        ({
            let sp = eval_step_spec(s, env, ls, ts, handing(v, frames.push(Frame::If { t_branch, f_branch, env: sc }), values), reply);
            &&& sp.state.frames == frames
            &&& sp.state.values == values
            &&& sp.env == env
            &&& sp.lists == ls
            &&& sp.action == EvalAction::Continue
            &&& (v == RtValue::Boolean(true) ==> sp.state.control == Control::Eval(t_branch, sc))
            &&& (v == RtValue::Boolean(false) || v == RtValue::Null || v == RtValue::Integer(0) ==> sp.state.control
                == Control::Eval(f_branch, sc))
            &&& (v matches RtValue::Integer(i) && i != 0 ==> sp.state.control == Control::Eval(t_branch, sc))
            &&& (v is Symbol || v is Builtin || v is UserFn ==> sp.state.control == Control::Eval(t_branch, sc))
            &&& (v matches RtValue::String(x) ==> sp.state.control == Control::Eval(
                if ts[x.0 as int].len() > 0 { t_branch } else { f_branch },
                sc,
            ))
            &&& (v matches RtValue::List(x) ==> sp.state.control == Control::Eval(
                if ls[x.0 as int].len() > 0 { t_branch } else { f_branch },
                sc,
            ))
            &&& (v matches RtValue::Float(x) ==> sp.state.control == Control::Eval(
                if ts[x.0 as int] == "0.0"@ || ts[x.0 as int] == "-0.0"@ { f_branch } else { t_branch },
                sc,
            ))
        }),
{
    let st = handing(v, frames.push(Frame::If { t_branch, f_branch, env: sc }), values);
    assert(st.frames.drop_last() =~= frames);
}

/// `def` gives `null` and binds the name in its scope, where it then has the
/// value; a name the scope already has is refused.
pub proof fn law_def_binds(
    s: SessionV,
    env: EnvView<RtValue>,
    ls: Seq<Seq<RtValue>>,
    ts: Seq<Seq<char>>,
    frames: Seq<Frame>,
    values: Seq<RtValue>,
    v: RtValue,
    name: SymbolId,
    sc: ScopeId,
    span: Span,
    reply: Option<Result<RtValue, RuntimeError>>,
)
    ensures
        ({
            let sp = eval_step_spec(s, env, ls, ts, handing(v, frames.push(Frame::Bind { kind: BindKind::Def, name, env: sc, span }), values), reply);
            &&& !env.binds.contains_key((sc.index(), name)) ==> {
                &&& sp.state.control == Control::Value(RtValue::Null)
                &&& sp.state.frames == frames
                &&& sp.env.lookup(sc.index(), name) == Some(v)
                &&& sp.env.parents == env.parents
            }
            &&& env.binds.contains_key((sc.index(), name)) ==> {
                &&& sp.action == EvalAction::Failed(Spanned { value: RuntimeError::AlreadyDefinedVariable, span })
                &&& sp.env == env
            }
        }),
{
    let st = handing(v, frames.push(Frame::Bind { kind: BindKind::Def, name, env: sc, span }), values);
    assert(st.frames.drop_last() =~= frames);
    if !env.binds.contains_key((sc.index(), name)) {
        crate::runtime::environment::law_lookup_after_bind(env, sc.index(), name, v);
    }
}

/// `set` gives `null` and changes the variable that the name means in its
/// scope, which then has the value there; a name no scope has is refused.
pub proof fn law_set_assigns(
    s: SessionV,
    env: EnvView<RtValue>,
    ls: Seq<Seq<RtValue>>,
    ts: Seq<Seq<char>>,
    frames: Seq<Frame>,
    values: Seq<RtValue>,
    v: RtValue,
    name: SymbolId,
    sc: ScopeId,
    span: Span,
    reply: Option<Result<RtValue, RuntimeError>>,
)
    requires
        env.wf(),
        env.has_scope(sc.index()),
    ensures
        ({
            let sp = eval_step_spec(s, env, ls, ts, handing(v, frames.push(Frame::Bind { kind: BindKind::Assign, name, env: sc, span }), values), reply);
            &&& env.lookup(sc.index(), name) is Some ==> {
                &&& sp.state.control == Control::Value(RtValue::Null)
                &&& sp.state.frames == frames
                &&& sp.env.lookup(sc.index(), name) == Some(v)
            }
            &&& env.lookup(sc.index(), name) is None ==> {
                &&& sp.action == EvalAction::Failed(Spanned { value: RuntimeError::UndefinedVariable, span })
                &&& sp.env == env
            }
        }),
{
    let st = handing(v, frames.push(Frame::Bind { kind: BindKind::Assign, name, env: sc, span }), values);
    assert(st.frames.drop_last() =~= frames);
    if env.owner(sc.index(), name) is Some {
        crate::runtime::environment::law_lookup_after_assign(env, sc.index(), name, v);
    }
}

/// A variable evaluates to the value it has in the scope, and a name that
/// no scope has is refused at the variable.
pub proof fn law_variable_lookup(
    s: SessionV,
    env: EnvView<RtValue>,
    ls: Seq<Seq<RtValue>>,
    ts: Seq<Seq<char>>,
    st: StateV,
    e: ExpressionId,
    sc: ScopeId,
    reply: Option<Result<RtValue, RuntimeError>>,
)
    requires
        st.control == Control::Eval(e, sc),
        s.exprs[e.index()].value is Symbol,
    ensures
        ({
            let sp = eval_step_spec(s, env, ls, ts, st, reply);
            let name = s.exprs[e.index()].value->Symbol_0;
            &&& env.lookup(sc.index(), name) matches Some(x) ==> sp.state.control == Control::Value(x) && sp.env == env
                && sp.state.frames == st.frames
            &&& env.lookup(sc.index(), name) is None ==> sp.action == EvalAction::Failed(
                Spanned { value: RuntimeError::UndefinedVariable, span: s.exprs[e.index()].span },
            )
        }),
{
}

/// `do` evaluates its items in turn, in its scope, and gives the value of
/// the last.
pub proof fn law_do_gives_last(
    s: SessionV,
    env: EnvView<RtValue>,
    ls: Seq<Seq<RtValue>>,
    ts: Seq<Seq<char>>,
    frames: Seq<Frame>,
    values: Seq<RtValue>,
    v: RtValue,
    ids: ExpressionRange,
    next: usize,
    sc: ScopeId,
    reply: Option<Result<RtValue, RuntimeError>>,
)
    ensures
        ({
            let sp = eval_step_spec(s, env, ls, ts, handing(v, frames.push(Frame::Do { ids, next, env: sc }), values), reply);
            &&& next + 1 >= ids.len() ==> sp.state.control == Control::Value(v) && sp.state.frames == frames
            &&& next + 1 < ids.len() ==> sp.state.control == Control::Eval(children_of(s, ids)[next + 1], sc)
            &&& sp.env == env
            &&& sp.state.values == values
        }),
{
    let st = handing(v, frames.push(Frame::Do { ids, next, env: sc }), values);
    assert(st.frames.drop_last() =~= frames);
}

/// The last item of a list literal makes a new list of the values of all
/// its items, in order, and gives it.
pub proof fn law_list_literal(
    s: SessionV,
    env: EnvView<RtValue>,
    ls: Seq<Seq<RtValue>>,
    ts: Seq<Seq<char>>,
    frames: Seq<Frame>,
    values: Seq<RtValue>,
    v: RtValue,
    ids: ExpressionRange,
    next: usize,
    sc: ScopeId,
    base: usize,
    reply: Option<Result<RtValue, RuntimeError>>,
)
    requires
        next + 1 >= ids.len(),
        base <= values.len(),
    ensures
        ({
            let sp = eval_step_spec(s, env, ls, ts, handing(v, frames.push(Frame::List { ids, next, env: sc, base }), values), reply);
            &&& sp.lists == ls.push(values.skip(base as int).push(v))
            &&& sp.state.control == Control::Value(RtValue::List(ListId(ls.len() as usize)))
            &&& sp.state.values == values.take(base as int)
            &&& sp.state.frames == frames
        }),
{
    let st = handing(v, frames.push(Frame::List { ids, next, env: sc, base }), values);
    assert(st.frames.drop_last() =~= frames);
    assert(values.push(v).skip(base as int) =~= values.skip(base as int).push(v));
    assert(values.push(v).take(base as int) =~= values.take(base as int));
}

proof fn lemma_bind_params_keeps(env: EnvView<RtValue>, sc: int, names: Seq<SymbolId>, vals: Seq<RtValue>, i: int)
    requires
        0 <= i,
        bind_params(env, sc, names, vals, i).1,
    ensures
        forall|k: (int, SymbolId)| #[trigger] env.binds.contains_key(k) ==> bind_params(env, sc, names, vals, i).0.binds.contains_key(k)
            && bind_params(env, sc, names, vals, i).0.binds[k] == env.binds[k],
        forall|j: int| i <= j < names.len() ==> bind_params(env, sc, names, vals, i).0.binds.contains_key((sc, #[trigger] names[j]))
            && bind_params(env, sc, names, vals, i).0.binds[(sc, names[j])] == vals[j],
        bind_params(env, sc, names, vals, i).0.parents == env.parents,
    decreases names.len() - i,
{
    if i < names.len() {
        let e1 = env.bind(sc, names[i], vals[i]);
        lemma_bind_params_keeps(e1, sc, names, vals, i + 1);
        let e2 = bind_params(e1, sc, names, vals, i + 1).0;
        assert forall|k: (int, SymbolId)| #[trigger] env.binds.contains_key(k) implies e2.binds.contains_key(k)
            && e2.binds[k] == env.binds[k] by {
            assert(e1.binds.contains_key(k));
            assert(k != (sc, names[i]));
        }
        assert forall|j: int| i <= j < names.len() implies e2.binds.contains_key((sc, #[trigger] names[j]))
            && e2.binds[(sc, names[j])] == vals[j] by {
            if j == i {
                assert(e1.binds.contains_key((sc, names[i])));
            }
        }
    }
}

/// Calling a function of the language on as many arguments as it has
/// parameters evaluates its body in a new scope under the function's own,
/// where each parameter has its argument; extra arguments go, as a new list,
/// to the rest parameter. The values of the call leave the stack.
pub proof fn law_call_binds_parameters(
    s: SessionV,
    env: EnvView<RtValue>,
    ls: Seq<Seq<RtValue>>,
    ts: Seq<Seq<char>>,
    st: StateV,
    uf: UserFn,
    base: usize,
    span: Span,
    reply: Option<Result<RtValue, RuntimeError>>,
)
    requires
        st.control == (Control::Apply { f: RtValue::UserFn(uf), base, span }),
        base <= st.values.len(),
        fn_ok(s, env, uf),
    ensures
        ({
            let sp = eval_step_spec(s, env, ls, ts, st, reply);
            let args = st.values.skip(base as int);
            let names = s.params.subrange(uf.req_params.start(), uf.req_params.end());
            let sc = env.parents.len() as int;
            &&& (args.len() < names.len() || (uf.rest_param is None && args.len() != names.len())) ==> sp.action
                == EvalAction::Failed(Spanned { value: RuntimeError::InvalidArgCount, span })
            &&& sp.state.control == Control::Eval(uf.body, ScopeId::at(sc)) ==> {
                &&& sp.env.parents == env.parents.push(Some(uf.env.index()))
                &&& forall|j: int| 0 <= j < names.len() ==> sp.env.binds.contains_key((sc, #[trigger] names[j]))
                    && sp.env.binds[(sc, names[j])] == args[j]
                &&& (uf.rest_param matches Some(r) ==> sp.env.binds[(sc, r)] == RtValue::List(ListId(ls.len() as usize))
                    && sp.lists == ls.push(args.skip(names.len() as int)))
                &&& sp.state.values == st.values.take(base as int)
                &&& sp.state.frames == st.frames
            }
        }),
{
    let args = st.values.skip(base as int);
    let names = s.params.subrange(uf.req_params.start(), uf.req_params.end());
    let sc = env.parents.len() as int;
    let env1 = env.with_child(uf.env.index());
    let n = uf.req_params.end() - uf.req_params.start();
    assert(names.len() == n);
    if bind_params(env1, sc, names, args, 0).1 {
        lemma_bind_params_keeps(env1, sc, names, args, 0);
        let env2 = bind_params(env1, sc, names, args, 0).0;
        if let Some(r) = uf.rest_param {
            if !env2.binds.contains_key((sc, r)) {
                assert forall|j: int| 0 <= j < names.len() implies env2.bind(sc, r, RtValue::List(ListId(ls.len() as usize))).binds.contains_key((sc, #[trigger] names[j]))
                    && env2.bind(sc, r, RtValue::List(ListId(ls.len() as usize))).binds[(sc, names[j])] == args[j] by {
                    assert(env2.binds.contains_key((sc, names[j])));
                }
            }
        }
    }
}

/// Literals evaluate to themselves, a quoted symbol to the symbol, a string
/// literal to a new text with its characters, a number with a fraction is
/// read by the host, and `fn` makes a function that keeps the scope it was
/// made in.
pub proof fn law_literals_and_closures(
    s: SessionV,
    env: EnvView<RtValue>,
    ls: Seq<Seq<RtValue>>,
    ts: Seq<Seq<char>>,
    st: StateV,
    e: ExpressionId,
    sc: ScopeId,
    reply: Option<Result<RtValue, RuntimeError>>,
)
    requires
        st.control == Control::Eval(e, sc),
    ensures
        ({
            let sp = eval_step_spec(s, env, ls, ts, st, reply);
            let x = s.exprs[e.index()];
            &&& x.value is Null ==> sp.state.control == Control::Value(RtValue::Null)
            &&& x.value matches Expression::Boolean(b) ==> sp.state.control == Control::Value(RtValue::Boolean(b))
            &&& x.value matches Expression::Integer(i) ==> sp.state.control == Control::Value(RtValue::Integer(i))
            &&& x.value matches Expression::SymbolQ(n) ==> sp.state.control == Control::Value(RtValue::Symbol(n))
            &&& x.value matches Expression::String(r) ==> sp.state.control == Control::Value(RtValue::String(TextId(ts.len() as usize)))
                && sp.texts == ts.push(range_text(s.text, r))
            &&& x.value matches Expression::Float(r) ==> sp.action == (EvalAction::ParseFloat { text: r, span: x.span })
            &&& x.value matches Expression::Fn { req_params, rest_param, body } ==> sp.state.control == Control::Value(
                RtValue::UserFn(UserFn { req_params, rest_param, body, env: sc }),
            )
            &&& !(x.value is Symbol || x.value is Bind) ==> sp.env == env
        }),
{
}

/// A call evaluates its head, then its arguments in order, gathering their
/// values on the stack, and then calls the head's value on them.
pub proof fn law_call_order(
    s: SessionV,
    env: EnvView<RtValue>,
    ls: Seq<Seq<RtValue>>,
    ts: Seq<Seq<char>>,
    frames: Seq<Frame>,
    values: Seq<RtValue>,
    v: RtValue,
    args: ExpressionRange,
    sc: ScopeId,
    span: Span,
    reply: Option<Result<RtValue, RuntimeError>>,
)
    ensures
        ({
            let sp = eval_step_spec(s, env, ls, ts, handing(v, frames.push(Frame::CallHead { args, env: sc, span }), values), reply);
            &&& args.len() == 0 ==> sp.state.control == (Control::Apply { f: v, base: values.len() as usize, span })
                && sp.state.frames == frames
            &&& args.len() > 0 ==> sp.state.control == Control::Eval(children_of(s, args)[0], sc) && sp.state.frames
                == frames.push(Frame::Args { f: v, ids: args, next: 0, env: sc, base: values.len() as usize, span })
            &&& sp.state.values == values
        }),
        forall|f: RtValue, next: usize, base: usize|
            next + 1 >= args.len() ==> {
                let sp = #[trigger] eval_step_spec(
                    s,
                    env,
                    ls,
                    ts,
                    handing(v, frames.push(Frame::Args { f, ids: args, next, env: sc, base, span }), values),
                    reply,
                );
                &&& sp.state.control == (Control::Apply { f, base, span })
                &&& sp.state.values == values.push(v)
                &&& sp.state.frames == frames
            },
{
    let st = handing(v, frames.push(Frame::CallHead { args, env: sc, span }), values);
    assert(st.frames.drop_last() =~= frames);
    assert forall|f: RtValue, next: usize, base: usize| next + 1 >= args.len() implies {
        let sp = #[trigger] eval_step_spec(
            s,
            env,
            ls,
            ts,
            handing(v, frames.push(Frame::Args { f, ids: args, next, env: sc, base, span }), values),
            reply,
        );
        &&& sp.state.control == (Control::Apply { f, base, span })
        &&& sp.state.values == values.push(v)
        &&& sp.state.frames == frames
    } by {
        let st2 = handing(v, frames.push(Frame::Args { f, ids: args, next, env: sc, base, span }), values);
        assert(st2.frames.drop_last() =~= frames);
    }
}

/// A builtin is called by asking the host, with the index of the builtin
/// and where its arguments start; the host's result is the value of the call
/// and its error fails the call at the call's span. Anything but a function
/// cannot be called.
pub proof fn law_builtin_calls(
    s: SessionV,
    env: EnvView<RtValue>,
    ls: Seq<Seq<RtValue>>,
    ts: Seq<Seq<char>>,
    frames: Seq<Frame>,
    values: Seq<RtValue>,
    f: RtValue,
    base: usize,
    span: Span,
    reply: Option<Result<RtValue, RuntimeError>>,
)
    ensures
        ({
            let sp = eval_step_spec(s, env, ls, ts, StateV { control: Control::Apply { f, base, span }, frames, values }, reply);
            &&& f matches RtValue::Builtin(k) ==> sp.action == (EvalAction::CallBuiltin { index: k, base, span })
                && sp.state.control == (Control::AwaitBuiltin { base, span }) && sp.env == env
            &&& !(f is Builtin || f is UserFn) ==> sp.action == EvalAction::Failed(Spanned { value: RuntimeError::NotCallable, span })
        }),
        ({
            let sp = eval_step_spec(s, env, ls, ts, StateV { control: Control::AwaitBuiltin { base, span }, frames, values }, reply);
            &&& reply matches Some(Ok(r)) ==> sp.state.control == Control::Value(r) && sp.state.values == values.take(base as int)
                && sp.state.frames == frames
            &&& reply matches Some(Err(e)) ==> sp.action == EvalAction::Failed(Spanned { value: e, span })
        }),
{
}

/// Compound expressions evaluate their first part in their scope and
/// remember the rest: `if` its condition, a call its head, `def` and `set`
/// their value, `do` and a list literal their first item (an empty one gives
/// `null`). A value with nothing left to come back to ends evaluation.
pub proof fn law_compound_order(
    s: SessionV,
    env: EnvView<RtValue>,
    ls: Seq<Seq<RtValue>>,
    ts: Seq<Seq<char>>,
    st: StateV,
    e: ExpressionId,
    sc: ScopeId,
    reply: Option<Result<RtValue, RuntimeError>>,
)
    requires
        st.control == Control::Eval(e, sc),
    ensures
        ({
            let sp = eval_step_spec(s, env, ls, ts, st, reply);
            let x = s.exprs[e.index()];
            &&& x.value matches Expression::If { cond, t_branch, f_branch } ==> sp.state.control == Control::Eval(cond, sc)
                && sp.state.frames == st.frames.push(Frame::If { t_branch, f_branch, env: sc })
            &&& x.value matches Expression::Call { call, args } ==> sp.state.control == Control::Eval(call, sc)
                && sp.state.frames == st.frames.push(Frame::CallHead { args, env: sc, span: x.span })
            &&& x.value matches Expression::Bind { kind, name, value } ==> sp.state.control == Control::Eval(value, sc)
                && sp.state.frames == st.frames.push(Frame::Bind { kind, name, env: sc, span: x.span })
            &&& x.value matches Expression::Do(r) ==> if r.len() == 0 {
                sp.state.control == Control::Value(RtValue::Null) && sp.state.frames == st.frames
            } else {
                sp.state.control == Control::Eval(children_of(s, r)[0], sc) && sp.state.frames == st.frames.push(
                    Frame::Do { ids: r, next: 0, env: sc },
                )
            }
            &&& x.value matches Expression::List(r) ==> if r.len() == 0 {
                sp.state.control == Control::Value(RtValue::Null) && sp.state.frames == st.frames
            } else {
                sp.state.control == Control::Eval(children_of(s, r)[0], sc) && sp.state.frames == st.frames.push(
                    Frame::List { ids: r, next: 0, env: sc, base: st.values.len() as usize },
                )
            }
            &&& !(x.value is Symbol) ==> sp.state.values == st.values
        }),
        ({
            let sp = eval_step_spec(s, env, ls, ts, handing(RtValue::Null, Seq::empty(), st.values), reply);
            sp.action == EvalAction::Done(RtValue::Null)
        }),
        forall|v: RtValue|
            #[trigger] eval_step_spec(s, env, ls, ts, handing(v, Seq::empty(), st.values), reply).action == EvalAction::Done(v),
{
}

} // verus!
