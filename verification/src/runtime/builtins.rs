use crate::frontend::event::{sevent_view, Event, EventV, ReadError, SEvent, SReadError};
use crate::runtime::error::RuntimeError;
use crate::span::{Span, Spanned, SpannedExt};
use crate::runtime::session::Session;
use crate::runtime::value::{held, float_texts_equal, Heap, ListId, RtValue};
use vstd::prelude::*;

verus! {

/// The arithmetic of the builtins `+`, `-`, `*` and `/`.
#[derive(Debug, Clone, Copy, PartialEq, Eq, Structural)]
pub enum IntOp {
    Add,
    Sub,
    Mul,
    Div,
}

/// One step of an integer fold: `acc op x`, or the error it meets. Division
/// truncates toward zero.
pub open spec fn int_step_spec(op: IntOp, acc: i64, x: i64) -> Result<i64, RuntimeError> {
    let r = match op {
        IntOp::Add => acc.checked_add(x),
        IntOp::Sub => acc.checked_sub(x),
        IntOp::Mul => acc.checked_mul(x),
        IntOp::Div => acc.checked_div(x),
    };
    if op == IntOp::Div && x == 0 {
        Err(RuntimeError::DivisionByZero)
    } else {
        match r {
            Some(v) => Ok(v),
            None => Err(RuntimeError::IntegerOverflow),
        }
    }
}

/// Folding `xs` from index `i` into `acc`, stopping at the first error.
pub open spec fn int_fold_from(op: IntOp, acc: i64, xs: Seq<i64>, i: int) -> Result<i64, RuntimeError>
    decreases xs.len() - i,
{
    if 0 <= i < xs.len() {
        match int_step_spec(op, acc, xs[i]) {
            Ok(v) => int_fold_from(op, v, xs, i + 1),
            Err(e) => Err(e),
        }
    } else {
        Ok(acc)
    }
}

/// What a builtin of `op` gives on integers: `+` and `*` fold from 0; `-`
/// and `/` need an argument, fold the others into the first, and apply
/// themselves to 0 and a lone argument.
pub open spec fn int_fold_spec(op: IntOp, xs: Seq<i64>) -> Result<i64, RuntimeError> {
    match op {
        IntOp::Add | IntOp::Mul => int_fold_from(op, 0, xs, 0),
        IntOp::Sub | IntOp::Div => if xs.len() == 0 {
            Err(RuntimeError::InvalidArgCount)
        } else if xs.len() == 1 {
            int_step_spec(op, 0, xs[0])
        } else {
            int_fold_from(op, xs[0], xs, 1)
        },
    }
}

/// `acc op x`, or the error it meets.
pub fn int_step(op: IntOp, acc: i64, x: i64) -> (r: Result<i64, RuntimeError>)
    ensures
        r == int_step_spec(op, acc, x),
{
    if op == IntOp::Div && x == 0 {
        return Err(RuntimeError::DivisionByZero);
    }
    let v = match op {
        IntOp::Add => acc.checked_add(x),
        IntOp::Sub => acc.checked_sub(x),
        IntOp::Mul => acc.checked_mul(x),
        IntOp::Div => acc.checked_div(x),
    };
    match v {
        Some(v) => Ok(v),
        None => Err(RuntimeError::IntegerOverflow),
    }
}

fn int_fold_range(op: IntOp, acc: i64, xs: &[i64], start: usize) -> (r: Result<i64, RuntimeError>)
    requires
        start <= xs@.len(),
    ensures
        r == int_fold_from(op, acc, xs@, start as int),
{
    let mut cur = acc;
    let mut i = start;
    while i < xs.len()
        invariant
            start <= i <= xs@.len(),
            int_fold_from(op, cur, xs@, i as int) == int_fold_from(op, acc, xs@, start as int),
        decreases xs@.len() - i,
    {
        match int_step(op, cur, xs[i]) {
            Ok(v) => cur = v,
            Err(e) => {
                assert(int_fold_from(op, cur, xs@, i as int) == Err::<i64, RuntimeError>(e));
                return Err(e);
            },
        }
        i = i + 1;
    }
    Ok(cur)
}

/// What the builtin of `op` gives on the integers `xs`.
pub fn int_fold(op: IntOp, xs: &[i64]) -> (r: Result<i64, RuntimeError>)
    ensures
        r == int_fold_spec(op, xs@),
{
    match op {
        IntOp::Add | IntOp::Mul => int_fold_range(op, 0, xs, 0),
        IntOp::Sub | IntOp::Div => {
            if xs.len() == 0 {
                Err(RuntimeError::InvalidArgCount)
            } else if xs.len() == 1 {
                int_step(op, 0, xs[0])
            } else {
                int_fold_range(op, xs[0], xs, 1)
            }
        },
    }
}

/// What `+ - * /` give on values from index `i`, folded into `acc`, as far
/// as integers decide it: `None` once the fold meets a number with a
/// fraction, which only `f64` arithmetic can go on with.
pub open spec fn arith_from(op: IntOp, acc: i64, args: Seq<RtValue>, i: int) -> Option<Result<i64, RuntimeError>>
    decreases args.len() - i,
{
    if 0 <= i < args.len() {
        match args[i] {
            RtValue::Integer(x) => match int_step_spec(op, acc, x) {
                Ok(v) => arith_from(op, v, args, i + 1),
                Err(e) => Some(Err(e)),
            },
            RtValue::Float(_) => None,
            _ => Some(Err(RuntimeError::InvalidArgType)),
        }
    } else {
        Some(Ok(acc))
    }
}

/// What the builtin of `op` gives on `args`, as far as integers decide it.
pub open spec fn arith_spec(op: IntOp, args: Seq<RtValue>) -> Option<Result<i64, RuntimeError>> {
    match op {
        IntOp::Add | IntOp::Mul => arith_from(op, 0, args, 0),
        IntOp::Sub | IntOp::Div => if args.len() == 0 {
            Some(Err(RuntimeError::InvalidArgCount))
        } else {
            match args[0] {
                RtValue::Integer(a) => if args.len() == 1 {
                    Some(int_step_spec(op, 0, a))
                } else {
                    arith_from(op, a, args, 1)
                },
                RtValue::Float(_) => None,
                _ => if args.len() > 1 && op == IntOp::Div && args[1] == RtValue::Integer(0) {
                    Some(Err(RuntimeError::DivisionByZero))
                } else {
                    Some(Err(RuntimeError::InvalidArgType))
                },
            }
        },
    }
}

fn arith_range(op: IntOp, acc: i64, args: &[RtValue], start: usize) -> (r: Option<Result<i64, RuntimeError>>)
    requires
        start <= args@.len(),
    ensures
        r == arith_from(op, acc, args@, start as int),
{
    let mut cur = acc;
    let mut i = start;
    while i < args.len()
        invariant
            start <= i <= args@.len(),
            arith_from(op, cur, args@, i as int) == arith_from(op, acc, args@, start as int),
        decreases args@.len() - i,
    {
        match args[i] {
            RtValue::Integer(x) => match int_step(op, cur, x) {
                Ok(v) => cur = v,
                Err(e) => return Some(Err(e)),
            },
            RtValue::Float(_) => return None,
            _ => return Some(Err(RuntimeError::InvalidArgType)),
        }
        i = i + 1;
    }
    Some(Ok(cur))
}

/// What the builtin of `op` gives on `args`, where integers decide it;
/// `None` where a number with a fraction takes part.
pub fn arith(op: IntOp, args: &[RtValue]) -> (r: Option<Result<i64, RuntimeError>>)
    ensures
        r == arith_spec(op, args@),
{
    match op {
        IntOp::Add | IntOp::Mul => arith_range(op, 0, args, 0),
        IntOp::Sub | IntOp::Div => {
            if args.len() == 0 {
                return Some(Err(RuntimeError::InvalidArgCount));
            }
            match args[0] {
                RtValue::Integer(a) => {
                    if args.len() == 1 {
                        Some(int_step(op, 0, a))
                    } else {
                        arith_range(op, a, args, 1)
                    }
                },
                RtValue::Float(_) => None,
                _ => {
                    if args.len() > 1 && op == IntOp::Div && matches!(args[1], RtValue::Integer(0)) {
                        Some(Err(RuntimeError::DivisionByZero))
                    } else {
                        Some(Err(RuntimeError::InvalidArgType))
                    }
                },
            }
        },
    }
}

/// How deep a value's lists reach into a heap: a list counts one more
/// than its index, so that its items count less.
pub open spec fn rank(v: RtValue) -> int {
    match v {
        RtValue::List(id) => id.0 + 1,
        _ => 0,
    }
}

/// Whether `=` holds of `a` and `b`: values of one kind with equal contents,
/// lists item by item, numbers with a fraction as `f64`, functions by identity.
pub open spec fn values_equal(ls: Seq<Seq<RtValue>>, ts: Seq<Seq<char>>, a: RtValue, b: RtValue) -> bool
    decreases rank(a) + rank(b), 1int, 0int,
{
    match a {
        RtValue::Null => b is Null,
        RtValue::Symbol(x) => b matches RtValue::Symbol(y) && x == y,
        RtValue::List(x) => b matches RtValue::List(y) && x.0 < ls.len() && y.0 < ls.len()
            && ls[x.0 as int].len() == ls[y.0 as int].len() && items_equal(ls, ts, x.0 as int, y.0 as int, 0),
        RtValue::Boolean(x) => b matches RtValue::Boolean(y) && x == y,
        RtValue::Integer(x) => b matches RtValue::Integer(y) && x == y,
        RtValue::Float(x) => b matches RtValue::Float(y) && float_texts_equal(ts[x.0 as int], ts[y.0 as int]),
        RtValue::String(x) => b matches RtValue::String(y) && ts[x.0 as int] == ts[y.0 as int],
        RtValue::Builtin(x) => b matches RtValue::Builtin(y) && x == y,
        RtValue::UserFn(x) => b matches RtValue::UserFn(y) && x == y,
    }
}

/// Whether the items of the lists `x` and `y` from `i` on are pairwise equal.
pub open spec fn items_equal(ls: Seq<Seq<RtValue>>, ts: Seq<Seq<char>>, x: int, y: int, i: int) -> bool
    decreases x + y + 2, 0int, ls[x].len() - i,
{
    if 0 <= x < ls.len() && 0 <= y < ls.len() && 0 <= i < ls[x].len() && i < ls[y].len() {
        if rank(ls[x][i]) <= x && rank(ls[y][i]) <= y {
            values_equal(ls, ts, ls[x][i], ls[y][i]) && items_equal(ls, ts, x, y, i + 1)
        } else {
            false
        }
    } else {
        true
    }
}

fn str_same(a: &str, b: &str) -> (r: bool)
    ensures
        r == (a@ == b@),
{
    crate::text::str_eq(a, b)
}

/// Whether `=` holds of `a` and `b`.
pub fn values_eq(heap: &Heap, a: RtValue, b: RtValue) -> (r: bool)
    requires
        heap.wf(),
        heap.holds(a),
        heap.holds(b),
    ensures
        r == values_equal(heap.lists(), heap.texts(), a, b),
    decreases rank(a) + rank(b), 1int, 0int,
{
    match (a, b) {
        (RtValue::Null, RtValue::Null) => true,
        (RtValue::Symbol(x), RtValue::Symbol(y)) => x == y,
        (RtValue::Boolean(x), RtValue::Boolean(y)) => x == y,
        (RtValue::Integer(x), RtValue::Integer(y)) => x == y,
        (RtValue::Builtin(x), RtValue::Builtin(y)) => x == y,
        (RtValue::UserFn(x), RtValue::UserFn(y)) => {
            x.req_params.same(&y.req_params) && x.rest_param == y.rest_param && x.body.same(&y.body) && x.env == y.env
        },
        (RtValue::String(x), RtValue::String(y)) => str_same(heap.text(x), heap.text(y)),
        (RtValue::Float(x), RtValue::Float(y)) => {
            let p = heap.text(x);
            let q = heap.text(y);
            proof {
                reveal_strlit("NaN");
                reveal_strlit("0.0");
                reveal_strlit("-0.0");
            }
            (str_same(p, q) && !str_same(p, "NaN")) || ((str_same(p, "0.0") || str_same(p, "-0.0")) && (
            str_same(q, "0.0") || str_same(q, "-0.0")))
        },
        (RtValue::List(x), RtValue::List(y)) => {
            let xs = heap.list(x);
            let ys = heap.list(y);
            if xs.len() != ys.len() {
                return false;
            }
            let mut i: usize = 0;
            while i < xs.len()
                invariant
                    heap.wf(),
                    a == RtValue::List(x),
                    b == RtValue::List(y),
                    xs@ == heap.lists()[x.0 as int],
                    ys@ == heap.lists()[y.0 as int],
                    x.0 < heap.lists().len(),
                    y.0 < heap.lists().len(),
                    xs@.len() == ys@.len(),
                    0 <= i <= xs@.len(),
                    items_equal(heap.lists(), heap.texts(), x.0 as int, y.0 as int, 0) == items_equal(
                        heap.lists(),
                        heap.texts(),
                        x.0 as int,
                        y.0 as int,
                        i as int,
                    ),
                decreases xs@.len() - i,
            {
                proof {
                    assert(held(heap.lists(), heap.texts(), heap.lists()[x.0 as int][i as int], x.0 as int));
                    assert(held(heap.lists(), heap.texts(), heap.lists()[y.0 as int][i as int], y.0 as int));
                }
                if !values_eq(heap, xs[i], ys[i]) {
                    assert(!items_equal(heap.lists(), heap.texts(), x.0 as int, y.0 as int, i as int));
                    return false;
                }
                i = i + 1;
            }
            true
        },
        _ => false,
    }
}

/// The builtins that work on lists and other values, and that need no number
/// with a fraction: `cons`, `head`, `tail`, `list`, `=` and `error`.
#[derive(Debug, Clone, Copy, PartialEq, Eq, Structural)]
pub enum ListBuiltin {
    Cons,
    Head,
    Tail,
    List,
    Equal,
    Error,
}

/// What a builtin gives: a value, a new list of the items, an error, or
/// the error a program raised with its message.
pub enum BuiltinOut {
    Value(RtValue),
    NewList(Seq<RtValue>),
    Fail(RuntimeError),
    User(Seq<char>),
}

/// What the builtin `k` gives on `args`, with the lists `ls` and texts `ts`.
pub open spec fn list_builtin_spec(k: ListBuiltin, ls: Seq<Seq<RtValue>>, ts: Seq<Seq<char>>, args: Seq<RtValue>) -> BuiltinOut {
    match k {
        ListBuiltin::Cons => if args.len() < 2 {
            BuiltinOut::Fail(RuntimeError::InvalidArgCount)
        } else {
            match args[1] {
                RtValue::Null => BuiltinOut::NewList(seq![args[0]]),
                RtValue::List(t) => BuiltinOut::NewList(seq![args[0]] + ls[t.0 as int]),
                _ => BuiltinOut::Fail(RuntimeError::InvalidArgType),
            }
        },
        ListBuiltin::Head => if args.len() < 1 {
            BuiltinOut::Fail(RuntimeError::InvalidArgCount)
        } else {
            match args[0] {
                RtValue::List(l) => if ls[l.0 as int].len() > 0 {
                    BuiltinOut::Value(ls[l.0 as int][0])
                } else {
                    BuiltinOut::Fail(RuntimeError::EmptyList)
                },
                _ => BuiltinOut::Fail(RuntimeError::InvalidArgType),
            }
        },
        ListBuiltin::Tail => if args.len() < 1 {
            BuiltinOut::Fail(RuntimeError::InvalidArgCount)
        } else {
            match args[0] {
                RtValue::List(l) => if ls[l.0 as int].len() > 0 {
                    BuiltinOut::NewList(ls[l.0 as int].drop_first())
                } else {
                    BuiltinOut::Fail(RuntimeError::EmptyList)
                },
                _ => BuiltinOut::Fail(RuntimeError::InvalidArgType),
            }
        },
        ListBuiltin::List => BuiltinOut::NewList(args),
        ListBuiltin::Equal => if args.len() < 2 {
            BuiltinOut::Fail(RuntimeError::InvalidArgCount)
        } else {
            BuiltinOut::Value(RtValue::Boolean(values_equal(ls, ts, args[0], args[1])))
        },
        ListBuiltin::Error => if args.len() < 1 {
            BuiltinOut::Fail(RuntimeError::InvalidArgCount)
        } else {
            match args[0] {
                RtValue::String(t) => BuiltinOut::User(ts[t.0 as int]),
                _ => BuiltinOut::Fail(RuntimeError::InvalidArgType),
            }
        },
    }
}

/// Whether the result `r`, with the heap going from `(ls0, ts0)` to
/// `(ls1, ts1)`, is the outcome `out`.
pub open spec fn builtin_outcome(
    ls0: Seq<Seq<RtValue>>,
    ts0: Seq<Seq<char>>,
    ls1: Seq<Seq<RtValue>>,
    ts1: Seq<Seq<char>>,
    r: Result<RtValue, RuntimeError>,
    out: BuiltinOut,
) -> bool {
    &&& ts1 == ts0
    &&& match out {
        BuiltinOut::Value(v) => r == Ok::<RtValue, RuntimeError>(v) && ls1 == ls0,
        BuiltinOut::NewList(items) => r == Ok::<RtValue, RuntimeError>(RtValue::List(ListId(ls0.len() as usize)))
            && ls1 == ls0.push(items),
        BuiltinOut::Fail(e) => r == Err::<RtValue, RuntimeError>(e) && ls1 == ls0,
        BuiltinOut::User(m) => (r matches Err(RuntimeError::User(s)) && s@ == m) && ls1 == ls0,
    }
}

fn copy_items(items: &[RtValue], start: usize, out: &mut Vec<RtValue>)
    requires
        start <= items@.len(),
    ensures
        final(out)@ == old(out)@ + items@.skip(start as int),
{
    let mut i = start;
    let ghost o0 = out@;
    while i < items.len()
        invariant
            start <= i <= items@.len(),
            out@ == o0 + items@.subrange(start as int, i as int),
        decreases items@.len() - i,
    {
        out.push(items[i]);
        i = i + 1;
        assert(out@ =~= o0 + items@.subrange(start as int, i as int));
    }
    assert(items@.subrange(start as int, i as int) =~= items@.skip(start as int));
}

/// Runs the builtin `k` on `args`.
pub fn list_builtin(k: ListBuiltin, heap: &mut Heap, args: &[RtValue]) -> (r: Result<RtValue, RuntimeError>)
    requires
        old(heap).wf(),
        forall|j: int| 0 <= j < args@.len() ==> old(heap).holds(#[trigger] args@[j]),
    ensures
        final(heap).wf(),
        r is Ok ==> final(heap).holds(r->Ok_0),
        builtin_outcome(
            old(heap).lists(),
            old(heap).texts(),
            final(heap).lists(),
            final(heap).texts(),
            r,
            list_builtin_spec(k, old(heap).lists(), old(heap).texts(), args@),
        ),
{
    let ghost ls = heap.lists();
    match k {
        ListBuiltin::Cons => {
            if args.len() < 2 {
                return Err(RuntimeError::InvalidArgCount);
            }
            let mut items: Vec<RtValue> = Vec::new();
            items.push(args[0]);
            match args[1] {
                RtValue::Null => {},
                RtValue::List(t) => {
                    let tail = heap.list(t);
                    proof {
                        assert forall|j: int| 0 <= j < tail@.len() implies heap.holds(#[trigger] tail@[j]) by {
                            assert(held(heap.lists(), heap.texts(), heap.lists()[t.0 as int][j], t.0 as int));
                        }
                    }
                    copy_items(tail, 0, &mut items);
                    assert(tail@.skip(0) =~= tail@);
                },
                _ => return Err(RuntimeError::InvalidArgType),
            }
            proof {
                assert(args@[0] == args[0]);
                assert forall|j: int| 0 <= j < items@.len() implies heap.holds(#[trigger] items@[j]) by {
                    if j > 0 {
                        let t = args@[1]->List_0;
                        assert(held(heap.lists(), heap.texts(), heap.lists()[t.0 as int][j - 1], t.0 as int));
                    }
                }
                if args@[1] is Null {
                    assert(items@ =~= seq![args@[0]]);
                }
            }
            Ok(heap.push_list(items))
        },
        ListBuiltin::Head => {
            if args.len() < 1 {
                return Err(RuntimeError::InvalidArgCount);
            }
            match args[0] {
                RtValue::List(l) => {
                    let items = heap.list(l);
                    if items.len() == 0 {
                        Err(RuntimeError::EmptyList)
                    } else {
                        proof {
                            assert(held(heap.lists(), heap.texts(), heap.lists()[l.0 as int][0], l.0 as int));
                        }
                        Ok(items[0])
                    }
                },
                _ => Err(RuntimeError::InvalidArgType),
            }
        },
        ListBuiltin::Tail => {
            if args.len() < 1 {
                return Err(RuntimeError::InvalidArgCount);
            }
            match args[0] {
                RtValue::List(l) => {
                    let tail = heap.list(l);
                    if tail.len() == 0 {
                        return Err(RuntimeError::EmptyList);
                    }
                    let mut items: Vec<RtValue> = Vec::new();
                    copy_items(tail, 1, &mut items);
                    proof {
                        assert(items@ =~= tail@.drop_first());
                        assert forall|j: int| 0 <= j < items@.len() implies heap.holds(#[trigger] items@[j]) by {
                            assert(held(heap.lists(), heap.texts(), heap.lists()[l.0 as int][j + 1], l.0 as int));
                        }
                    }
                    Ok(heap.push_list(items))
                },
                _ => Err(RuntimeError::InvalidArgType),
            }
        },
        ListBuiltin::List => {
            let mut items: Vec<RtValue> = Vec::new();
            copy_items(args, 0, &mut items);
            proof {
                assert(items@ =~= args@);
            }
            Ok(heap.push_list(items))
        },
        ListBuiltin::Equal => {
            if args.len() < 2 {
                return Err(RuntimeError::InvalidArgCount);
            }
            Ok(RtValue::Boolean(values_eq(heap, args[0], args[1])))
        },
        ListBuiltin::Error => {
            if args.len() < 1 {
                return Err(RuntimeError::InvalidArgCount);
            }
            match args[0] {
                RtValue::String(t) => Err(RuntimeError::User(heap.text(t).to_owned())),
                _ => Err(RuntimeError::InvalidArgType),
            }
        },
    }
}

/// The name of the kind of `v`, as `type-of` gives it.
pub open spec fn kind_name(v: RtValue) -> Seq<char> {
    match v {
        RtValue::Null => "null"@,
        RtValue::Symbol(_) => "symbol"@,
        RtValue::List(_) => "list"@,
        RtValue::Boolean(_) => "boolean"@,
        RtValue::Integer(_) => "integer"@,
        RtValue::Float(_) => "float"@,
        RtValue::String(_) => "string"@,
        RtValue::Builtin(_) => "function"@,
        RtValue::UserFn(_) => "function"@,
    }
}

/// The builtin `type-of`: the symbol that names the kind of the argument.
pub fn type_of(sesh: &mut Session, args: &[RtValue]) -> (r: Result<RtValue, RuntimeError>)
    requires
        old(sesh).wf(),
    ensures
        final(sesh).wf(),
        args@.len() == 0 ==> r == Err::<RtValue, RuntimeError>(RuntimeError::InvalidArgCount) && *final(sesh) == *old(sesh),
        args@.len() > 0 ==> {
            &&& r matches Ok(RtValue::Symbol(id)) && 0 <= id.index() < final(sesh).names().len()
                && final(sesh).names()[id.index()] == kind_name(args@[0])
            &&& final(sesh).names() == old(sesh).names() || final(sesh).names() == old(sesh).names().push(
                kind_name(args@[0]),
            )
            &&& final(sesh).expressions() == old(sesh).expressions()
            &&& final(sesh).params() == old(sesh).params()
            &&& final(sesh).text() == old(sesh).text()
        },
{
    if args.len() == 0 {
        return Err(RuntimeError::InvalidArgCount);
    }
    let name = match args[0] {
        RtValue::Null => "null",
        RtValue::Symbol(_) => "symbol",
        RtValue::List(_) => "list",
        RtValue::Boolean(_) => "boolean",
        RtValue::Integer(_) => "integer",
        RtValue::Float(_) => "float",
        RtValue::String(_) => "string",
        RtValue::Builtin(_) => "function",
        RtValue::UserFn(_) => "function",
    };
    Ok(RtValue::Symbol(sesh.push_symbol(name)))
}

/// The events that `then` continues `done` with: `done` followed by them,
/// or nothing where they fail.
pub open spec fn then_events(done: Seq<Spanned<EventV>>, rest: Option<Seq<Spanned<EventV>>>) -> Option<Seq<Spanned<EventV>>> {
    match rest {
        Some(r) => Some(done + r),
        None => None,
    }
}

/// The events, at `span`, that describe `v`, with symbols named by `names`;
/// `None` for a function, which no events describe.
pub open spec fn emitted(ls: Seq<Seq<RtValue>>, ts: Seq<Seq<char>>, names: Seq<Seq<char>>, v: RtValue, span: Span) -> Option<Seq<Spanned<EventV>>>
    decreases rank(v), 1int, 0int,
{
    let one = |e: EventV| Some(seq![Spanned { value: e, span }]);
    match v {
        RtValue::Null => one(EventV::Symbol("null"@)),
        RtValue::Symbol(id) => one(EventV::Symbol(names[id.index()])),
        RtValue::List(x) => then_events(
            seq![Spanned { value: EventV::ListStart, span }],
            then_events_end(emitted_items(ls, ts, names, x.0 as int, 0, span), span),
        ),
        RtValue::Boolean(b) => if b {
            one(EventV::Symbol("true"@))
        } else {
            one(EventV::Symbol("false"@))
        },
        RtValue::Integer(i) => one(EventV::Integer(i)),
        RtValue::Float(t) => one(EventV::Float(ts[t.0 as int])),
        RtValue::String(t) => one(EventV::String(ts[t.0 as int])),
        RtValue::Builtin(_) => None,
        RtValue::UserFn(_) => None,
    }
}

/// The items' events followed by the end of the list.
pub open spec fn then_events_end(items: Option<Seq<Spanned<EventV>>>, span: Span) -> Option<Seq<Spanned<EventV>>> {
    match items {
        Some(evs) => Some(evs.push(Spanned { value: EventV::ListEnd, span })),
        None => None,
    }
}

/// The events of the items of the list `x` from `i` on.
pub open spec fn emitted_items(
    ls: Seq<Seq<RtValue>>,
    ts: Seq<Seq<char>>,
    names: Seq<Seq<char>>,
    x: int,
    i: int,
    span: Span,
) -> Option<Seq<Spanned<EventV>>>
    decreases x + 1, 0int, ls[x].len() - i,
{
    if 0 <= x < ls.len() && 0 <= i < ls[x].len() {
        if rank(ls[x][i]) <= x {
            match emitted(ls, ts, names, ls[x][i], span) {
                Some(a) => then_events(a, emitted_items(ls, ts, names, x, i + 1, span)),
                None => None,
            }
        } else {
            None
        }
    } else {
        Some(Seq::empty())
    }
}

/// The events `evs`, viewed.
pub open spec fn events_view(evs: Seq<SEvent>) -> Seq<Spanned<EventV>> {
    evs.map_values(|e: SEvent| sevent_view(e))
}

/// Whether the symbols that `v` and the lists of the heap hold are named in `names`.
pub open spec fn symbols_in(heap: &Heap, names: Seq<Seq<char>>, v: RtValue) -> bool {
    &&& (v matches RtValue::Symbol(id) ==> 0 <= id.index() < names.len())
    &&& forall|k: int, j: int|
        0 <= k < heap.lists().len() && 0 <= j < heap.lists()[k].len() ==> (#[trigger] heap.lists()[k][j] matches RtValue::Symbol(id)
            ==> 0 <= id.index() < names.len())
}

/// Appends to `events` the events, at `span`, that describe `value`: a
/// list as its items between brackets, `null`, `true` and `false` as
/// symbols; a function has none, and is refused.
pub fn emit(value: RtValue, heap: &Heap, sesh: &Session, span: Span, events: &mut Vec<SEvent>) -> (r: Result<(), SReadError>)
    requires
        heap.wf(),
        heap.holds(value),
        symbols_in(heap, sesh.names(), value),
    ensures
        match emitted(heap.lists(), heap.texts(), sesh.names(), value, span) {
            Some(evs) => r is Ok && events_view(final(events)@) == events_view(old(events)@) + evs,
            None => r == Err::<(), SReadError>(Spanned { value: ReadError::UnsupportedSyntaxValue, span }),
        },
    decreases rank(value), 1int, 0int,
{
    let ghost e0 = events@;
    let event = match value {
        RtValue::Null => Event::Symbol("null".to_owned()),
        RtValue::Symbol(id) => Event::Symbol(sesh.get_symbol(id).to_owned()),
        RtValue::Boolean(b) => {
            if b {
                Event::Symbol("true".to_owned())
            } else {
                Event::Symbol("false".to_owned())
            }
        },
        RtValue::Integer(i) => Event::Integer(i),
        RtValue::Float(t) => Event::Float(heap.text(t).to_owned()),
        RtValue::String(t) => Event::String(heap.text(t).to_owned()),
        RtValue::Builtin(_) => return Err(ReadError::UnsupportedSyntaxValue.scopy(span)),
        RtValue::UserFn(_) => return Err(ReadError::UnsupportedSyntaxValue.scopy(span)),
        RtValue::List(x) => {
            events.push(Event::ListStart.scopy(span));
            let ghost bv = events_view(events@);
            proof {
                assert(bv =~= events_view(e0).push(Spanned { value: EventV::ListStart, span }));
                assert(bv.skip(bv.len() as int) =~= Seq::<Spanned<EventV>>::empty());
                assert(bv.take(bv.len() as int) =~= bv);
            }
            let items = heap.list(x);
            let mut i: usize = 0;
            while i < items.len()
                invariant
                    heap.wf(),
                    symbols_in(heap, sesh.names(), value),
                    value == RtValue::List(x),
                    x.0 < heap.lists().len(),
                    items@ == heap.lists()[x.0 as int],
                    0 <= i <= items@.len(),
                    bv.len() <= events_view(events@).len(),
                    events_view(events@).take(bv.len() as int) == bv,
                    emitted_items(heap.lists(), heap.texts(), sesh.names(), x.0 as int, 0, span) == then_events(
                        events_view(events@).skip(bv.len() as int),
                        emitted_items(heap.lists(), heap.texts(), sesh.names(), x.0 as int, i as int, span),
                    ),
                decreases items@.len() - i,
            {
                let ghost before = events_view(events@);
                proof {
                    assert(held(heap.lists(), heap.texts(), heap.lists()[x.0 as int][i as int], x.0 as int));
                    assert(heap.lists()[x.0 as int][i as int] == items@[i as int]);
                }
                match emit(items[i], heap, sesh, span, events) {
                    Ok(()) => {},
                    Err(e) => return Err(e),
                }
                proof {
                    let a = emitted(heap.lists(), heap.texts(), sesh.names(), items@[i as int], span)->Some_0;
                    assert(events_view(events@) == before + a);
                    assert(events_view(events@).take(bv.len() as int) =~= bv);
                    assert(events_view(events@).skip(bv.len() as int) =~= before.skip(bv.len() as int) + a);
                }
                i = i + 1;
            }
            let ghost v1 = events_view(events@);
            events.push(Event::ListEnd.scopy(span));
            proof {
                assert(events_view(events@) =~= v1.push(Spanned { value: EventV::ListEnd, span }));
                assert(v1 =~= bv + v1.skip(bv.len() as int));
            }
            return Ok(());
        },
    };
    events.push(event.scopy(span));
    proof {
        assert(events_view(events@) =~= events_view(e0) + seq![Spanned { value: event@, span }]);
    }
    Ok(())
}

/// The integers `xs` as values.
pub open spec fn ints(xs: Seq<i64>) -> Seq<RtValue> {
    xs.map_values(|x: i64| RtValue::Integer(x))
}

/// Which kind a value is: each kind its own number.
pub open spec fn kind_index(v: RtValue) -> int {
    match v {
        RtValue::Null => 0,
        RtValue::Symbol(_) => 1,
        RtValue::List(_) => 2,
        RtValue::Boolean(_) => 3,
        RtValue::Integer(_) => 4,
        RtValue::Float(_) => 5,
        RtValue::String(_) => 6,
        RtValue::Builtin(_) => 7,
        RtValue::UserFn(_) => 8,
    }
}

/// Whether `v` is a value without parts: `null`, a symbol, a boolean, an
/// integer or a function.
pub open spec fn is_atom(v: RtValue) -> bool {
    !(v is List) && !(v is Float) && !(v is String)
}

/// One step of the integer arithmetic of the builtins is the arithmetic of
/// integers, failing where the result leaves `i64` or a divisor is zero;
/// division truncates toward zero.
pub proof fn law_int_step(a: i64, b: i64)
    ensures
        int_step_spec(IntOp::Add, a, b) == if i64::MIN <= a + b <= i64::MAX {
            Ok::<i64, RuntimeError>((a + b) as i64)
        } else {
            Err(RuntimeError::IntegerOverflow)
        },
        int_step_spec(IntOp::Sub, a, b) == if i64::MIN <= a - b <= i64::MAX {
            Ok::<i64, RuntimeError>((a - b) as i64)
        } else {
            Err(RuntimeError::IntegerOverflow)
        },
        int_step_spec(IntOp::Mul, a, b) == if i64::MIN <= a * b <= i64::MAX {
            Ok::<i64, RuntimeError>((a * b) as i64)
        } else {
            Err(RuntimeError::IntegerOverflow)
        },
        b == 0 ==> int_step_spec(IntOp::Div, a, b) == Err::<i64, RuntimeError>(RuntimeError::DivisionByZero),
        0 <= a && 0 < b ==> int_step_spec(IntOp::Div, a, b) == Ok::<i64, RuntimeError>((a / b) as i64),
        b != 0 && a == 0 ==> int_step_spec(IntOp::Div, a, b) == Ok::<i64, RuntimeError>(0),
        a < 0 && 0 < b ==> int_step_spec(IntOp::Div, a, b) == Ok::<i64, RuntimeError>((-((-(a as int)) / (b as int))) as i64),
        0 <= a && b < 0 ==> int_step_spec(IntOp::Div, a, b) == Ok::<i64, RuntimeError>((-((a as int) / (-(b as int)))) as i64),
        a < 0 && b < 0 && !(a == i64::MIN && b == -1) ==> int_step_spec(IntOp::Div, a, b) == Ok::<i64, RuntimeError>(
            ((-(a as int)) / (-(b as int))) as i64,
        ),
        a == i64::MIN && b == -1 ==> int_step_spec(IntOp::Div, a, b) == Err::<i64, RuntimeError>(RuntimeError::IntegerOverflow),
{
    if a < 0 && b < 0 && !(a == i64::MIN && b == -1) {
        let x = -(a as int);
        let d = -(b as int);
        if d == 1 {
            assert(x / d == x);
        } else {
            assert(x / d <= x / 2) by (nonlinear_arith)
                requires
                    x > 0,
                    d >= 2,
            ;
        }
    }
}

proof fn lemma_fold_push(op: IntOp, acc: i64, xs: Seq<i64>, x: i64, i: int)
    requires
        0 <= i <= xs.len(),
    ensures
        int_fold_from(op, acc, xs.push(x), i) == match int_fold_from(op, acc, xs, i) {
            Ok(v) => int_step_spec(op, v, x),
            Err(e) => Err(e),
        },
    decreases xs.len() - i,
{
    if i < xs.len() {
        assert(xs.push(x)[i] == xs[i]);
        match int_step_spec(op, acc, xs[i]) {
            Ok(v) => lemma_fold_push(op, v, xs, x, i + 1),
            Err(_) => {},
        }
    } else {
        assert(xs.push(x)[i] == x);
        match int_step_spec(op, acc, x) {
            Ok(v) => assert(int_fold_from(op, v, xs.push(x), i + 1) == Ok::<i64, RuntimeError>(v)),
            Err(_) => {},
        }
    }
}

/// An integer builtin on one more argument applies one more step to what it
/// gave on the others: `+` and `*` from no arguments on, `-` and `/` from two
/// on. Alone, `-` negates and `/` divides zero by its argument; `*` starts
/// from 0, as the builtin does, and so gives 0.
pub proof fn law_int_fold_steps(op: IntOp, xs: Seq<i64>, x: i64)
    ensures
        (op == IntOp::Add || op == IntOp::Mul || xs.len() >= 2) ==> int_fold_spec(op, xs.push(x)) == match int_fold_spec(op, xs) {
            Ok(v) => int_step_spec(op, v, x),
            Err(e) => Err(e),
        },
        int_fold_spec(IntOp::Add, Seq::empty()) == Ok::<i64, RuntimeError>(0),
        int_fold_spec(IntOp::Sub, Seq::empty()) == Err::<i64, RuntimeError>(RuntimeError::InvalidArgCount),
        int_fold_spec(IntOp::Div, Seq::empty()) == Err::<i64, RuntimeError>(RuntimeError::InvalidArgCount),
        int_fold_spec(IntOp::Sub, seq![x]) == int_step_spec(IntOp::Sub, 0, x),
        int_fold_spec(IntOp::Div, seq![x]) == int_step_spec(IntOp::Div, 0, x),
        (op == IntOp::Sub || op == IntOp::Div) && xs.len() == 1 ==> int_fold_spec(op, xs.push(x))
            == int_step_spec(op, xs[0], x),
        int_fold_spec(IntOp::Mul, xs) == Ok::<i64, RuntimeError>(0),
    decreases xs.len(),
{
    match op {
        IntOp::Add | IntOp::Mul => lemma_fold_push(op, 0, xs, x, 0),
        IntOp::Sub | IntOp::Div => {
            if xs.len() >= 2 {
                lemma_fold_push(op, xs[0], xs, x, 1);
                assert(xs.push(x)[0] == xs[0]);
            } else if xs.len() == 1 {
                assert(xs.push(x)[0] == xs[0]);
                assert(xs.push(x)[1] == x);
                let r = int_step_spec(op, xs[0], x);
                if r is Ok {
                    assert(int_fold_from(op, r->Ok_0, xs.push(x), 2) == r);
                }
            }
        },
    }
    assert(int_fold_from(IntOp::Add, 0, Seq::<i64>::empty(), 0) == Ok::<i64, RuntimeError>(0));
    assert(seq![x][0] == x);
    if xs.len() > 0 {
        law_int_fold_steps(IntOp::Mul, xs.drop_last(), xs.last());
        assert(xs.drop_last().push(xs.last()) =~= xs);
        law_int_step(0, xs.last());
        assert(int_step_spec(IntOp::Mul, 0, xs.last()) == Ok::<i64, RuntimeError>(0));
    } else {
        assert(int_fold_spec(IntOp::Mul, xs) == int_fold_from(IntOp::Mul, 0, xs, 0));
    }
}

proof fn lemma_arith_ints(op: IntOp, acc: i64, xs: Seq<i64>, i: int)
    requires
        0 <= i <= xs.len(),
    ensures
        arith_from(op, acc, ints(xs), i) == Some(int_fold_from(op, acc, xs, i)),
    decreases xs.len() - i,
{
    if i < xs.len() {
        assert(ints(xs)[i] == RtValue::Integer(xs[i]));
        match int_step_spec(op, acc, xs[i]) {
            Ok(v) => lemma_arith_ints(op, v, xs, i + 1),
            Err(_) => {},
        }
    }
}

/// On integers, the arithmetic builtins on values give what the integer
/// fold gives on the numbers.
pub proof fn law_arith_agrees_with_int_fold(op: IntOp, xs: Seq<i64>)
    ensures
        arith_spec(op, ints(xs)) == Some(int_fold_spec(op, xs)),
{
    lemma_arith_ints(op, 0, xs, 0);
    if xs.len() > 0 {
        assert(ints(xs)[0] == RtValue::Integer(xs[0]));
        lemma_arith_ints(op, xs[0], xs, 1);
    }
}

/// `=` on values without parts holds exactly of the same value; strings are
/// equal when their texts are; values of different kinds are never equal.
pub proof fn law_equal_values(ls: Seq<Seq<RtValue>>, ts: Seq<Seq<char>>, a: RtValue, b: RtValue)
    ensures
        is_atom(a) ==> (values_equal(ls, ts, a, b) <==> a == b),
        kind_index(a) != kind_index(b) ==> !values_equal(ls, ts, a, b),
        a is String && b is String ==> (values_equal(ls, ts, a, b) <==> ts[a->String_0.0 as int] == ts[b->String_0.0 as int]),
        a is List && values_equal(ls, ts, a, b) ==> b is List && ls[a->List_0.0 as int].len() == ls[b->List_0.0 as int].len(),
{
}

/// The builtin `=` answers with whether its two arguments are equal; on
/// values without parts, whether they are the same value.
pub proof fn law_equal_builtin(ls: Seq<Seq<RtValue>>, ts: Seq<Seq<char>>, a: RtValue, b: RtValue)
    ensures
        list_builtin_spec(ListBuiltin::Equal, ls, ts, seq![a, b]) == BuiltinOut::Value(RtValue::Boolean(values_equal(ls, ts, a, b))),
        is_atom(a) ==> list_builtin_spec(ListBuiltin::Equal, ls, ts, seq![a, b]) == BuiltinOut::Value(RtValue::Boolean(a == b)),
{
    law_equal_values(ls, ts, a, b);
}

/// `type-of` names each kind of value differently, functions of both kinds
/// alike, with the names `null`, `symbol`, `list`, `boolean`, `integer`,
/// `float`, `string` and `function`.
pub proof fn law_kind_names(a: RtValue, b: RtValue)
    ensures
        kind_name(a) == kind_name(b) <==> (kind_index(a) == kind_index(b) || (kind_index(a) >= 7 && kind_index(b) >= 7)),
        a is Null ==> kind_name(a) == "null"@,
        a is Symbol ==> kind_name(a) == "symbol"@,
        a is List ==> kind_name(a) == "list"@,
        a is Boolean ==> kind_name(a) == "boolean"@,
        a is Integer ==> kind_name(a) == "integer"@,
        a is Float ==> kind_name(a) == "float"@,
        a is String ==> kind_name(a) == "string"@,
        a is Builtin || a is UserFn ==> kind_name(a) == "function"@,
{
    reveal_strlit("null");
    reveal_strlit("symbol");
    reveal_strlit("list");
    reveal_strlit("boolean");
    reveal_strlit("integer");
    reveal_strlit("float");
    reveal_strlit("string");
    reveal_strlit("function");
    if kind_name(a) == kind_name(b) {
        let na = kind_name(a);
        let nb = kind_name(b);
        assert(na.len() == nb.len());
        if na.len() > 0 {
            assert(na[0] == nb[0]);
        }
        if na.len() > 1 {
            assert(na[1] == nb[1]);
        }
    }
}

/// What `cons` makes starts with its first argument and goes on with the
/// items of its second; `head` of it is that argument and `tail` of it gives
/// those items back.
pub proof fn law_cons_head_tail(ls: Seq<Seq<RtValue>>, ts: Seq<Seq<char>>, h: RtValue, t: RtValue)
    requires
        ls.len() < usize::MAX,
        t is Null || (t matches RtValue::List(id) && id.0 < ls.len()),
    ensures
        list_builtin_spec(ListBuiltin::Cons, ls, ts, seq![h, t]) matches BuiltinOut::NewList(items) && {
            let made = RtValue::List(ListId(ls.len() as usize));
            let ls2 = ls.push(items);
            &&& items.len() >= 1
            &&& items[0] == h
            &&& items.drop_first() == (if t is Null { Seq::empty() } else { ls[t->List_0.0 as int] })
            &&& list_builtin_spec(ListBuiltin::Head, ls2, ts, seq![made]) == BuiltinOut::Value(h)
            &&& list_builtin_spec(ListBuiltin::Tail, ls2, ts, seq![made]) == BuiltinOut::NewList(items.drop_first())
        },
{
    let items = match t {
        RtValue::Null => seq![h],
        RtValue::List(id) => seq![h] + ls[id.0 as int],
        _ => Seq::empty(),
    };
    assert(items.drop_first() =~= (if t is Null { Seq::empty() } else { ls[t->List_0.0 as int] }));
    let made = RtValue::List(ListId(ls.len() as usize));
    assert((ls.len() as usize) as int == ls.len());
    assert(ls.push(items)[ls.len() as int] == items);
    assert(items[0] == h);
}

proof fn lemma_arith_none(op: IntOp, acc: i64, args: Seq<RtValue>, i: int)
    requires
        0 <= i,
        arith_from(op, acc, args, i) is None,
    ensures
        exists|j: int| i <= j < args.len() && (#[trigger] args[j]) is Float,
    decreases args.len() - i,
{
    if i < args.len() {
        if !(args[i] is Float) {
            let v = int_step_spec(op, acc, args[i]->Integer_0)->Ok_0;
            lemma_arith_none(op, v, args, i + 1);
            let j = choose|j: int| i + 1 <= j < args.len() && (#[trigger] args[j]) is Float;
            assert(args[j] is Float);
        }
    }
}

/// The arithmetic builtins leave a call to the host only where a number with
/// a fraction takes part; with an argument that is no number and no number
/// with a fraction before it, they fail with a wrong type.
pub proof fn law_arith_defers_only_fractions(op: IntOp, args: Seq<RtValue>)
    ensures
        arith_spec(op, args) is None ==> exists|j: int| 0 <= j < args.len() && (#[trigger] args[j]) is Float,
        args.len() == 1 && !(args[0] is Integer) && !(args[0] is Float) ==> arith_spec(op, args) == Some(
            Err::<i64, RuntimeError>(RuntimeError::InvalidArgType),
        ),
{
    if arith_spec(op, args) is None {
        match op {
            IntOp::Add | IntOp::Mul => lemma_arith_none(op, 0, args, 0),
            IntOp::Sub | IntOp::Div => {
                if !(args[0] is Float) {
                    lemma_arith_none(op, args[0]->Integer_0, args, 1);
                    let j = choose|j: int| 1 <= j < args.len() && (#[trigger] args[j]) is Float;
                    assert(args[j] is Float);
                } else {
                    assert(args[0] is Float);
                }
            },
        }
    }
    if args.len() == 1 && !(args[0] is Integer) && !(args[0] is Float) {
        assert(args[0] == args[0]);
    }
}

/// `head` and `tail` refuse an empty list and anything but a list; `list`
/// makes a list of its arguments; `error` fails with the text it is given
/// and refuses anything but a string.
pub proof fn law_list_builtins(ls: Seq<Seq<RtValue>>, ts: Seq<Seq<char>>, args: Seq<RtValue>)
    ensures
        list_builtin_spec(ListBuiltin::List, ls, ts, args) == BuiltinOut::NewList(args),
        args.len() > 0 && (args[0] matches RtValue::List(l) && ls[l.0 as int].len() == 0) ==> list_builtin_spec(ListBuiltin::Head, ls, ts, args)
            == BuiltinOut::Fail(RuntimeError::EmptyList) && list_builtin_spec(ListBuiltin::Tail, ls, ts, args) == BuiltinOut::Fail(
            RuntimeError::EmptyList,
        ),
        args.len() > 0 && !(args[0] is List) ==> list_builtin_spec(ListBuiltin::Head, ls, ts, args) == BuiltinOut::Fail(
            RuntimeError::InvalidArgType,
        ) && list_builtin_spec(ListBuiltin::Tail, ls, ts, args) == BuiltinOut::Fail(RuntimeError::InvalidArgType),
        args.len() > 0 && args[0] is List && ls[args[0]->List_0.0 as int].len() > 0 ==> list_builtin_spec(ListBuiltin::Head, ls, ts, args)
            == BuiltinOut::Value(ls[args[0]->List_0.0 as int][0]) && list_builtin_spec(ListBuiltin::Tail, ls, ts, args) == BuiltinOut::NewList(
            ls[args[0]->List_0.0 as int].drop_first(),
        ),
        args.len() > 0 && args[0] is String ==> list_builtin_spec(ListBuiltin::Error, ls, ts, args) == BuiltinOut::User(ts[args[0]->String_0.0 as int]),
        args.len() > 0 && !(args[0] is String) ==> list_builtin_spec(ListBuiltin::Error, ls, ts, args) == BuiltinOut::Fail(
            RuntimeError::InvalidArgType,
        ),
        args.len() < 2 ==> list_builtin_spec(ListBuiltin::Cons, ls, ts, args) == BuiltinOut::Fail(RuntimeError::InvalidArgCount)
            && list_builtin_spec(ListBuiltin::Equal, ls, ts, args) == BuiltinOut::Fail(RuntimeError::InvalidArgCount),
{
}

/// A value is described by events: `null`, `true` and `false` as symbols
/// with those names, a symbol by its name, numbers and strings as
/// themselves, a list as its items' events between brackets; a function has
/// none.
pub proof fn law_emitted_values(ls: Seq<Seq<RtValue>>, ts: Seq<Seq<char>>, names: Seq<Seq<char>>, v: RtValue, span: Span)
    ensures
        v is Null ==> emitted(ls, ts, names, v, span) == Some(seq![Spanned { value: EventV::Symbol("null"@), span }]),
        v == RtValue::Boolean(true) ==> emitted(ls, ts, names, v, span) == Some(seq![Spanned { value: EventV::Symbol("true"@), span }]),
        v == RtValue::Boolean(false) ==> emitted(ls, ts, names, v, span) == Some(seq![Spanned { value: EventV::Symbol("false"@), span }]),
        v matches RtValue::Integer(i) ==> emitted(ls, ts, names, v, span) == Some(seq![Spanned { value: EventV::Integer(i), span }]),
        v matches RtValue::String(t) ==> emitted(ls, ts, names, v, span) == Some(seq![Spanned { value: EventV::String(ts[t.0 as int]), span }]),
        v matches RtValue::Float(t) ==> emitted(ls, ts, names, v, span) == Some(seq![Spanned { value: EventV::Float(ts[t.0 as int]), span }]),
        v matches RtValue::Symbol(n) ==> emitted(ls, ts, names, v, span) == Some(seq![Spanned { value: EventV::Symbol(names[n.index()]), span }]),
        v is Builtin || v is UserFn ==> emitted(ls, ts, names, v, span) is None,
        v is List && emitted(ls, ts, names, v, span) is Some ==> ({
            let evs = emitted(ls, ts, names, v, span)->Some_0;
            &&& evs.len() >= 2
            &&& evs[0] == Spanned { value: EventV::ListStart, span }
            &&& evs.last() == Spanned { value: EventV::ListEnd, span }
        }),
{
}

} // verus!
