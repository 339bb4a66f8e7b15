use lib::frontend::event::{Event, ReadError};
use lib::runtime::builtins::{arith, emit, int_fold, list_builtin, type_of, IntOp, ListBuiltin};
use lib::runtime::error::RuntimeError;
use lib::runtime::session::Session;
use lib::runtime::value::{is_truthy, Heap, RtValue};
use lib::span::{Span, SpannedExt};

fn items(heap: &Heap, v: RtValue) -> Vec<RtValue> {
    match v {
        RtValue::List(id) => heap.list(id).to_vec(),
        _ => panic!("not a list"),
    }
}

#[test]
fn integer_folds_follow_the_builtins() {
    assert_eq!(int_fold(IntOp::Add, &[1, 2, 3]), Ok(6));
    assert_eq!(int_fold(IntOp::Add, &[]), Ok(0));
    assert_eq!(int_fold(IntOp::Mul, &[2, 3]), Ok(0));
    assert_eq!(int_fold(IntOp::Sub, &[]), Err(RuntimeError::InvalidArgCount));
    assert_eq!(int_fold(IntOp::Sub, &[5]), Ok(-5));
    assert_eq!(int_fold(IntOp::Sub, &[10, 3, 2]), Ok(5));
    assert_eq!(int_fold(IntOp::Div, &[7, 2]), Ok(3));
    assert_eq!(int_fold(IntOp::Div, &[-7, 2]), Ok(-3));
    assert_eq!(int_fold(IntOp::Div, &[5, 0]), Err(RuntimeError::DivisionByZero));
    assert_eq!(int_fold(IntOp::Div, &[0]), Err(RuntimeError::DivisionByZero));
    assert_eq!(int_fold(IntOp::Div, &[4]), Ok(0));
    assert_eq!(int_fold(IntOp::Div, &[i64::MIN, -1]), Err(RuntimeError::IntegerOverflow));
    assert_eq!(int_fold(IntOp::Add, &[i64::MAX, 1]), Err(RuntimeError::IntegerOverflow));
    assert_eq!(int_fold(IntOp::Sub, &[i64::MIN]), Err(RuntimeError::IntegerOverflow));
}

#[test]
fn arithmetic_on_values_leaves_fractions_to_the_host() {
    let mut heap = Heap::new();
    let f = heap.push_float("1.5");
    let s = heap.push_string("x");
    assert_eq!(arith(IntOp::Add, &[RtValue::Integer(1), RtValue::Integer(2)]), Some(Ok(3)));
    assert_eq!(arith(IntOp::Add, &[RtValue::Integer(1), f]), None);
    assert_eq!(arith(IntOp::Add, &[RtValue::Integer(1), s]), Some(Err(RuntimeError::InvalidArgType)));
    assert_eq!(
        arith(IntOp::Add, &[RtValue::Integer(i64::MAX), RtValue::Integer(1), f]),
        Some(Err(RuntimeError::IntegerOverflow))
    );
    assert_eq!(arith(IntOp::Sub, &[s, RtValue::Integer(1)]), Some(Err(RuntimeError::InvalidArgType)));
    assert_eq!(arith(IntOp::Div, &[s, RtValue::Integer(0)]), Some(Err(RuntimeError::DivisionByZero)));
    assert_eq!(arith(IntOp::Div, &[f, RtValue::Integer(2)]), None);
    assert_eq!(arith(IntOp::Sub, &[]), Some(Err(RuntimeError::InvalidArgCount)));
}

#[test]
fn list_builtins_make_and_take_apart_lists() {
    let mut heap = Heap::new();
    let l = list_builtin(ListBuiltin::List, &mut heap, &[RtValue::Integer(2), RtValue::Integer(3)]).unwrap();
    let c = list_builtin(ListBuiltin::Cons, &mut heap, &[RtValue::Integer(1), l]).unwrap();
    assert_eq!(items(&heap, c), vec![RtValue::Integer(1), RtValue::Integer(2), RtValue::Integer(3)]);
    let one = list_builtin(ListBuiltin::Cons, &mut heap, &[RtValue::Integer(1), RtValue::Null]).unwrap();
    assert_eq!(items(&heap, one), vec![RtValue::Integer(1)]);
    assert_eq!(
        list_builtin(ListBuiltin::Cons, &mut heap, &[RtValue::Integer(1), RtValue::Integer(5)]),
        Err(RuntimeError::InvalidArgType)
    );
    assert_eq!(list_builtin(ListBuiltin::Cons, &mut heap, &[RtValue::Integer(1)]), Err(RuntimeError::InvalidArgCount));
    assert_eq!(list_builtin(ListBuiltin::Head, &mut heap, &[c]), Ok(RtValue::Integer(1)));
    let t = list_builtin(ListBuiltin::Tail, &mut heap, &[c]).unwrap();
    assert_eq!(items(&heap, t), vec![RtValue::Integer(2), RtValue::Integer(3)]);
    let empty = list_builtin(ListBuiltin::List, &mut heap, &[]).unwrap();
    assert_eq!(list_builtin(ListBuiltin::Head, &mut heap, &[empty]), Err(RuntimeError::EmptyList));
    assert_eq!(list_builtin(ListBuiltin::Tail, &mut heap, &[empty]), Err(RuntimeError::EmptyList));
    assert_eq!(list_builtin(ListBuiltin::Head, &mut heap, &[RtValue::Null]), Err(RuntimeError::InvalidArgType));
    let m = heap.push_string("boom");
    assert_eq!(list_builtin(ListBuiltin::Error, &mut heap, &[m]), Err(RuntimeError::User("boom".to_string())));
    assert_eq!(list_builtin(ListBuiltin::Error, &mut heap, &[RtValue::Integer(1)]), Err(RuntimeError::InvalidArgType));
}

#[test]
fn equality_compares_contents_and_numbers_as_f64() {
    let mut heap = Heap::new();
    let zero = heap.push_float("0.0");
    let minus_zero = heap.push_float("-0.0");
    let nan = heap.push_float("NaN");
    let a = list_builtin(ListBuiltin::List, &mut heap, &[zero, RtValue::Integer(1)]).unwrap();
    let b = list_builtin(ListBuiltin::List, &mut heap, &[minus_zero, RtValue::Integer(1)]).unwrap();
    let c = list_builtin(ListBuiltin::List, &mut heap, &[minus_zero, RtValue::Integer(2)]).unwrap();
    let eq = |heap: &mut Heap, x: RtValue, y: RtValue| list_builtin(ListBuiltin::Equal, heap, &[x, y]);
    assert_eq!(eq(&mut heap, a, b), Ok(RtValue::Boolean(true)));
    assert_eq!(eq(&mut heap, a, c), Ok(RtValue::Boolean(false)));
    assert_eq!(eq(&mut heap, nan, nan), Ok(RtValue::Boolean(false)));
    assert_eq!(eq(&mut heap, RtValue::Null, RtValue::Null), Ok(RtValue::Boolean(true)));
    assert_eq!(eq(&mut heap, RtValue::Integer(1), zero), Ok(RtValue::Boolean(false)));
    let s1 = heap.push_string("ab");
    let s2 = heap.push_string("ab");
    assert_eq!(eq(&mut heap, s1, s2), Ok(RtValue::Boolean(true)));
}

#[test]
fn type_of_names_the_kind() {
    let mut sesh = Session::new();
    let r = type_of(&mut sesh, &[RtValue::Integer(3)]).unwrap();
    match r {
        RtValue::Symbol(id) => assert_eq!(sesh.get_symbol(id), "integer"),
        _ => panic!("not a symbol"),
    }
    let r = type_of(&mut sesh, &[RtValue::Builtin(0)]).unwrap();
    match r {
        RtValue::Symbol(id) => assert_eq!(sesh.get_symbol(id), "function"),
        _ => panic!("not a symbol"),
    }
    assert_eq!(type_of(&mut sesh, &[]), Err(RuntimeError::InvalidArgCount));
}

#[test]
fn truthiness_of_values() {
    let mut heap = Heap::new();
    let minus_zero = heap.push_float("-0.0");
    let nan = heap.push_float("NaN");
    let empty_string = heap.push_string("");
    let empty = list_builtin(ListBuiltin::List, &mut heap, &[]).unwrap();
    let full = list_builtin(ListBuiltin::List, &mut heap, &[RtValue::Null]).unwrap();
    assert!(!is_truthy(&heap, minus_zero));
    assert!(is_truthy(&heap, nan));
    assert!(!is_truthy(&heap, empty_string));
    assert!(!is_truthy(&heap, empty));
    assert!(is_truthy(&heap, full));
    assert!(!is_truthy(&heap, RtValue::Integer(0)));
    assert!(!is_truthy(&heap, RtValue::Null));
    assert!(is_truthy(&heap, RtValue::Builtin(2)));
}

#[test]
fn values_are_emitted_as_events() {
    let mut heap = Heap::new();
    let sesh = Session::new();
    let s = heap.push_string("a");
    let f = heap.push_float("2.5");
    let inner = list_builtin(ListBuiltin::List, &mut heap, &[RtValue::Boolean(false)]).unwrap();
    let l = list_builtin(ListBuiltin::List, &mut heap, &[RtValue::Integer(1), s, RtValue::Null, f, inner]).unwrap();
    let span = Span::new(3, 4);
    let mut events = Vec::new();
    assert_eq!(emit(l, &heap, &sesh, span, &mut events), Ok(()));
    let expected: Vec<_> = vec![
        Event::ListStart,
        Event::Integer(1),
        Event::String("a".to_string()),
        Event::Symbol("null".to_string()),
        Event::Float("2.5".to_string()),
        Event::ListStart,
        Event::Symbol("false".to_string()),
        Event::ListEnd,
        Event::ListEnd,
    ]
    .into_iter()
    .map(|e| e.scopy(span))
    .collect();
    assert_eq!(events, expected);
    let mut events = Vec::new();
    assert_eq!(
        emit(RtValue::Builtin(0), &heap, &sesh, span, &mut events),
        Err(ReadError::UnsupportedSyntaxValue.scopy(span))
    );
}
