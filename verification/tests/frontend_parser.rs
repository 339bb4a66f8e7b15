use lib::expression::{BindKind, Expression, ExpressionId};
use lib::frontend::event::{Event, ReadError, SEvent};
use lib::frontend::parser::{Expansions, ParseError, Parser, SParseError};
use lib::frontend::string_reader::StringReader;
use lib::runtime::session::Session;
use lib::frontend::parser::ExpansionRequest;
use lib::runtime::builtins::{arith, emit, list_builtin, IntOp, ListBuiltin};
use lib::runtime::environment::Environment;
use lib::runtime::error::{RuntimeError, SRuntimeError};
use lib::runtime::machine::{eval_step, EvalAction, EvalState};
use lib::runtime::value::{Heap, RtValue, UserFn};
use lib::span::{Span, SpannedExt};

/// An expression of a session with everything it refers to in place.
#[derive(Debug, Clone, PartialEq)]
enum OwnedExpression {
    Null,
    Boolean(bool),
    Integer(i64),
    Float(f64),
    String(String),
    Symbol(String),
    SymbolQ(String),
    List(Vec<OwnedExpression>),
    Do(Vec<OwnedExpression>),
    Call { call: Box<OwnedExpression>, args: Vec<OwnedExpression> },
    If { cond: Box<OwnedExpression>, t_branch: Box<OwnedExpression>, f_branch: Box<OwnedExpression> },
    Fn { req_params: Vec<String>, rest_param: Option<String>, body: Box<OwnedExpression> },
    Bind { kind: BindKind, name: String, value: Box<OwnedExpression> },
}

fn to_owned(id: ExpressionId, sesh: &Session) -> OwnedExpression {
    match sesh.get_expression(id).value {
        Expression::Null => OwnedExpression::Null,
        Expression::Boolean(v) => OwnedExpression::Boolean(v),
        Expression::Integer(v) => OwnedExpression::Integer(v),
        Expression::Float(v) => OwnedExpression::Float(sesh.get_string(v).parse().unwrap()),
        Expression::String(v) => OwnedExpression::String(sesh.get_string(v).to_string()),
        Expression::Symbol(v) => OwnedExpression::Symbol(sesh.get_symbol(v).to_string()),
        Expression::SymbolQ(v) => OwnedExpression::SymbolQ(sesh.get_symbol(v).to_string()),
        Expression::List(v) => {
            OwnedExpression::List(sesh.get_expressions(v).iter().map(|id| to_owned(*id, sesh)).collect())
        }
        Expression::Do(body) => {
            OwnedExpression::Do(sesh.get_expressions(body).iter().map(|id| to_owned(*id, sesh)).collect())
        }
        Expression::Call { call, args } => OwnedExpression::Call {
            call: Box::new(to_owned(call, sesh)),
            args: sesh.get_expressions(args).iter().map(|id| to_owned(*id, sesh)).collect(),
        },
        Expression::If { cond, t_branch, f_branch } => OwnedExpression::If {
            cond: Box::new(to_owned(cond, sesh)),
            t_branch: Box::new(to_owned(t_branch, sesh)),
            f_branch: Box::new(to_owned(f_branch, sesh)),
        },
        Expression::Fn { req_params, rest_param, body } => OwnedExpression::Fn {
            req_params: sesh
                .get_params(req_params)
                .iter()
                .map(|id| sesh.get_symbol(*id).to_string())
                .collect(),
            rest_param: rest_param.map(|id| sesh.get_symbol(id).to_string()),
            body: Box::new(to_owned(body, sesh)),
        },
        Expression::Bind { kind, name, value } => OwnedExpression::Bind {
            kind,
            name: sesh.get_symbol(name).to_string(),
            value: Box::new(to_owned(value, sesh)),
        },
    }
}

/// Expands every macro call into events given in advance, and records
/// what each call handed over.
struct CannedExpander {
    expansion: Vec<SEvent>,
    calls: Vec<(String, Vec<OwnedExpression>)>,
}

fn no_macros() -> CannedExpander {
    CannedExpander { expansion: vec![], calls: vec![] }
}

/// Parses `source`, expanding each requested macro call with the canned
/// events and parsing again, until parsing ends without a request.
fn parse_with(
    source: &str,
    expander: &mut CannedExpander,
) -> Result<Vec<OwnedExpression>, SParseError> {
    let mut known: Vec<Vec<SEvent>> = vec![];
    loop {
        let mut sesh = Session::new();
        let mut expansions = Expansions::new(known.clone());
        let r = Parser::new(None).parse(&mut sesh, &mut StringReader::new(source), &mut expansions);
        match r {
            Err(e) if e.value == ParseError::ExpansionNeeded => {
                let request = expansions.request().clone().unwrap();
                assert_eq!(request.span, e.span);
                let args = request.args.iter().map(|id| to_owned(*id, &sesh)).collect();
                expander.calls.push((sesh.get_symbol(request.def.name).to_string(), args));
                known.push(expander.expansion.clone());
            }
            Err(e) => return Err(e),
            Ok(roots) => {
                return Ok(sesh.get_expressions(roots).iter().map(|id| to_owned(*id, &sesh)).collect())
            }
        }
    }
}

fn parse_str_to_expressions(source: &str) -> Result<Vec<OwnedExpression>, SParseError> {
    parse_with(source, &mut no_macros())
}

fn error(kind: ParseError, start: usize, end: usize) -> Result<Vec<OwnedExpression>, SParseError> {
    Err(kind.scopy(Span::new(start, end)))
}

fn sym(name: &str) -> OwnedExpression {
    OwnedExpression::Symbol(name.to_string())
}

fn symq(name: &str) -> OwnedExpression {
    OwnedExpression::SymbolQ(name.to_string())
}

fn integer(v: i64) -> OwnedExpression {
    OwnedExpression::Integer(v)
}

fn call(f: OwnedExpression, args: Vec<OwnedExpression>) -> OwnedExpression {
    OwnedExpression::Call { call: Box::new(f), args }
}

fn function(params: &[&str], rest: Option<&str>, body: OwnedExpression) -> OwnedExpression {
    OwnedExpression::Fn {
        req_params: params.iter().map(|p| p.to_string()).collect(),
        rest_param: rest.map(|r| r.to_string()),
        body: Box::new(body),
    }
}

#[test]
fn test_literal_null() {
    assert_eq!(parse_str_to_expressions("null"), Ok(vec![OwnedExpression::Null]));
}

#[test]
fn test_literal_integer() {
    assert_eq!(parse_str_to_expressions("42"), Ok(vec![integer(42)]));
}

#[test]
fn test_variable() {
    assert_eq!(parse_str_to_expressions("x"), Ok(vec![sym("x")]));
}

#[test]
fn parser_test_do() {
    assert_eq!(
        parse_str_to_expressions("(do (+ 1 2) (+ 3 4))"),
        Ok(vec![OwnedExpression::Do(vec![
            call(sym("+"), vec![integer(1), integer(2)]),
            call(sym("+"), vec![integer(3), integer(4)]),
        ])])
    );
}

#[test]
fn test_call() {
    assert_eq!(
        parse_str_to_expressions("(+ 1 2)"),
        Ok(vec![call(sym("+"), vec![integer(1), integer(2)])])
    );
}

#[test]
fn test_if() {
    assert_eq!(
        parse_str_to_expressions("(if true 4 2)"),
        Ok(vec![OwnedExpression::If {
            cond: Box::new(OwnedExpression::Boolean(true)),
            t_branch: Box::new(integer(4)),
            f_branch: Box::new(integer(2)),
        }])
    );
}

#[test]
fn test_function() {
    assert_eq!(
        parse_str_to_expressions("(fn (a b) (+ a b))"),
        Ok(vec![function(&["a", "b"], None, call(sym("+"), vec![sym("a"), sym("b")]))])
    );
}

#[test]
fn test_function_variadic_a() {
    assert_eq!(
        parse_str_to_expressions("(fn (&rest) null)"),
        Ok(vec![function(&[], Some("&rest"), OwnedExpression::Null)])
    );
}

#[test]
fn test_function_variadic_b() {
    assert_eq!(
        parse_str_to_expressions("(fn (a b &rest) null)"),
        Ok(vec![function(&["a", "b"], Some("&rest"), OwnedExpression::Null)])
    );
}

#[test]
fn test_define() {
    assert_eq!(
        parse_str_to_expressions("(def x 42)"),
        Ok(vec![OwnedExpression::Bind {
            kind: BindKind::Def,
            name: "x".to_string(),
            value: Box::new(integer(42)),
        }])
    );
}

#[test]
fn test_quote_a() {
    assert_eq!(
        parse_str_to_expressions("'(do 1 2 3)"),
        Ok(vec![OwnedExpression::List(vec![symq("do"), integer(1), integer(2), integer(3)])])
    );
}

#[test]
fn test_quote_b() {
    assert_eq!(
        parse_str_to_expressions("(quote (do 1 2 3))"),
        Ok(vec![OwnedExpression::List(vec![symq("do"), integer(1), integer(2), integer(3)])])
    );
}

#[test]
fn test_quote_double_a() {
    assert_eq!(parse_str_to_expressions("'x"), Ok(vec![symq("x")]));
}

#[test]
fn test_quote_double_b() {
    assert_eq!(
        parse_str_to_expressions("''x"),
        Ok(vec![OwnedExpression::List(vec![symq("quote"), symq("x")])])
    );
}

#[test]
fn test_reader_error() {
    assert_eq!(
        parse_str_to_expressions("\""),
        Err(ReadError::UnterminatedString.sbetween(0, 1).into())
    );
}

#[test]
fn test_expected_list_end() {
    assert_eq!(parse_str_to_expressions("(def x 1 2)"), error(ParseError::ExpectedListEnd, 9, 10));
}

#[test]
fn test_expected_symbol() {
    assert_eq!(parse_str_to_expressions("(def 1 1)"), error(ParseError::ExpectedSymbol, 5, 6));
}

#[test]
fn test_expected_function_params() {
    assert_eq!(
        parse_str_to_expressions("(fn 1 (+ 1 2))"),
        error(ParseError::ExpectedParameterList, 4, 5)
    );
}

#[test]
fn test_unexpected_list_end() {
    assert_eq!(parse_str_to_expressions("(def x)"), error(ParseError::UnexpectedListEnd, 6, 7));
}

#[test]
fn test_unexpected_source_end() {
    assert_eq!(parse_str_to_expressions("(def x"), error(ParseError::UnexpectedSourceEnd, 6, 7));
}

#[test]
fn test_unexpected_reserved_symbol_a() {
    assert_eq!(
        parse_str_to_expressions("(def if 1)"),
        error(ParseError::UnexpectedReservedSymbol, 5, 7)
    );
}

#[test]
fn test_unexpected_reserved_symbol_b() {
    assert_eq!(
        parse_str_to_expressions("(fn (if) (+ if 1))"),
        error(ParseError::UnexpectedReservedSymbol, 5, 7)
    );
}

#[test]
fn parse_set_empty_list_float_and_string() {
    assert_eq!(
        parse_str_to_expressions(r#"(set x ()) 2.5 "s""#),
        Ok(vec![
            OwnedExpression::Bind {
                kind: BindKind::Assign,
                name: "x".to_string(),
                value: Box::new(OwnedExpression::Null),
            },
            OwnedExpression::Float(2.5),
            OwnedExpression::String("s".to_string()),
        ])
    );
}

#[test]
fn parse_errors_on_misplaced_markers() {
    assert_eq!(parse_str_to_expressions("&x"), error(ParseError::UnexpectedRestMarker, 0, 2));
    assert_eq!(parse_str_to_expressions("do"), error(ParseError::UnexpectedReservedSymbol, 0, 2));
    assert_eq!(parse_str_to_expressions(")"), error(ParseError::UnexpectedListEnd, 0, 1));
    assert_eq!(
        parse_str_to_expressions("(fn (a a) 1)"),
        error(ParseError::DuplicateParameter, 7, 8)
    );
    assert_eq!(
        parse_str_to_expressions("(fn (&r x) 1)"),
        error(ParseError::ExpectedListEnd, 8, 9)
    );
    assert_eq!(
        parse_str_to_expressions("(f (def-macro m () 1))"),
        error(ParseError::MacroDefinitionNotInTopLevel, 3, 4)
    );
}

#[test]
fn macro_calls_parse_the_expansion() {
    let mut expander = CannedExpander {
        expansion: vec![Event::Integer(2).scopy(Span::new(40, 41))],
        calls: vec![],
    };
    assert_eq!(
        parse_with("(def-macro inc (x) (do (+ x 1))) (inc 1)", &mut expander),
        Ok(vec![OwnedExpression::Null, integer(2)])
    );
    assert_eq!(expander.calls, vec![("inc".to_string(), vec![integer(1)])]);
}

#[test]
fn macro_arguments_are_quoted_and_expansions_are_lists() {
    let s = Span::new(0, 1);
    let mut expander = CannedExpander {
        expansion: vec![
            Event::ListStart.scopy(s),
            Event::Symbol("if".to_string()).scopy(s),
            Event::Symbol("true".to_string()).scopy(s),
            Event::Integer(2).scopy(s),
            Event::Integer(4).scopy(s),
            Event::ListEnd.scopy(s),
        ],
        calls: vec![],
    };
    assert_eq!(
        parse_with("(def-macro if-not (x t f) (list 'if x f t)) (if-not true 4 2)", &mut expander),
        Ok(vec![
            OwnedExpression::Null,
            OwnedExpression::If {
                cond: Box::new(OwnedExpression::Boolean(true)),
                t_branch: Box::new(integer(2)),
                f_branch: Box::new(integer(4)),
            },
        ])
    );
    assert_eq!(
        expander.calls,
        vec![("if-not".to_string(), vec![symq("true"), integer(4), integer(2)])]
    );
}

#[test]
fn macros_cannot_be_defined_twice() {
    assert_eq!(
        parse_str_to_expressions("(def-macro m () 1) (def-macro m () 2)"),
        error(ParseError::MacroAlreadyDefined, 19, 20)
    );
}

#[test]
fn runaway_expansion_stops() {
    let s = Span::new(0, 1);
    let mut expander = CannedExpander {
        expansion: vec![
            Event::ListStart.scopy(s),
            Event::Symbol("m".to_string()).scopy(s),
            Event::ListEnd.scopy(s),
        ],
        calls: vec![],
    };
    let r = parse_with("(def-macro m () 1) (m)", &mut expander);
    assert_eq!(r.unwrap_err().value, ParseError::ExpansionTooDeep);
}

#[test]
fn code_after_a_macro_definition_parses_as_usual() {
    let mut expander = no_macros();
    assert_eq!(
        parse_with("(def-macro m (x) x) (+ 1 2) (f m)", &mut expander),
        Ok(vec![
            OwnedExpression::Null,
            call(sym("+"), vec![integer(1), integer(2)]),
            call(sym("f"), vec![sym("m")]),
        ])
    );
    assert!(expander.calls.is_empty());
}

#[test]
fn macro_definitions_need_a_name_and_parameters() {
    assert_eq!(
        parse_str_to_expressions("(def-macro 1 () 1)"),
        error(ParseError::ExpectedSymbol, 11, 12)
    );
    assert_eq!(
        parse_str_to_expressions("(def-macro m x 1)"),
        error(ParseError::ExpectedParameterList, 13, 14)
    );
    assert_eq!(
        parse_str_to_expressions("(def-macro #m () 1) (def-macro #m () 2)"),
        error(ParseError::MacroAlreadyDefined, 20, 21)
    );
}

#[test]
fn macro_call_argument_errors_stop_before_expansion() {
    let mut expander = no_macros();
    let r = parse_with("(def-macro m (x) x) (m 1", &mut expander);
    assert_eq!(r.unwrap_err().value, ParseError::UnexpectedSourceEnd);
    assert!(expander.calls.is_empty());
}

#[test]
fn a_call_without_an_expansion_is_requested() {
    let mut sesh = Session::new();
    let mut expansions = Expansions::new(vec![]);
    let source = "(def-macro m (x) x) (m (1 2) 'y)";
    let r = Parser::new(None).parse(&mut sesh, &mut StringReader::new(source), &mut expansions);
    assert_eq!(r, Err(ParseError::ExpansionNeeded.scopy(Span::new(20, 21))));
    let request = expansions.request().clone().unwrap();
    assert_eq!(sesh.get_symbol(request.def.name), "m");
    assert_eq!(request.span, Span::new(20, 21));
    let args: Vec<OwnedExpression> = request.args.iter().map(|id| to_owned(*id, &sesh)).collect();
    assert_eq!(
        args,
        vec![
            OwnedExpression::List(vec![integer(1), integer(2)]),
            OwnedExpression::List(vec![symq("quote"), symq("y")]),
        ]
    );
}

#[test]
fn known_expansions_are_taken_in_call_order() {
    let s = Span::new(0, 1);
    let mut sesh = Session::new();
    let mut expansions = Expansions::new(vec![
        vec![Event::Integer(5).scopy(s)],
        vec![Event::Integer(7).scopy(s)],
    ]);
    let source = "(def-macro m () 1) (m) (m)";
    let roots = Parser::new(None)
        .parse(&mut sesh, &mut StringReader::new(source), &mut expansions)
        .unwrap();
    let trees: Vec<OwnedExpression> =
        sesh.get_expressions(roots).iter().map(|id| to_owned(*id, &sesh)).collect();
    assert_eq!(trees, vec![OwnedExpression::Null, integer(5), integer(7)]);
    assert!(expansions.request().is_none());
}

/// The builtins a test host offers: `+` and `list`.
fn run_program(sesh: &mut Session, heap: &mut Heap, envs: &mut Environment<RtValue>, st: EvalState) -> Result<RtValue, SRuntimeError> {
    let mut st = st;
    let mut reply = None;
    loop {
        let (next, action) = eval_step(sesh, heap, envs, st, reply.take());
        match action {
            EvalAction::Continue => {}
            EvalAction::Done(v) => return Ok(v),
            EvalAction::Failed(e) => return Err(e),
            EvalAction::CallBuiltin { index, base, .. } => {
                let args = next.values[base..].to_vec();
                reply = Some(match index {
                    0 => arith(IntOp::Add, &args).unwrap().map(RtValue::Integer),
                    1 => list_builtin(ListBuiltin::List, heap, &args),
                    _ => Err(RuntimeError::NotCallable),
                });
            }
            EvalAction::ParseFloat { text, .. } => {
                let t = sesh.get_string(text).to_string();
                reply = Some(Ok(heap.push_float(&t)));
            }
        }
        st = next;
    }
}

fn host(sesh: &mut Session) -> (Environment<RtValue>, Heap) {
    let mut envs = Environment::new();
    let root = envs.root();
    let plus = sesh.push_symbol("+");
    envs.def(root, plus, RtValue::Builtin(0)).unwrap();
    let list = sesh.push_symbol("list");
    envs.def(root, list, RtValue::Builtin(1)).unwrap();
    (envs, Heap::new())
}

/// Expands a macro call by running the macro and turning its value into events.
fn expand_by_evaluation(sesh: &Session, request: &ExpansionRequest) -> Vec<SEvent> {
    let mut sesh = sesh.clone();
    let (mut envs, mut heap) = host(&mut sesh);
    let root = envs.root();
    let mut values = vec![];
    for id in request.args.iter() {
        values.push(run_program(&mut sesh, &mut heap, &mut envs, EvalState::eval(*id, root)).unwrap());
    }
    let def = request.def;
    let f = UserFn { req_params: def.req_params, rest_param: def.rest_param, body: def.body, env: root };
    let v = run_program(&mut sesh, &mut heap, &mut envs, EvalState::apply(RtValue::UserFn(f), values, request.span)).unwrap();
    let mut events = vec![];
    emit(v, &heap, &sesh, request.span, &mut events).unwrap();
    events
}

fn parse_evaluating_macros(source: &str) -> Result<Vec<OwnedExpression>, SParseError> {
    let mut known: Vec<Vec<SEvent>> = vec![];
    loop {
        let mut sesh = Session::new();
        let mut expansions = Expansions::new(known.clone());
        let r = Parser::new(None).parse(&mut sesh, &mut StringReader::new(source), &mut expansions);
        match r {
            Err(e) if e.value == ParseError::ExpansionNeeded => {
                let request = expansions.request().clone().unwrap();
                known.push(expand_by_evaluation(&sesh, &request));
            }
            Err(e) => return Err(e),
            Ok(roots) => {
                return Ok(sesh.get_expressions(roots).iter().map(|id| to_owned(*id, &sesh)).collect())
            }
        }
    }
}

fn evaluate(source: &str) -> (Result<RtValue, SRuntimeError>, Session, Heap) {
    let mut sesh = Session::new();
    let mut expansions = Expansions::new(vec![]);
    let roots = Parser::new(None).parse(&mut sesh, &mut StringReader::new(source), &mut expansions).unwrap();
    let (mut envs, mut heap) = host(&mut sesh);
    let root = envs.root();
    let st = EvalState::start(&sesh, &envs, &heap, roots, root);
    let r = run_program(&mut sesh, &mut heap, &mut envs, st);
    (r, sesh, heap)
}

#[test]
fn test_macro_a() {
    assert_eq!(
        parse_evaluating_macros("(def-macro inc (x) (do (+ x 1))) (inc 1)"),
        Ok(vec![OwnedExpression::Null, integer(2)])
    );
}

#[test]
fn test_macro_b() {
    assert_eq!(
        parse_evaluating_macros(
            r#"
                (def-macro if-not (x t f) (list 'if x f t))
                (if-not true 4 2)
                "#
        ),
        Ok(vec![
            OwnedExpression::Null,
            OwnedExpression::If {
                cond: Box::new(OwnedExpression::Boolean(true)),
                t_branch: Box::new(integer(2)),
                f_branch: Box::new(integer(4)),
            },
        ])
    );
}

#[test]
fn evaluation_binds_assigns_and_branches() {
    assert_eq!(evaluate("(def x 1) (set x 2) x").0, Ok(RtValue::Integer(2)));
    assert_eq!(evaluate("(if false 1 2)").0, Ok(RtValue::Integer(2)));
    assert_eq!(evaluate("(if 0 1 2)").0, Ok(RtValue::Integer(2)));
    assert_eq!(evaluate("(do 1 2 3)").0, Ok(RtValue::Integer(3)));
    assert_eq!(evaluate("").0, Ok(RtValue::Null));
    assert_eq!(evaluate("((fn (a b) b) 1 2)").0, Ok(RtValue::Integer(2)));
    assert_eq!(evaluate("(def add (fn (a b) (+ a b))) (add 3 4)").0, Ok(RtValue::Integer(7)));
}

#[test]
fn evaluation_closures_see_their_scope() {
    assert_eq!(
        evaluate("(def make (fn (n) (fn (m) (+ n m)))) (def add2 (make 2)) (add2 5)").0,
        Ok(RtValue::Integer(7))
    );
}

#[test]
fn evaluation_gathers_rest_arguments_in_a_list() {
    let (r, _, _) = evaluate("((fn (a &rest) a) 1 2 3)");
    assert_eq!(r, Ok(RtValue::Integer(1)));
    let (r, _, heap) = evaluate("(list 1 2)");
    match r.unwrap() {
        RtValue::List(id) => assert_eq!(heap.list(id).to_vec(), vec![RtValue::Integer(1), RtValue::Integer(2)]),
        _ => panic!("not a list"),
    }
}

#[test]
fn evaluation_errors_carry_their_span() {
    assert_eq!(evaluate("y").0, Err(RuntimeError::UndefinedVariable.scopy(Span::new(0, 1))));
    assert_eq!(evaluate("(set y 1)").0, Err(RuntimeError::UndefinedVariable.scopy(Span::new(0, 1))));
    assert_eq!(evaluate("(def x 1) (def x 2)").0, Err(RuntimeError::AlreadyDefinedVariable.scopy(Span::new(10, 11))));
    assert_eq!(evaluate("(1 2)").0, Err(RuntimeError::NotCallable.scopy(Span::new(0, 1))));
    assert_eq!(evaluate("((fn (a) a))").0, Err(RuntimeError::InvalidArgCount.scopy(Span::new(0, 1))));
}

#[test]
fn evaluation_asks_the_host_for_builtins_and_fractions() {
    let mut sesh = Session::new();
    let mut expansions = Expansions::new(vec![]);
    let roots = Parser::new(None).parse(&mut sesh, &mut StringReader::new("(+ 1 2.5)"), &mut expansions).unwrap();
    let (mut envs, mut heap) = host(&mut sesh);
    let root = envs.root();
    let mut st = EvalState::start(&sesh, &envs, &heap, roots, root);
    let mut asked = vec![];
    let mut reply = None;
    loop {
        let (next, action) = eval_step(&sesh, &mut heap, &mut envs, st, reply.take());
        match action {
            EvalAction::Continue => {}
            EvalAction::ParseFloat { text, .. } => {
                asked.push(sesh.get_string(text).to_string());
                reply = Some(Ok(heap.push_float("2.5")));
            }
            EvalAction::CallBuiltin { index, base, .. } => {
                assert_eq!(index, 0);
                assert_eq!(next.values[base..].len(), 2);
                reply = Some(Ok(RtValue::Integer(99)));
            }
            EvalAction::Done(v) => {
                assert_eq!(v, RtValue::Integer(99));
                break;
            }
            EvalAction::Failed(e) => panic!("{:?}", e),
        }
        st = next;
    }
    assert_eq!(asked, vec!["2.5".to_string()]);
}

#[test]
fn evaluation_keeps_earlier_lists_and_variables() {
    let (r, _, heap) = evaluate("(def x (list 1)) (def y (list 2 3)) (set y (list 4)) x");
    match r.unwrap() {
        RtValue::List(id) => assert_eq!(heap.list(id).to_vec(), vec![RtValue::Integer(1)]),
        _ => panic!("not a list"),
    }
}
