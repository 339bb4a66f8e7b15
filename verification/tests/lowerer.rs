use lib::lexing::lexer::Lexer;
use lib::lowering::expression::{Expression, ExpressionTree};
use lib::lowering::lowerer::{lower, LowererError, SLowererError};
use lib::parsing::parser::{Parser, ParserError};
use lib::parsing::syntax::SyntaxTree;
use lib::span::SpannedExt;

fn parse(source: &str) -> Result<SyntaxTree, SLowererError> {
    let mut lexer = Lexer::new(source);
    Ok(Parser::new().parse(&mut lexer)?)
}

/// Parses and lowers `source`, and shows the lowered roots.
fn lower_str(source: &str) -> Result<String, SLowererError> {
    let tree = parse(source)?;
    let lowered = lower(&tree)?;
    Ok(lowered.to_display_string())
}

fn lower_shown(source: &str) -> String {
    lower_str(source).unwrap()
}

#[test]
fn test_lower_literal_null() {
    assert_eq!(lower_str("null"), Ok("Null".to_string()));
}

#[test]
fn test_lower_literal_integer() {
    assert_eq!(lower_str("42"), Ok("Integer(42)".to_string()));
}

#[test]
fn test_lower_variable() {
    assert_eq!(lower_str("x"), Ok("Symbol(x)".to_string()));
}

#[test]
fn test_lower_call() {
    assert_eq!(lower_str("(+ 1 2)"), Ok("Call(Symbol(+), Integer(1), Integer(2))".to_string()));
}

#[test]
fn test_lower_if() {
    assert_eq!(
        lower_str("(if true 4 2)"),
        Ok("If(Boolean(true), Integer(4), Integer(2))".to_string())
    );
}

#[test]
fn test_lower_function() {
    assert_eq!(
        lower_str("(fn (a b) (print a) (+ a b))"),
        Ok("Function(a, b, Call(Symbol(print), Symbol(a)), Call(Symbol(+), Symbol(a), Symbol(b)))"
            .to_string())
    );
}

#[test]
fn test_lower_define() {
    assert_eq!(lower_str("(def x 42)"), Ok("Define(x, Integer(42))".to_string()));
}

#[test]
fn test_lower_parser_error() {
    assert_eq!(
        lower_str("("),
        Err(LowererError::ParseError(ParserError::MissingRightParen).sbetween(0, 0))
    );
}

#[test]
fn test_lower_unexpected_expression() {
    assert_eq!(lower_str("if"), Err(LowererError::UnexpectedExpression.sbetween(0, 2)));
}

#[test]
fn test_lower_invalid_if_a() {
    assert_eq!(lower_str("(if true)"), Err(LowererError::InvalidIf.sbetween(0, 9)));
}

#[test]
fn test_lower_invalid_if_b() {
    assert_eq!(lower_str("(if true 4)"), Err(LowererError::InvalidIf.sbetween(0, 11)));
}

#[test]
fn test_lower_invalid_function() {
    assert_eq!(lower_str("(fn)"), Err(LowererError::InvalidFunction.sbetween(0, 4)));
}

#[test]
fn test_lower_invalid_function_args() {
    assert_eq!(lower_str("(fn a a)"), Err(LowererError::InvalidFunctionArgs.sbetween(4, 5)));
}

#[test]
fn test_lower_invalid_function_arg() {
    assert_eq!(lower_str("(fn (3) 3)"), Err(LowererError::InvalidFunctionArg.sbetween(5, 6)));
}

#[test]
fn test_lower_invalid_function_body() {
    assert_eq!(lower_str("(fn (a))"), Err(LowererError::InvalidFunctionBody.sbetween(0, 8)));
}

#[test]
fn test_lower_invalid_define() {
    assert_eq!(lower_str("(def a)"), Err(LowererError::InvalidDefine.sbetween(0, 7)));
}

#[test]
fn test_lower_invalid_define_name() {
    assert_eq!(
        lower_str(r#"(def "a" 42)"#),
        Err(LowererError::InvalidDefineName.sbetween(5, 8))
    );
}

#[test]
fn test_lower_invalid_call_name() {
    assert_eq!(lower_str("(42)"), Err(LowererError::InvalidCall.sbetween(1, 3)));
}

#[test]
fn lower_empty_list_is_null() {
    assert_eq!(lower_shown("()"), "Null");
}

#[test]
fn lower_literals_and_strings() {
    assert_eq!(
        lower_shown(r#"true false -7 2.50 "hi""#),
        "Boolean(true)Boolean(false)Integer(-7)Float(2.50)String(hi)"
    );
}

#[test]
fn lower_nested_call_head() {
    assert_eq!(lower_shown("((f 1))"), "Call(Call(Symbol(f), Integer(1)), )");
}

#[test]
fn lower_function_without_params() {
    assert_eq!(lower_shown("(fn () 1)"), "Function(, Integer(1))");
}

#[test]
fn lower_keywords_alone_are_errors() {
    assert_eq!(lower_str("(f fn)"), Err(LowererError::UnexpectedExpression.sbetween(3, 5)));
    assert_eq!(lower_str("def"), Err(LowererError::UnexpectedExpression.sbetween(0, 3)));
    assert_eq!(lower_str("quote"), Err(LowererError::UnexpectedExpression.sbetween(0, 5)));
}

#[test]
fn lower_first_error_wins() {
    assert_eq!(lower_str("(if) (fn)"), Err(LowererError::InvalidIf.sbetween(0, 4)));
    assert_eq!(lower_str("(f (def) (fn))"), Err(LowererError::InvalidDefine.sbetween(3, 8)));
}

#[test]
fn lower_call_on_string_head() {
    assert_eq!(lower_str(r#"("f" 1)"#), Err(LowererError::InvalidCall.sbetween(1, 4)));
}

#[test]
fn lower_tree_structure() {
    let tree = parse("(def f (fn (x) x)) (f 2)").unwrap();
    let lowered: ExpressionTree = lower(&tree).unwrap();
    let roots = lowered.roots();
    assert_eq!(roots.len(), 2);
    match &lowered.get(roots[0]).value {
        Expression::Define { name, value } => {
            assert_eq!(*name, "f");
            match &lowered.get(*value).value {
                Expression::Function { args, body } => {
                    assert_eq!(args, &vec!["x"]);
                    assert_eq!(body.len(), 1);
                    assert_eq!(lowered.get(body[0]).value, Expression::Symbol("x"));
                }
                other => panic!("expected a function, got {:?}", other),
            }
        }
        other => panic!("expected a definition, got {:?}", other),
    }
    assert_eq!(lowered.get(roots[1]).span, ().sbetween(19, 24).span);
}
