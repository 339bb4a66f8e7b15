use lib::lexing::lexer::{Lexer, LexerError};
use lib::parsing::parser::{Parser, ParserError, SParserError};
use lib::parsing::syntax::{Syntax, SyntaxTree};
use lib::span::SpannedExt;

fn parse_str(source: &str) -> Result<SyntaxTree, SParserError> {
    let mut lexer = Lexer::new(source);
    Parser::new().parse(&mut lexer)
}

fn format_syntax_to_string(tree: &SyntaxTree) -> String {
    tree.to_debug_string().trim().to_string()
}

#[test]
fn test_parse_list_nested() {
    assert_eq!(
        format_syntax_to_string(&parse_str(r#"(+ 1 (* 2 3))"#).unwrap()),
        r#"List(Symbol("+"), Integer(1), List(Symbol("*"), Integer(2), Integer(3)))"#
    )
}

#[test]
fn test_parse_list_quote_a() {
    assert_eq!(
        format_syntax_to_string(&parse_str(r#"'(1 2)"#).unwrap()),
        r#"List(Symbol("quote"), List(Integer(1), Integer(2)))"#
    )
}

#[test]
fn test_parse_symbol() {
    assert_eq!(format_syntax_to_string(&parse_str(r#"foo"#).unwrap()), r#"Symbol("foo")"#)
}

#[test]
fn test_parse_string() {
    assert_eq!(
        format_syntax_to_string(&parse_str(r#""Hello, world!""#).unwrap()),
        r#"String("Hello, world!")"#
    )
}

#[test]
fn test_parse_string_escaped_a() {
    assert_eq!(
        format_syntax_to_string(&parse_str(r#""Hello, \"world\"!""#).unwrap()),
        r#"String("Hello, "world"!")"#
    )
}

#[test]
fn test_parse_string_escaped_b() {
    assert_eq!(
        format_syntax_to_string(&parse_str(r#""Hello,\tworld!""#).unwrap()),
        r#"String("Hello,	world!")"#
    )
}

#[test]
fn parser_test_parse_string_escaped_c() {
    assert_eq!(
        format_syntax_to_string(&parse_str(r#""Hello, \\world!""#).unwrap()),
        r#"String("Hello, \world!")"#
    )
}

#[test]
fn test_lexer_error() {
    assert_eq!(
        parse_str(r#""Hello, world!"#),
        Err(LexerError::UnterminatedString.sbetween(0, 14).into())
    );
}

#[test]
fn test_parse_missing_right_paren() {
    assert_eq!(parse_str(r#"()(()"#), Err(ParserError::MissingRightParen.sbetween(2, 5)))
}

#[test]
fn test_parse_unexpected_right_paren() {
    assert_eq!(parse_str(r#"()(()))"#), Err(ParserError::UnexpectedRightParen.sbetween(6, 7)))
}

#[test]
fn test_parse_nothing_to_quote() {
    assert_eq!(parse_str(r#"'()'"#), Err(ParserError::NothingToQuote.sbetween(3, 4)))
}

#[test]
fn test_parse_unexpected_escape() {
    assert_eq!(
        parse_str(r#""Hello, \x world!""#),
        Err(ParserError::UnexpectedEscape.sbetween(0, 18))
    )
}

#[test]
fn parse_several_roots_and_spans() {
    let tree = parse_str("a (b 2.5) \"s\"").unwrap();
    assert_eq!(
        format_syntax_to_string(&tree),
        "Symbol(\"a\")\nList(Symbol(\"b\"), Float(2.5))\nString(\"s\")"
    );
    let roots = tree.syntaxes.children(tree.roots);
    let list = tree.syntaxes.get(roots[1]);
    assert_eq!((list.span.start, list.span.end), (2, 9));
}

#[test]
fn parse_symbols_are_interned() {
    let tree = parse_str("(x x quote)").unwrap();
    let roots = tree.syntaxes.children(tree.roots);
    let items = match tree.syntaxes.get(roots[0]).value {
        Syntax::List(r) => tree.syntaxes.children(r).to_vec(),
        _ => unreachable!(),
    };
    let ids: Vec<_> = items
        .iter()
        .map(|i| match tree.syntaxes.get(*i).value {
            Syntax::Symbol(s) => s,
            _ => unreachable!(),
        })
        .collect();
    assert_eq!(ids[0], ids[1]);
    assert_ne!(ids[0], ids[2]);
    assert_eq!(tree.symbols.get(ids[2]), "quote");
}

#[test]
fn parse_empty_source() {
    let tree = parse_str("  ").unwrap();
    assert_eq!(format_syntax_to_string(&tree), "");
}

#[test]
fn parse_quote_of_quote() {
    assert_eq!(
        format_syntax_to_string(&parse_str("''x").unwrap()),
        "List(Symbol(\"quote\"), List(Symbol(\"quote\"), Symbol(\"x\")))"
    );
}

#[test]
fn debug_string_shows_each_root_on_a_line() {
    let tree = parse_str(r#"1 2.5 "s" (a)"#).unwrap();
    assert_eq!(
        tree.to_debug_string(),
        "Integer(1)\nFloat(2.5)\nString(\"s\")\nList(Symbol(\"a\"))\n"
    );
}
