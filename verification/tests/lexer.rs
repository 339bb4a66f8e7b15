use lib::lexing::lexer::{Lexer, LexerError, SLexerError};
use lib::lexing::owned_token::OwnedToken;
use lib::lexing::token::{SToken, Token};
use lib::span::SpannedExt;

fn lex_str_to_vec(source: &str) -> Result<Vec<SToken<'_>>, SLexerError> {
    let mut lexer = Lexer::new(source);
    let mut tokens = vec![];
    loop {
        match lexer.next() {
            Ok(token) if token.value == Token::End => break,
            Ok(token) => tokens.push(token),
            Err(err) => return Err(err),
        }
    }
    Ok(tokens)
}

fn format_token(token: &Token) -> String {
    match token {
        Token::Float(v) => format!("Float({:?})", v.parse::<f64>().unwrap()),
        _ => token.to_debug_string(),
    }
}

fn format_vec_to_string(tokens: &[SToken]) -> String {
    tokens
        .iter()
        .map(|token| format_token(&token.value))
        .collect::<Vec<String>>()
        .join(", ")
        .trim()
        .to_string()
}

#[test]
fn lexer_test_parens() {
    assert_eq!(
        format_vec_to_string(&lex_str_to_vec(r#"('())"#).unwrap()),
        r#"ParenLeft, Quote, ParenLeft, ParenRight, ParenRight"#,
    );
}

#[test]
fn lexer_test_symbol() {
    assert_eq!(
        format_vec_to_string(&lex_str_to_vec(r#"+ - foo bar"#).unwrap()),
        r#"Symbol("+"), Symbol("-"), Symbol("foo"), Symbol("bar")"#
    );
}

#[test]
fn lexer_test_int() {
    assert_eq!(
        format_vec_to_string(&lex_str_to_vec(r#"-42 42 +42"#).unwrap()),
        r#"Integer(-42), Integer(42), Integer(42)"#
    );
}

#[test]
fn lexer_test_int_zero() {
    assert_eq!(
        format_vec_to_string(&lex_str_to_vec(r#"-0 0 +0"#).unwrap()),
        r#"Integer(0), Integer(0), Integer(0)"#
    );
}

#[test]
fn lexer_test_float() {
    assert_eq!(
        format_vec_to_string(&lex_str_to_vec(r#"-42.0 42.0 +42.0"#).unwrap()),
        r#"Float(-42.0), Float(42.0), Float(42.0)"#
    );
}

#[test]
fn lexer_test_float_zero() {
    assert_eq!(
        format_vec_to_string(&lex_str_to_vec(r#"-0.0 0.0 +0.0"#).unwrap()),
        r#"Float(-0.0), Float(0.0), Float(0.0)"#
    );
}

#[test]
fn lexer_test_string() {
    assert_eq!(
        format_vec_to_string(&lex_str_to_vec(r#""Hello, world!""#).unwrap()),
        r#"String("Hello, world!")"#
    );
}

#[test]
fn test_string_escape() {
    assert_eq!(
        format_vec_to_string(&lex_str_to_vec(r#""Hello, \"world\"!""#).unwrap()),
        r#"String("Hello, \"world\"!")"#
    );
}

#[test]
fn test_string_unterminated() {
    assert_eq!(
        lex_str_to_vec(r#""Hello, world!"#),
        Err(LexerError::UnterminatedString.sbetween(0, 14))
    );
}

#[test]
fn lexer_spans_are_byte_offsets() {
    let tokens = lex_str_to_vec("é (x)").unwrap();
    assert_eq!(tokens[0].value, Token::Symbol("é"));
    assert_eq!((tokens[0].span.start, tokens[0].span.end), (0, 2));
    assert_eq!((tokens[1].span.start, tokens[1].span.end), (3, 4));
    assert_eq!((tokens[2].span.start, tokens[2].span.end), (4, 5));
}

#[test]
fn lexer_end_takes_last_span() {
    let mut lexer = Lexer::new("(a)");
    for _ in 0..3 {
        lexer.next().unwrap();
    }
    let end = lexer.next().unwrap();
    assert_eq!(end.value, Token::End);
    assert_eq!((end.span.start, end.span.end), (2, 3));
    assert_eq!(lexer.peek(), Ok(end));
}

#[test]
fn lexer_empty_source() {
    let mut lexer = Lexer::new("   ");
    let end = lexer.next().unwrap();
    assert_eq!(end.value, Token::End);
    assert_eq!((end.span.start, end.span.end), (0, 1));
}

#[test]
fn lexer_error_repeats_at_end() {
    let mut lexer = Lexer::new("\"abc");
    let err = Err(LexerError::UnterminatedString.sbetween(0, 4));
    assert_eq!(lexer.next(), err);
    assert_eq!(lexer.next(), err);
}

#[test]
fn lexer_integer_overflow_becomes_float() {
    let tokens = lex_str_to_vec("9223372036854775807 9223372036854775808 -9223372036854775808").unwrap();
    assert_eq!(tokens[0].value, Token::Integer(i64::MAX));
    assert_eq!(tokens[1].value, Token::Float("9223372036854775808"));
    assert_eq!(tokens[2].value, Token::Integer(i64::MIN));
}

#[test]
fn lexer_number_like_symbols() {
    let tokens = lex_str_to_vec("+ - . 1.2.3 1. .5 -.5 1-2").unwrap();
    assert_eq!(tokens[0].value, Token::Symbol("+"));
    assert_eq!(tokens[1].value, Token::Symbol("-"));
    assert_eq!(tokens[2].value, Token::Symbol("."));
    assert_eq!(tokens[3].value, Token::Symbol("1.2.3"));
    assert_eq!(tokens[4].value, Token::Float("1."));
    assert_eq!(tokens[5].value, Token::Float(".5"));
    assert_eq!(tokens[6].value, Token::Float("-.5"));
    assert_eq!(tokens[7].value, Token::Symbol("1-2"));
}

#[test]
fn lexer_infinite_float_is_symbol() {
    let big = format!("1{}", "0".repeat(309));
    let below = "179769313486231580793728971405303415079934132710037826936173778980444968292764750946649017977587207096330286416692887910946555547851940402630657488671505820681908902000708383676273854845817711531764475730270069855571366959622842914819860834936475292719074168444365510704342711559699508093042880177904174497791".to_string();
    let source = format!("{} {}", big, below);
    let tokens = lex_str_to_vec(&source).unwrap();
    assert_eq!(tokens[0].value, Token::Symbol(big.as_str()));
    assert_eq!(tokens[1].value, Token::Float(below.as_str()));
    assert!(below.parse::<f64>().unwrap().is_finite());
    assert!(!big.parse::<f64>().unwrap().is_finite());
}

#[test]
fn token_debug_strings() {
    assert_eq!(Token::End.to_debug_string(), "End");
    assert_eq!(Token::Symbol("foo").to_debug_string(), r#"Symbol("foo")"#);
    assert_eq!(Token::Integer(-7).to_debug_string(), "Integer(-7)");
    assert_eq!(Token::Integer(i64::MIN).to_debug_string(), "Integer(-9223372036854775808)");
    assert_eq!(Token::Float("1.50").to_debug_string(), "Float(1.50)");
    assert_eq!(Token::String("a b").to_debug_string(), r#"String("a b")"#);
}

#[test]
fn owned_tokens_keep_text_and_span() {
    let tokens = lex_str_to_vec(r#"(foo "bar" 1.5 7)"#).unwrap();
    let owned: Vec<_> = tokens.iter().map(|t| t.to_owned_token()).collect();
    assert_eq!(owned[0].value, OwnedToken::ParenLeft);
    assert_eq!(owned[1].value, OwnedToken::Symbol("foo".to_string()));
    assert_eq!(owned[2].value, OwnedToken::String("bar".to_string()));
    assert_eq!(owned[3].value, OwnedToken::Float("1.5".to_string()));
    assert_eq!(owned[4].value, OwnedToken::Integer(7));
    assert_eq!(owned[5].value, OwnedToken::ParenRight);
    for (t, o) in tokens.iter().zip(owned.iter()) {
        assert_eq!(t.span, o.span);
    }
}
