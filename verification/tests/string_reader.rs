use lib::frontend::event::{Event, ReadError, Reader, SReadError};
use lib::frontend::string_reader::StringReader;
use lib::span::SpannedExt;

/// An event with a floating-point literal read as a number.
#[derive(Debug, PartialEq)]
enum Ev {
    ListStart,
    ListEnd,
    Quote,
    Symbol(String),
    Integer(i64),
    Float(f64),
    String(String),
}

fn ev(event: Event) -> Ev {
    match event {
        Event::ListStart => Ev::ListStart,
        Event::ListEnd => Ev::ListEnd,
        Event::Quote => Ev::Quote,
        Event::Symbol(v) => Ev::Symbol(v),
        Event::Integer(v) => Ev::Integer(v),
        Event::Float(v) => Ev::Float(v.parse::<f64>().unwrap()),
        Event::String(v) => Ev::String(v),
        Event::SourceEnd => unreachable!(),
    }
}

fn read_str_to_event_vec(input: &str) -> Result<Vec<Ev>, SReadError> {
    let mut reader = StringReader::new(input);
    let mut events = vec![];
    loop {
        match reader.next() {
            Err(e) => return Err(e),
            Ok(event) if event.value == Event::SourceEnd => break,
            Ok(event) => events.push(ev(event.value)),
        }
    }
    Ok(events)
}

fn sym(s: &str) -> Ev {
    Ev::Symbol(s.to_string())
}

fn st(s: &str) -> Ev {
    Ev::String(s.to_string())
}

#[test]
fn string_reader_test_parens() {
    assert_eq!(
        read_str_to_event_vec(r#"('())"#),
        Ok(vec![Ev::ListStart, Ev::Quote, Ev::ListStart, Ev::ListEnd, Ev::ListEnd])
    );
}

#[test]
fn string_reader_test_symbol() {
    assert_eq!(
        read_str_to_event_vec(r#"+ - foo bar"#),
        Ok(vec![sym("+"), sym("-"), sym("foo"), sym("bar")])
    );
}

#[test]
fn string_reader_test_int() {
    assert_eq!(
        read_str_to_event_vec(r#"-42 42 +42"#),
        Ok(vec![Ev::Integer(-42), Ev::Integer(42), Ev::Integer(42)])
    );
}

#[test]
fn string_reader_test_int_zero() {
    assert_eq!(
        read_str_to_event_vec(r#"-0 0 +0"#),
        Ok(vec![Ev::Integer(0), Ev::Integer(0), Ev::Integer(0)])
    );
}

#[test]
fn string_reader_test_float() {
    assert_eq!(
        read_str_to_event_vec(r#"-42.0 42.0 +42.0"#),
        Ok(vec![Ev::Float(-42.0), Ev::Float(42.0), Ev::Float(42.0)])
    );
}

#[test]
fn string_reader_test_float_zero() {
    let events = read_str_to_event_vec(r#"-0.0 0.0 +0.0"#).unwrap();
    assert_eq!(events, vec![Ev::Float(-0.0), Ev::Float(0.0), Ev::Float(0.0)]);
    match events[0] {
        Ev::Float(v) => assert!(v.is_sign_negative()),
        _ => unreachable!(),
    }
}

#[test]
fn string_reader_test_string() {
    assert_eq!(read_str_to_event_vec(r#""Hello, world!""#), Ok(vec![st("Hello, world!")]));
}

#[test]
fn test_string_escaped_a() {
    assert_eq!(
        read_str_to_event_vec(r#""Hello, \"world\"!""#),
        Ok(vec![st("Hello, \"world\"!")])
    )
}

#[test]
fn test_string_escaped_b() {
    assert_eq!(read_str_to_event_vec(r#""Hello,\tworld!""#), Ok(vec![st("Hello,	world!")]))
}

#[test]
fn string_reader_test_parse_string_escaped_c() {
    assert_eq!(read_str_to_event_vec(r#""Hello, \\world!""#), Ok(vec![st("Hello, \\world!")]))
}

#[test]
fn test_unterminated_string() {
    assert_eq!(
        read_str_to_event_vec(r#""Hello, world!"#),
        Err(ReadError::UnterminatedString.sbetween(0, 14))
    );
}

#[test]
fn test_unexpected_escape_sequence() {
    assert_eq!(
        read_str_to_event_vec(r#""Hello, \world!"#),
        Err(ReadError::InvalidEscapeSequence.sbetween(8, 10))
    );
}

#[test]
fn string_reader_invalid_symbol() {
    assert_eq!(read_str_to_event_vec(r#"a \b c"#), Err(ReadError::InvalidSymbol.sbetween(2, 4)));
}

#[test]
fn string_reader_source_end_span() {
    let mut reader = StringReader::new("ab ");
    reader.next().unwrap();
    let end = reader.next().unwrap();
    assert_eq!(end.value, Event::SourceEnd);
    assert_eq!((end.span.start, end.span.end), (3, 4));
    assert_eq!(reader.peek().unwrap().value, Event::SourceEnd);
}

#[test]
fn string_reader_all_escapes() {
    assert_eq!(
        read_str_to_event_vec(r#""\n\r\t\0\\\"""#),
        Ok(vec![st("\n\r\t\0\\\"")])
    );
}

#[test]
fn string_reader_escape_at_end() {
    assert_eq!(
        read_str_to_event_vec("\"ab\\"),
        Err(ReadError::InvalidEscapeSequence.sbetween(3, 5))
    );
}

#[test]
fn string_reader_continues_after_error() {
    let mut reader = StringReader::new("\\x y");
    assert_eq!(reader.next(), Err(ReadError::InvalidSymbol.sbetween(0, 2)));
    assert_eq!(reader.next().unwrap().value, Event::Symbol("y".to_string()));
}

#[test]
fn string_reader_huge_float_is_float() {
    let big = format!("1{}", "0".repeat(309));
    let events = read_str_to_event_vec(&big).unwrap();
    assert_eq!(events, vec![Ev::Float(f64::INFINITY)]);
}

#[test]
fn source_end_keeps_coming() {
    let mut reader = StringReader::new("a ");
    assert_eq!(reader.next_event().map(|e| e.value), Ok(Event::Symbol("a".to_string())));
    let end = reader.next_event().unwrap();
    assert_eq!(end.value, Event::SourceEnd);
    assert_eq!((end.span.start, end.span.end), (2, 3));
    assert_eq!(reader.peek_event().cloned(), Ok(end.clone()));
    assert_eq!(reader.next_event(), Ok(end.clone()));
    assert_eq!(reader.next_event(), Ok(end));
}
