use lib::display::{format_hex08, format_i64, WithDisplayContextExt};
use lib::expression::SymbolTable as ExpressionSymbols;
use lib::parsing::syntax::{StringStore, SymbolStore};
use lib::runtime::session::Session;
use lib::symbol::{SymbolId, SymbolTable};
use lib::util::{Arena, ArenaId};

#[test]
fn session_gives_back_pushed_strings() {
    let mut sesh = Session::new();
    let a = sesh.push_string("héllo");
    let b = sesh.push_string("");
    let c = sesh.push_string("wörld!");
    assert_eq!(sesh.get_string(a), "héllo");
    assert_eq!(sesh.get_string(b), "");
    assert_eq!(sesh.get_string(c), "wörld!");
}

#[test]
fn session_symbols_are_interned() {
    let mut sesh = Session::new();
    let x = sesh.push_symbol("x");
    let y = sesh.push_symbol("y");
    let x2 = sesh.push_symbol("x");
    assert_eq!(x, x2);
    assert_ne!(x, y);
    assert_eq!(sesh.get_symbol(x), "x");
    assert_eq!(sesh.get_symbol(y), "y");
}

#[test]
fn session_params_are_kept_in_order() {
    let mut sesh = Session::new();
    let a = sesh.push_symbol("a");
    let b = sesh.push_symbol("b");
    let start = sesh.get_n_params();
    sesh.push_param(a);
    sesh.push_param(b);
    let range = lib::runtime::session::ParamRange::new(start, sesh.get_n_params());
    assert_eq!(range.len(), 2);
    assert_eq!(sesh.get_params(range), &[a, b]);
}

#[test]
fn expression_symbol_table_interns() {
    let mut t = ExpressionSymbols::new();
    let a = t.push("a");
    let b = t.push("b");
    assert_eq!(t.push("a"), a);
    assert_eq!(t.get(a), "a");
    assert_eq!(t.get(b), "b");
}

#[test]
fn symbol_store_interns() {
    let mut t = SymbolStore::new();
    let a = t.push("quote");
    let b = t.push("x");
    assert_eq!(t.push("quote"), a);
    assert_ne!(a, b);
    assert_eq!(t.get(b), "x");
}

#[test]
fn string_store_keeps_each_text() {
    let mut t = StringStore::new();
    let a = t.push("one".to_string());
    let b = t.push("one".to_string());
    assert_ne!(a, b);
    assert_eq!(t.get(a), "one");
    assert_eq!(t.get(b), "one");
}

#[test]
fn symbol_table_add_and_get() {
    let mut t = SymbolTable::new();
    let a = t.add_symbol("alpha");
    let b = t.add_symbol("beta");
    assert_eq!(t.add_symbol("alpha"), a);
    assert_eq!(a, SymbolId(0));
    assert_eq!(b, SymbolId(1));
    assert_eq!(t.get_symbol(&b), Some("beta"));
    assert_eq!(t.get_symbol(&SymbolId(7)), None);
}

#[test]
fn arena_gives_back_values_and_children() {
    let mut arena: Arena<u64> = Arena::new();
    let a = arena.push(10);
    let b = arena.push(20);
    let range = arena.push_children(&[b, a]);
    let c = arena.push(30);
    assert_eq!(*arena.get(a), 10);
    assert_eq!(*arena.get(b), 20);
    assert_eq!(*arena.get(c), 30);
    assert_eq!(arena.get_children(range), &[b, a]);
    assert_eq!(a, ArenaId::new(0));
}

#[test]
fn decimal_and_hexadecimal_text() {
    assert_eq!(format_i64(0), "0");
    assert_eq!(format_i64(-42), "-42");
    assert_eq!(format_i64(i64::MAX), "9223372036854775807");
    assert_eq!(format_i64(i64::MIN), "-9223372036854775808");
    assert_eq!(format_hex08(0), "00000000");
    assert_eq!(format_hex08(0xbeef), "0000beef");
    assert_eq!(format_hex08(0x1_2345_6789), "123456789");
}

#[test]
fn symbol_display_uses_names_or_ids() {
    let mut t = SymbolTable::new();
    let a = t.add_symbol("alpha");
    assert_eq!(a.with_symbols(&t).to_display_string(), "\"alpha\"");
    assert_eq!(SymbolId(26).with_symbols(&t).to_display_string(), "\"0000001a\"");
    assert_eq!(a.without_symbols().to_display_string(), "\"00000000\"");
    assert_eq!(a.with_symbols(&t).set_indent(2).indent().to_display_string(), "  \"alpha\"");
}

#[test]
fn spans_show_zero_padded_offsets() {
    assert_eq!(lib::span::Span::new(0, 1).to_display_string(), "000000..000001");
    assert_eq!(lib::span::Span::new(42, 1234567).to_display_string(), "000042..1234567");
    assert_eq!(format!("{:06}..{:06}", 42, 1234567), "000042..1234567");
}

#[test]
fn store_ids_stay_with_their_names() {
    let mut store = SymbolStore::new();
    let x = store.push("x");
    let y = store.push("y");
    for n in ["z", "w", "x", "v"] {
        store.push(n);
    }
    assert_eq!(store.get(x), "x");
    assert_eq!(store.get(y), "y");
    assert_ne!(x, y);
    assert_eq!(store.push("x"), x);
    let mut table = ExpressionSymbols::new();
    let a = table.push("a");
    let fresh = table.push_fresh("a");
    let b = table.push("b");
    table.push("c");
    assert_eq!(table.get(a), "a");
    assert_eq!(table.get(b), "b");
    assert_eq!(table.get(fresh), "a");
    assert_ne!(a, fresh);
    assert_eq!(table.push("a"), a);
}
