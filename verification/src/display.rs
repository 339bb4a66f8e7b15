use crate::symbol::{SymbolId, SymbolTable, SymbolTableExt};
use crate::text::push_char;
use vstd::prelude::*;
use vstd::string::{StrSliceExecFns, StringExecFns};

verus! {

/// A value together with what its display needs: the names of symbols and
/// the indentation.
pub struct WithDisplayContext<'a, T> {
    pub value: &'a T,
    pub symbol_table: Option<&'a SymbolTable>,
    pub indent_size: Option<usize>,
    pub indent: usize,
}

/// The width of the indentation: levels times the size of one level.
pub open spec fn indent_width(indent: usize, indent_size: Option<usize>) -> int {
    indent * match indent_size {
        Some(n) => n as int,
        None => 0int,
    }
}

/// `n` spaces.
pub open spec fn spaces(n: int) -> Seq<char> {
    Seq::new(n as nat, |i: int| ' ')
}

/// `n` spaces as a string.
pub fn repeat_space(n: usize) -> (r: String)
    ensures
        r@ == spaces(n as int),
{
    let mut r = String::new();
    let mut i: usize = 0;
    while i < n
        invariant
            0 <= i <= n,
            r@ == spaces(i as int),
        decreases n - i,
    {
        push_char(&mut r, ' ');
        i = i + 1;
        assert(r@ =~= spaces(i as int));
    }
    r
}

pub open spec fn hex_char(d: nat) -> char {
    if d < 10 {
        ('0' as u32 + d) as char
    } else {
        ('a' as u32 + d - 10) as char
    }
}

/// The lower-case hexadecimal digits of `n`, without leading zeros.
pub open spec fn hex_digits(n: nat) -> Seq<char>
    decreases n,
{
    if n < 16 {
        seq![hex_char(n)]
    } else {
        hex_digits(n / 16).push(hex_char(n % 16))
    }
}

/// `n` in lower-case hexadecimal, padded with zeros to eight digits: what
/// `format!("{:08x}", n)` gives.
pub open spec fn hex08(n: nat) -> Seq<char> {
    let d = hex_digits(n);
    if d.len() < 8 {
        Seq::new((8 - d.len()) as nat, |i: int| '0') + d
    } else {
        d
    }
}

fn hex_char_exec(d: usize) -> (r: char)
    requires
        d < 16,
    ensures
        r == hex_char(d as nat),
{
    if d < 10 {
        let u = '0' as u32 + d as u32;
        proof {
            assert(0x30 <= u <= 0x39);
        }
        char_from(u)
    } else {
        let u = 'a' as u32 + d as u32 - 10;
        proof {
            assert(0x61 <= u <= 0x66);
        }
        char_from(u)
    }
}

/// The character with code point `u`, an ASCII code.
fn char_from(u: u32) -> (r: char)
    requires
        u < 0x80,
    ensures
        r == u as char,
{
    (u as u8) as char
}

/// `format!("{:08x}", n)`.
pub fn format_hex08(n: usize) -> (r: String)
    ensures
        r@ == hex08(n as nat),
{
    let mut digits: Vec<char> = Vec::new();
    let mut x = n;
    if x == 0 {
        digits.push('0');
    }
    while x > 0
        invariant
            n == 0 ==> digits@ == seq!['0'] && x == 0,
            n > 0 ==> (x > 0 ==> hex_digits(n as nat) == hex_digits(x as nat) + digits@),
            n > 0 ==> (x == 0 ==> hex_digits(n as nat) == digits@),
        decreases x,
    {
        let d = x % 16;
        let c = hex_char_exec(d);
        proof {
            if x >= 16 {
                assert(hex_digits(x as nat) == hex_digits((x / 16) as nat).push(hex_char(
                    (x % 16) as nat,
                )));
                assert(hex_digits((x / 16) as nat) + (seq![c] + digits@) =~= hex_digits(
                    (x / 16) as nat,
                ).push(c) + digits@);
            } else {
                assert(hex_digits(x as nat) == seq![c]);
                assert(seq![c] + digits@ =~= hex_digits(x as nat) + digits@);
            }
        }
        digits.insert(0, c);
        x = x / 16;
    }
    proof {
        if n == 0 {
            assert(hex_digits(0) == seq!['0']);
        }
    }
    let mut r = String::new();
    if digits.len() < 8 {
        let pad = 8 - digits.len();
        let mut i: usize = 0;
        while i < pad
            invariant
                0 <= i <= pad,
                r@ == Seq::new(i as nat, |k: int| '0'),
            decreases pad - i,
        {
            push_char(&mut r, '0');
            i = i + 1;
            assert(r@ =~= Seq::new(i as nat, |k: int| '0'));
        }
    }
    let ghost prefix = r@;
    let mut j: usize = 0;
    while j < digits.len()
        invariant
            0 <= j <= digits.len(),
            r@ == prefix + digits@.take(j as int),
        decreases digits.len() - j,
    {
        push_char(&mut r, digits[j]);
        j = j + 1;
        assert(r@ =~= prefix + digits@.take(j as int));
    }
    proof {
        assert(digits@.take(digits@.len() as int) =~= digits@);
        if digits@.len() >= 8 {
            assert(prefix =~= Seq::<char>::empty());
            assert(r@ =~= digits@);
        }
    }
    r
}

/// The decimal digit `d`.
pub open spec fn dec_char(d: nat) -> char {
    ('0' as u32 + d) as char
}

/// The decimal digits of `n`, without leading zeros.
pub open spec fn dec_digits(n: nat) -> Seq<char>
    decreases n,
{
    if n < 10 {
        seq![dec_char(n)]
    } else {
        dec_digits(n / 10).push(dec_char(n % 10))
    }
}

/// `v` in decimal, with a `-` in front when it is negative: what
/// `format!("{}", v)` gives.
pub open spec fn int_text(v: int) -> Seq<char> {
    if v < 0 {
        seq!['-'] + dec_digits((-v) as nat)
    } else {
        dec_digits(v as nat)
    }
}

fn dec_char_exec(d: u64) -> (r: char)
    requires
        d < 10,
    ensures
        r == dec_char(d as nat),
{
    let u = '0' as u32 + d as u32;
    proof {
        assert(0x30 <= u <= 0x39);
    }
    char_from(u)
}

/// Appends the decimal digits of `n` to `out`.
fn push_dec_digits(out: &mut String, n: u64)
    ensures
        final(out)@ == old(out)@ + dec_digits(n as nat),
{
    let mut digits: Vec<char> = Vec::new();
    let mut x = n;
    if x == 0 {
        digits.push('0');
    }
    while x > 0
        invariant
            n == 0 ==> digits@ == seq!['0'] && x == 0,
            n > 0 ==> (x > 0 ==> dec_digits(n as nat) == dec_digits(x as nat) + digits@),
            n > 0 ==> (x == 0 ==> dec_digits(n as nat) == digits@),
        decreases x,
    {
        let c = dec_char_exec(x % 10);
        proof {
            if x >= 10 {
                assert(dec_digits(x as nat) == dec_digits((x / 10) as nat).push(dec_char(
                    (x % 10) as nat,
                )));
                assert(dec_digits((x / 10) as nat) + (seq![c] + digits@) =~= dec_digits(
                    (x / 10) as nat,
                ).push(c) + digits@);
            } else {
                assert(dec_digits(x as nat) == seq![c]);
                assert(seq![c] + digits@ =~= dec_digits(x as nat) + digits@);
            }
        }
        digits.insert(0, c);
        x = x / 10;
    }
    proof {
        if n == 0 {
            assert(dec_digits(0) == seq!['0']);
        }
    }
    let ghost prefix = out@;
    let mut j: usize = 0;
    while j < digits.len()
        invariant
            0 <= j <= digits.len(),
            out@ == prefix + digits@.take(j as int),
        decreases digits.len() - j,
    {
        push_char(out, digits[j]);
        j = j + 1;
        assert(out@ =~= prefix + digits@.take(j as int));
    }
    assert(digits@.take(digits@.len() as int) =~= digits@);
}

/// The digits `s` with zeros in front, up to `width` characters: what
/// `{:0width$}` gives for a number with the digits `s`.
pub open spec fn zero_padded(s: Seq<char>, width: int) -> Seq<char> {
    if s.len() < width {
        Seq::new((width - s.len()) as nat, |i: int| '0') + s
    } else {
        s
    }
}

/// Appends `n` in decimal, with zeros in front up to `width` digits.
pub fn push_zero_padded(out: &mut String, n: usize, width: usize)
    ensures
        final(out)@ == old(out)@ + zero_padded(dec_digits(n as nat), width as int),
{
    let mut digits = String::new();
    push_dec_digits(&mut digits, n as u64);
    assert(digits@ =~= dec_digits(n as nat));
    let len = digits.as_str().unicode_len();
    let ghost prefix = out@;
    if len < width {
        let mut i: usize = 0;
        while i < width - len
            invariant
                len < width,
                0 <= i <= width - len,
                out@ == prefix + Seq::new(i as nat, |k: int| '0'),
            decreases width - len - i,
        {
            push_char(out, '0');
            i = i + 1;
            assert(out@ =~= prefix + Seq::new(i as nat, |k: int| '0'));
        }
    }
    let ghost mid = out@;
    out.append(digits.as_str());
    assert(out@ =~= prefix + zero_padded(dec_digits(n as nat), width as int));
}

/// Appends `v` in decimal to `out`.
pub fn push_i64(out: &mut String, v: i64)
    ensures
        final(out)@ == old(out)@ + int_text(v as int),
{
    if v < 0 {
        push_char(out, '-');
        let m: u64 = (0i128 - v as i128) as u64;
        let ghost mid = out@;
        push_dec_digits(out, m);
        assert(out@ =~= old(out)@ + (seq!['-'] + dec_digits(m as nat)));
    } else {
        push_dec_digits(out, v as u64);
    }
}

/// `format!("{}", v)`.
pub fn format_i64(v: i64) -> (r: String)
    ensures
        r@ == int_text(v as int),
{
    let mut r = String::new();
    push_i64(&mut r, v);
    assert(r@ =~= int_text(v as int));
    r
}

impl<'a, T> WithDisplayContext<'a, T> {
    pub fn new(value: &'a T, symbol_table: Option<&'a SymbolTable>) -> (r: Self)
        ensures
            r.value == value,
            r.symbol_table == symbol_table,
            r.indent_size is None,
            r.indent == 0,
    {
        Self { value, symbol_table, indent_size: None, indent: 0 }
    }

    pub fn set_indent(self, indent_size: usize) -> (r: Self)
        ensures
            r.value == self.value,
            r.symbol_table == self.symbol_table,
            r.indent_size == Some(indent_size),
            r.indent == self.indent,
    {
        Self { indent_size: Some(indent_size), ..self }
    }

    /// One level deeper.
    pub fn indent(self) -> (r: Self)
        requires
            self.indent < usize::MAX,
        ensures
            r.value == self.value,
            r.symbol_table == self.symbol_table,
            r.indent_size == self.indent_size,
            r.indent == self.indent + 1,
    {
        Self { indent: self.indent + 1, ..self }
    }

    pub fn no_indent(self) -> (r: Self)
        ensures
            r.value == self.value,
            r.symbol_table == self.symbol_table,
            r.indent_size is None,
            r.indent == self.indent,
    {
        Self { indent_size: None, ..self }
    }

    /// The spaces that start a line at this depth.
    pub fn make_indent(&self) -> (r: String)
        requires
            indent_width(self.indent, self.indent_size) <= usize::MAX,
        ensures
            r@ == spaces(indent_width(self.indent, self.indent_size)),
    {
        let size = match self.indent_size {
            Some(n) => n,
            None => 0,
        };
        repeat_space(self.indent * size)
    }
}

impl<'a> WithDisplayContext<'a, SymbolId> {
    /// The text of a symbol: its name (or, with no known name, its id in
    /// hexadecimal) in double quotes, after the indentation.
    pub fn to_display_string(&self) -> (r: String)
        requires
            indent_width(self.indent, self.indent_size) <= usize::MAX,
        ensures
            r@ == spaces(indent_width(self.indent, self.indent_size)) + seq!['"'] + symbol_text(
                self.symbol_table,
                *self.value,
            ) + seq!['"'],
    {
        let mut r = self.make_indent();
        push_char(&mut r, '"');
        let ghost prefix = r@;
        let name = match self.symbol_table.get_symbol(self.value) {
            Some(s) => s.to_owned(),
            None => format_hex08(self.value.0),
        };
        let chars = crate::text::chars_of(name.as_str());
        let mut i: usize = 0;
        while i < chars.len()
            invariant
                0 <= i <= chars.len(),
                r@ == prefix + chars@.take(i as int),
            decreases chars.len() - i,
        {
            push_char(&mut r, chars[i]);
            i = i + 1;
            assert(r@ =~= prefix + chars@.take(i as int));
        }
        push_char(&mut r, '"');
        proof {
            assert(chars@.take(chars@.len() as int) =~= chars@);
        }
        r
    }
}

/// What a symbol shows as: its name, or its id in hexadecimal when no table
/// names it.
pub open spec fn symbol_text(table: Option<&SymbolTable>, id: SymbolId) -> Seq<char> {
    match table {
        Some(t) => if id.0 < t.names().len() {
            t.names()[id.0 as int]
        } else {
            hex08(id.0 as nat)
        },
        None => hex08(id.0 as nat),
    }
}

/// Putting a value in a display context.
pub trait WithDisplayContextExt<T> {
    fn with_symbols<'a>(&'a self, symbol_table: &'a SymbolTable) -> (r: WithDisplayContext<'a, T>)
        ensures
            r.symbol_table == Some(symbol_table),
            r.indent_size is None,
            r.indent == 0,
    ;

    fn without_symbols(&self) -> (r: WithDisplayContext<'_, T>)
        ensures
            r.symbol_table is None,
            r.indent_size is None,
            r.indent == 0,
    ;

    /// This value in the context of `other`: same symbols and indentation.
    fn context<'a, U>(&'a self, other: &WithDisplayContext<'a, U>) -> (r: WithDisplayContext<'a, T>)
        ensures
            r.symbol_table == other.symbol_table,
            r.indent_size == other.indent_size,
            r.indent == other.indent,
    {
        let mut context = match other.symbol_table {
            Some(symbol_table) => self.with_symbols(symbol_table),
            None => self.without_symbols(),
        };
        context.indent_size = other.indent_size;
        context.indent = other.indent;
        context
    }
}

impl<T> WithDisplayContextExt<T> for T {
    fn with_symbols<'a>(&'a self, symbol_table: &'a SymbolTable) -> (r: WithDisplayContext<'a, T>)
        ensures
            r.value == self,
    {
        WithDisplayContext::new(self, Some(symbol_table))
    }

    fn without_symbols(&self) -> (r: WithDisplayContext<'_, T>)
        ensures
            r.value == self,
    {
        WithDisplayContext::new(self, None)
    }
}

} // verus!
