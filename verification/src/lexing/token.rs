use crate::display::{int_text, push_i64};
use crate::span::Spanned;
use vstd::prelude::*;
use vstd::string::StringExecFns;

verus! {

pub type SToken<'s> = Spanned<Token<'s>>;

/// A token of the source text. Text-carrying tokens borrow the source;
/// a floating-point literal is kept as the text that denotes it.
#[derive(Debug, Clone, Copy, PartialEq)]
pub enum Token<'s> {
    End,
    ParenLeft,
    ParenRight,
    Quote,
    Symbol(&'s str),
    Integer(i64),
    Float(&'s str),
    String(&'s str),
}

/// The mathematical value of a token: text as a character sequence.
pub enum TokenV {
    End,
    ParenLeft,
    ParenRight,
    Quote,
    Symbol(Seq<char>),
    Integer(i64),
    Float(Seq<char>),
    String(Seq<char>),
}

impl<'s> Token<'s> {
    pub open spec fn view(self) -> TokenV {
        match self {
            Token::End => TokenV::End,
            Token::ParenLeft => TokenV::ParenLeft,
            Token::ParenRight => TokenV::ParenRight,
            Token::Quote => TokenV::Quote,
            Token::Symbol(s) => TokenV::Symbol(s@),
            Token::Integer(v) => TokenV::Integer(v),
            Token::Float(s) => TokenV::Float(s@),
            Token::String(s) => TokenV::String(s@),
        }
    }
}

/// How a token is shown: its kind, then its value in brackets, texts
/// quoted. A floating-point literal shows its text.
pub open spec fn token_text(t: TokenV) -> Seq<char> {
    match t {
        TokenV::End => "End"@,
        TokenV::ParenLeft => "ParenLeft"@,
        TokenV::ParenRight => "ParenRight"@,
        TokenV::Quote => "Quote"@,
        TokenV::Symbol(v) => "Symbol(\""@ + v + "\")"@,
        TokenV::Integer(v) => "Integer("@ + int_text(v as int) + ")"@,
        TokenV::Float(v) => "Float("@ + v + ")"@,
        TokenV::String(v) => "String(\""@ + v + "\")"@,
    }
}

impl<'s> Token<'s> {
    /// How the token is shown.
    pub fn to_debug_string(&self) -> (r: String)
        ensures
            r@ == token_text(self@),
    {
        let mut out = String::new();
        match self {
            Token::End => out.append("End"),
            Token::ParenLeft => out.append("ParenLeft"),
            Token::ParenRight => out.append("ParenRight"),
            Token::Quote => out.append("Quote"),
            Token::Symbol(v) => {
                out.append("Symbol(\"");
                out.append(v);
                out.append("\")");
            },
            Token::Integer(v) => {
                out.append("Integer(");
                push_i64(&mut out, *v);
                out.append(")");
            },
            Token::Float(v) => {
                out.append("Float(");
                out.append(v);
                out.append(")");
            },
            Token::String(v) => {
                out.append("String(\"");
                out.append(v);
                out.append("\")");
            },
        }
        assert(out@ =~= token_text(self@));
        out
    }
}

/// A spanned token, viewed.
pub open spec fn stoken_view(t: SToken) -> Spanned<TokenV> {
    Spanned { value: t.value@, span: t.span }
}

} // verus!
