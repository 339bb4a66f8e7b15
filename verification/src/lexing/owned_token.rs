use crate::lexing::token::{SToken, Token, TokenV};
use crate::span::{Spanned, SpannedExt};
use vstd::prelude::*;

verus! {

pub type SOwnedToken = Spanned<OwnedToken>;

/// A token that owns its text, so that it can outlive the source. A
/// floating-point literal is kept as the text that denotes it.
#[derive(Debug, Clone, PartialEq)]
pub enum OwnedToken {
    End,
    ParenLeft,
    ParenRight,
    Quote,
    Symbol(String),
    Integer(i64),
    Float(String),
    String(String),
}

impl OwnedToken {
    pub open spec fn view(&self) -> TokenV {
        match self {
            OwnedToken::End => TokenV::End,
            OwnedToken::ParenLeft => TokenV::ParenLeft,
            OwnedToken::ParenRight => TokenV::ParenRight,
            OwnedToken::Quote => TokenV::Quote,
            OwnedToken::Symbol(s) => TokenV::Symbol(s@),
            OwnedToken::Integer(v) => TokenV::Integer(*v),
            OwnedToken::Float(s) => TokenV::Float(s@),
            OwnedToken::String(s) => TokenV::String(s@),
        }
    }
}

impl<'s> SToken<'s> {
    /// The same token, owning its text.
    pub fn to_owned_token(&self) -> (r: SOwnedToken)
        ensures
            r.value@ == self.value@,
            r.span == self.span,
    {
        match self.value {
            Token::End => OwnedToken::End,
            Token::ParenLeft => OwnedToken::ParenLeft,
            Token::ParenRight => OwnedToken::ParenRight,
            Token::Quote => OwnedToken::Quote,
            Token::Symbol(value) => OwnedToken::Symbol(value.to_string()),
            Token::Integer(value) => OwnedToken::Integer(value),
            Token::Float(value) => OwnedToken::Float(value.to_string()),
            Token::String(value) => OwnedToken::String(value.to_string()),
        }.scopy(self.span)
    }
}

} // verus!
