use crate::frontend::parser::{ParseError, SParseError};
use crate::span::{Spanned, SpannedExt};
use vstd::prelude::*;

verus! {

pub type SRuntimeError = Spanned<RuntimeError>;

/// Errors of evaluation.
#[derive(Debug, PartialEq)]
pub enum RuntimeError {
    Parse(Box<ParseError>),
    User(String),
    InvalidArgCount,
    InvalidArgType,
    AlreadyDefinedVariable,
    UndefinedVariable,
    NotCallable,
    UnexpectedMacro,
    IntegerOverflow,
    DivisionByZero,
    EmptyList,
}

impl From<SParseError> for SRuntimeError {
    fn from(error: SParseError) -> (r: Self) {
        RuntimeError::Parse(Box::new(error.value)).scopy(error.span)
    }
}

impl vstd::std_specs::convert::FromSpecImpl<SParseError> for SRuntimeError {
    open spec fn obeys_from_spec() -> bool {
        true
    }

    open spec fn from_spec(error: SParseError) -> Self {
        Spanned { value: RuntimeError::Parse(Box::new(error.value)), span: error.span }
    }
}

} // verus!
