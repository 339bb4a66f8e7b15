pub mod span;
pub mod text;
pub mod lexing;
pub mod cursor;
pub mod frontend;
pub mod parsing;
pub mod util;
pub mod symbol;
pub mod expression;
pub mod display;
pub mod runtime;
pub mod lowering;
