pub mod parser;
pub mod syntax;
