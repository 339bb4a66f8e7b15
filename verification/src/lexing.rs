pub mod lexer;
pub mod owned_token;
pub mod token;
