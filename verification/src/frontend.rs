pub mod event;
pub mod string_reader;
pub mod value_reader;
pub mod parser;
