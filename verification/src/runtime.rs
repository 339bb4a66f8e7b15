pub mod builtins;
pub mod environment;
pub mod error;
pub mod machine;
pub mod session;
pub mod tree;
pub mod value;
