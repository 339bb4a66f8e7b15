pub mod expression;
pub mod lowerer;
