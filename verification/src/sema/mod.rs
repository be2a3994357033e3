pub mod eval;
pub mod name;
pub mod symbol;
pub mod ty;
