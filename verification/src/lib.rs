pub mod ast;
pub mod codegen;
pub mod decimal;
pub mod ir;
pub mod irgen;
pub mod opt;
pub mod sema;
pub mod simple_ast;
