pub mod context;
pub mod program;
pub mod write;
pub mod utils;
pub mod live_range;
pub mod alloca;
pub mod gen;
pub mod machine;
