pub mod gen;
pub mod record;
pub mod utils;
pub mod symt;
