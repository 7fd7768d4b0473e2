pub mod bytes;
pub mod chain;
pub mod constants;
pub mod cursor;
pub mod errors;
pub mod laws;
pub mod node;
pub mod row;
pub mod table;
pub mod vm;
