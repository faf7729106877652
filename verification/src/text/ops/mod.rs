//! The edit, search and listing operations, as functions on byte buffers.

pub mod find;
pub mod indent;
pub mod insert;
pub mod move_op;
pub mod peek;
pub mod replace;
