//! The command-line vocabulary shared by the subcommands: locator and
//! content options, what the library makes of them, and what each command
//! decides once its input is read.

pub mod common;
pub mod edit;
pub mod read;
