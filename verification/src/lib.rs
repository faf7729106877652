//! xnip: precise, byte-transparent text editing for agents.
//!
//! The library holds the editing logic: the line model of a byte buffer,
//! the five locators, the edit operations (replace, insert, move, indent),
//! the search and listing operations (find, peek), and the parsers and
//! planner of batch manifests. File access, process I/O and the command-line
//! and MCP front ends live in the application crate around it.

pub mod text;
pub mod apply;
pub mod cli;
pub mod mcp;
pub mod output;
