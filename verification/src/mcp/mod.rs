//! The vocabulary of the MCP tools: their locator and content inputs, with
//! the same meaning as the command-line options.

pub mod common;
