//! Process-wide output settings and exit codes.

pub mod exit;
pub mod globals;
