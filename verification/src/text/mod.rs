//! Line model, locators, content sources and the edit operations.

pub mod atomic;
pub mod chars;
pub mod content;
pub mod diff;
pub mod lines;
pub mod location;
pub mod pattern;
pub mod revert;
pub mod ops;
