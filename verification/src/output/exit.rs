//! Exit codes: success, usage error, I/O failure, failed check, partial
//! commit.

use vstd::prelude::*;

verus! {

/// Success.
pub const SUCCESS: u8 = 0;

/// A usage error: bad arguments, an impossible revert, an anchor not found,
/// a manifest that does not parse.
pub const USAGE: u8 = 1;

/// A write or I/O failure.
pub const IO: u8 = 2;

/// A failed check: `--was` mismatch, `--check` found a problem.
pub const CHECK: u8 = 3;

/// Some files of a manifest were written before a failure.
pub const PARTIAL: u8 = 4;

} // verus!
