//! The global output flags the command line sets.

use vstd::prelude::*;

verus! {

/// `--quiet`, `--no-color` and `--trace`.
#[derive(Debug, Clone, Copy, PartialEq, Eq, Structural)]
pub struct Flags {
    /// Hold back notes on standard error (errors are still written).
    pub quiet: bool,
    /// No ANSI colours.
    pub no_color: bool,
    /// Trace to standard error.
    pub trace: bool,
}

impl Default for Flags {
    fn default() -> (r: Flags)
        ensures
            !r.quiet && !r.no_color && !r.trace,
    {
        Flags { quiet: false, no_color: false, trace: false }
    }
}

} // verus!
