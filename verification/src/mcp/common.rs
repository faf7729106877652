//! Locator and content inputs of the MCP tools.
//!
//! The fields mirror the command-line options; validation is theirs. A tool
//! takes no standard-input content: the protocol owns the process's input.

use vstd::prelude::*;

use crate::apply::copy_string;
use crate::apply::detect::{chars_are, lower, to_ascii_lower};
use crate::cli::edit::opt_chars;
use crate::text::ops::insert::Position;
use crate::cli::common::{args_content, args_locator, ArgsError, ContentArgs, LocatorArgs};
use crate::text::content::{Content, ContentSource};
use crate::text::location::{Locator, LocatorView};

verus! {

/// The five locator inputs (exactly one must be given).
pub struct LocatorInput {
    pub lines: Option<String>,
    pub match_line: Option<String>,
    pub occurrence: Option<usize>,
    pub between: Option<String>,
    pub between_re: Option<String>,
    pub inclusive: Option<bool>,
    pub pattern: Option<String>,
    pub count: Option<String>,
}

/// The content inputs (at most one may be given).
pub struct ContentInput {
    pub text: Option<String>,
    pub text_file: Option<String>,
    pub repl: Option<String>,
}

/// A copy of an optional string.
fn copy_opt(s: &Option<String>) -> (r: Option<String>)
    ensures
        match (s, r) {
            (Some(a), Some(b)) => a@ == b@,
            (None, None) => true,
            _ => false,
        },
{
    match s {
        Some(x) => Some(copy_string(x)),
        None => None,
    }
}

/// Optional strings that hold the same text.
pub open spec fn same_opt(a: Option<String>, b: Option<String>) -> bool {
    match (a, b) {
        (Some(x), Some(y)) => x@ == y@,
        (None, None) => true,
        _ => false,
    }
}

/// The command-line options that mean what `i` asks: occurrence at least 1
/// (1 when absent), anchors left out unless asked for.
pub open spec fn as_locator_args(i: LocatorInput, a: LocatorArgs) -> bool {
    &&& same_opt(i.lines, a.lines)
    &&& same_opt(i.match_line, a.match_line)
    &&& a.occurrence == match i.occurrence {
        Some(n) => if n < 1 {
            1
        } else {
            n
        },
        None => 1,
    }
    &&& same_opt(i.between, a.between)
    &&& same_opt(i.between_re, a.between_re)
    &&& a.inclusive == match i.inclusive {
        Some(b) => b,
        None => false,
    }
    &&& same_opt(i.pattern, a.pattern)
    &&& same_opt(i.count, a.count)
}

/// Options with the same texts read the same way.
proof fn lemma_same_args_locator(a: LocatorArgs, b: LocatorArgs)
    requires
        same_opt(a.lines, b.lines),
        same_opt(a.match_line, b.match_line),
        a.occurrence == b.occurrence,
        same_opt(a.between, b.between),
        same_opt(a.between_re, b.between_re),
        a.inclusive == b.inclusive,
        same_opt(a.pattern, b.pattern),
        same_opt(a.count, b.count),
    ensures
        args_locator(a) == args_locator(b),
{
}

impl LocatorInput {
    /// The command-line options that mean what this input asks.
    fn build_locator_args(&self) -> (r: LocatorArgs)
        ensures
            as_locator_args(*self, r),
    {
        LocatorArgs {
            lines: copy_opt(&self.lines),
            match_line: copy_opt(&self.match_line),
            occurrence: match self.occurrence {
                Some(n) => if n < 1 {
                    1
                } else {
                    n
                },
                None => 1,
            },
            between: copy_opt(&self.between),
            between_re: copy_opt(&self.between_re),
            inclusive: match self.inclusive {
                Some(b) => b,
                None => false,
            },
            pattern: copy_opt(&self.pattern),
            count: copy_opt(&self.count),
        }
    }

    /// The locator this input names, as the command-line options would.
    pub fn into_locator(self) -> (r: Result<Locator, ArgsError>)
        ensures
            forall|a: LocatorArgs|
                as_locator_args(self, a) ==> match r {
                    Ok(l) => args_locator(a) == Ok::<LocatorView, ArgsError>(l@),
                    Err(e) => args_locator(a) == Err::<LocatorView, ArgsError>(e),
                },
    {
        let args = self.build_locator_args();
        let ghost built = args;
        let r = args.into_locator();
        proof {
            assert forall|a: LocatorArgs| as_locator_args(self, a) implies match r {
                Ok(l) => args_locator(a) == Ok::<LocatorView, ArgsError>(l@),
                Err(e) => args_locator(a) == Err::<LocatorView, ArgsError>(e),
            } by {
                lemma_same_args_locator(a, built);
            }
        }
        r
    }
}

/// The command-line options that mean what `i` gives.
pub open spec fn as_content_args(i: ContentInput, a: ContentArgs) -> bool {
    &&& same_opt(i.text, a.text)
    &&& !a.text_stdin
    &&& same_opt(i.text_file, a.text_file)
    &&& same_opt(i.repl, a.repl)
}

proof fn lemma_same_args_content(a: ContentArgs, b: ContentArgs, require_some: bool)
    requires
        same_opt(a.text, b.text),
        a.text_stdin == b.text_stdin,
        same_opt(a.text_file, b.text_file),
        same_opt(a.repl, b.repl),
    ensures
        args_content(a, require_some) == args_content(b, require_some),
{
}

/// A tool's content input gives what the command-line options with the
/// same fields and no `--text-stdin` give, and so never standard input
/// (which carries the tool protocol itself).
pub proof fn lemma_input_content_not_stdin(i: ContentInput, a: ContentArgs, require_some: bool)
    requires
        as_content_args(i, a),
    ensures
        args_content(a, require_some) != Ok::<Option<ContentSource>, ArgsError>(
            Some(ContentSource::Stdin),
        ),
{
}

impl ContentInput {
    /// The command-line options that mean what this input gives.
    fn build_content_args(self) -> (r: ContentArgs)
        ensures
            as_content_args(self, r),
    {
        ContentArgs {
            text: copy_opt(&self.text),
            text_stdin: false,
            text_file: copy_opt(&self.text_file),
            repl: copy_opt(&self.repl),
        }
    }

    /// The content this input gives, as the command-line options would.
    pub fn into_content(self, require_some: bool) -> (r: Result<Option<Content>, ArgsError>)
        ensures
            forall|a: ContentArgs|
                as_content_args(self, a) ==> match r {
                    Ok(Some(c)) => args_content(a, require_some) == Ok::<
                        Option<ContentSource>,
                        ArgsError,
                    >(Some(c@)),
                    Ok(None) => args_content(a, require_some) == Ok::<
                        Option<ContentSource>,
                        ArgsError,
                    >(None),
                    Err(e) => args_content(a, require_some) == Err::<
                        Option<ContentSource>,
                        ArgsError,
                    >(e),
                },
            r matches Ok(Some(c)) ==> c@ != ContentSource::Stdin,
    {
        let ghost me = self;
        let args = self.build_content_args();
        let ghost built = args;
        let r = args.into_content(require_some);
        proof {
            assert forall|a: ContentArgs| as_content_args(me, a) implies match r {
                Ok(Some(c)) => args_content(a, require_some) == Ok::<
                    Option<ContentSource>,
                    ArgsError,
                >(Some(c@)),
                Ok(None) => args_content(a, require_some) == Ok::<Option<ContentSource>, ArgsError>(
                    None,
                ),
                Err(e) => args_content(a, require_some) == Err::<Option<ContentSource>, ArgsError>(
                    e,
                ),
            } by {
                lemma_same_args_content(a, built, require_some);
            }
            lemma_input_content_not_stdin(me, built, require_some);
        }
        r
    }
}

/// The position a tool's `position` names, case aside: `before` or
/// `after`, and `after` when absent; `None` for any other word.
pub open spec fn position_named(s: Option<Seq<char>>) -> Option<Position> {
    match s {
        None => Some(Position::After),
        Some(v) => if lower(v) == "before"@ {
            Some(Position::Before)
        } else if lower(v) == "after"@ {
            Some(Position::After)
        } else {
            None
        },
    }
}

/// Reads a tool's `position` (see [`position_named`]).
pub fn parse_position(s: Option<&str>) -> (r: Option<Position>)
    ensures
        r == position_named(opt_chars(s)),
{
    match s {
        None => Some(Position::After),
        Some(v) => {
            let l = to_ascii_lower(v);
            if chars_are(l.as_slice(), "before") {
                Some(Position::Before)
            } else if chars_are(l.as_slice(), "after") {
                Some(Position::After)
            } else {
                None
            }
        },
    }
}

} // verus!
