//! What the read-only commands and `apply` decide around the library's
//! scans and runs: the options they refuse, the search they run, and the
//! exit code of each outcome.

use vstd::prelude::*;

use crate::apply::commit::{reads_stdin, stdin_uses, ExecError};
use crate::apply::Op;
use crate::cli::common::{line_range, parse_line_range, ArgsError};
use crate::output::exit::{CHECK, IO, PARTIAL, SUCCESS, USAGE};
use crate::text::ops::find::{flat_hits, write_hits, FindError, FindMode, Hit};
use crate::text::ops::peek::{PeekError, PeekOpts, PeekRange};
use crate::text::pattern::{bytes_regex_accepts, line_regex_accepts, ByteRegex, LineRegex};

verus! {

/// `peek --all` shows at most this many lines unless `--max-lines` says
/// otherwise.
pub const DEFAULT_MAX_LINES_ALL: usize = 1000;

/// Why the options of `peek` name no range.
#[derive(Debug, Clone, Copy, PartialEq, Eq, Structural)]
pub enum PeekArgsError {
    /// None of `--lines`, `--match-line`, `--all`.
    MissingRange,
    /// More than one of them.
    ConflictingRange,
    /// `--context` without `--match-line`.
    ContextWithoutMatchLine,
    /// `--lines` is not a line range.
    Lines(ArgsError),
    /// `--match-line` is not a valid regex.
    InvalidRegex,
}

/// A peek range as values: a regex by its pattern.
pub enum PeekRangeView {
    Lines(usize, usize),
    MatchLine(Seq<char>, usize),
    All,
}

/// A peek range as values.
pub open spec fn peek_range_view(r: PeekRange) -> PeekRangeView {
    match r {
        PeekRange::Lines { start, end } => PeekRangeView::Lines(start, end),
        PeekRange::MatchLine { regex, context } => PeekRangeView::MatchLine(
            regex.pattern_view(),
            context,
        ),
        PeekRange::All => PeekRangeView::All,
    }
}

/// The range and cap `peek` runs with: exactly one of `--lines`,
/// `--match-line` and `--all`; `--context` only with `--match-line`; the
/// cap of `--max-lines`, else [`DEFAULT_MAX_LINES_ALL`] for `--all` and
/// none otherwise.
pub open spec fn peek_args(
    lines: Option<Seq<char>>,
    match_line: Option<Seq<char>>,
    context: usize,
    all: bool,
    max_lines: Option<usize>,
) -> Result<(PeekRangeView, Option<usize>), PeekArgsError> {
    let k = (if lines is Some { 1int } else { 0int }) + (if match_line is Some {
        1int
    } else {
        0int
    }) + (if all { 1int } else { 0int });
    if k == 0 {
        Err(PeekArgsError::MissingRange)
    } else if k > 1 {
        Err(PeekArgsError::ConflictingRange)
    } else if context > 0 && match_line is None {
        Err(PeekArgsError::ContextWithoutMatchLine)
    } else {
        let cap = match max_lines {
            Some(n) => Some(n),
            None => if all {
                Some(DEFAULT_MAX_LINES_ALL)
            } else {
                None
            },
        };
        match (lines, match_line) {
            (Some(l), _) => match line_range(l) {
                Ok(se) => Ok((PeekRangeView::Lines(se.0, se.1), cap)),
                Err(e) => Err(PeekArgsError::Lines(e)),
            },
            (_, Some(m)) => if line_regex_accepts(m) {
                Ok((PeekRangeView::MatchLine(m, context), cap))
            } else {
                Err(PeekArgsError::InvalidRegex)
            },
            _ => Ok((PeekRangeView::All, cap)),
        }
    }
}

/// `--max-lines N` caps the output at `N` lines whatever range is shown;
/// without it `--all` is capped at 1000 lines and the other ranges are not
/// capped. `--all` alone always shows the whole file.
pub proof fn lemma_peek_cap(
    lines: Option<Seq<char>>,
    match_line: Option<Seq<char>>,
    context: usize,
    all: bool,
    max_lines: Option<usize>,
)
    ensures
        peek_args(lines, match_line, context, all, max_lines) matches Ok(o) ==> o.1 == (
        match max_lines {
            Some(n) => Some(n),
            None => if all {
                Some(1000usize)
            } else {
                None
            },
        }),
        all && lines is None && match_line is None && context == 0 ==> (peek_args(
            lines,
            match_line,
            context,
            all,
            max_lines,
        ) matches Ok(o) && o.0 is All),
{
}

/// The options `peek` runs with (see [`peek_args`]).
pub fn peek_command_opts(
    lines: Option<&str>,
    match_line: Option<&str>,
    context: usize,
    all: bool,
    max_lines: Option<usize>,
) -> (r: Result<PeekOpts, PeekArgsError>)
    ensures
        match r {
            Ok(o) => peek_args(
                crate::cli::edit::opt_chars(lines),
                crate::cli::edit::opt_chars(match_line),
                context,
                all,
                max_lines,
            ) == Ok::<(PeekRangeView, Option<usize>), PeekArgsError>(
                (peek_range_view(o.range), o.max_lines),
            ),
            Err(e) => peek_args(
                crate::cli::edit::opt_chars(lines),
                crate::cli::edit::opt_chars(match_line),
                context,
                all,
                max_lines,
            ) == Err::<(PeekRangeView, Option<usize>), PeekArgsError>(e),
        },
        r matches Ok(o) ==> o.max_lines == (match max_lines {
            Some(n) => Some(n),
            None => if all {
                Some(1000usize)
            } else {
                None
            },
        }),
        all && lines is None && match_line is None && context == 0 ==> (r matches Ok(o)
            && o.range is All),
        lines is Some && r is Ok ==> r->Ok_0.range is Lines,
        match_line is Some && r is Ok ==> (r->Ok_0.range matches PeekRange::MatchLine { regex, context: c }
            && c == context && regex.pattern_view() == match_line->0@),
{
    let mut k: usize = 0;
    if lines.is_some() {
        k += 1;
    }
    if match_line.is_some() {
        k += 1;
    }
    if all {
        k += 1;
    }
    if k == 0 {
        return Err(PeekArgsError::MissingRange);
    }
    if k > 1 {
        return Err(PeekArgsError::ConflictingRange);
    }
    if context > 0 && match_line.is_none() {
        return Err(PeekArgsError::ContextWithoutMatchLine);
    }
    let cap = match max_lines {
        Some(n) => Some(n),
        None => if all {
            Some(DEFAULT_MAX_LINES_ALL)
        } else {
            None
        },
    };
    match (lines, match_line) {
        (Some(l), _) => match parse_line_range(l) {
            Ok((start, end)) => Ok(PeekOpts { range: PeekRange::Lines { start, end }, max_lines: cap }),
            Err(e) => Err(PeekArgsError::Lines(e)),
        },
        (_, Some(m)) => match LineRegex::new(m) {
            Some(regex) => Ok(PeekOpts { range: PeekRange::MatchLine { regex, context }, max_lines: cap }),
            None => Err(PeekArgsError::InvalidRegex),
        },
        _ => Ok(PeekOpts { range: PeekRange::All, max_lines: cap }),
    }
}

/// The exit code of a failed peek: a range that is not there is a usage
/// error, a failed write an I/O failure.
pub fn peek_exit_code(e: &PeekError) -> (r: u8)
    ensures
        r == (match e {
            PeekError::Locate(_) => USAGE,
            PeekError::Io(_) => IO,
        }),
{
    match e {
        PeekError::Locate(_) => USAGE,
        PeekError::Io(_) => IO,
    }
}

/// The regex `find` searches with.
pub enum FindRegex {
    /// `--match-line`: whole lines.
    Line(LineRegex),
    /// `--pattern`: byte matches.
    Bytes(ByteRegex),
}

/// Why the options of `find` name no search.
#[derive(Debug, Clone, Copy, PartialEq, Eq, Structural)]
pub enum FindArgsError {
    /// Neither `--pattern` nor `--match-line`.
    MissingLocator,
    /// Both of them.
    ConflictingLocators,
    /// `--match-line` is not a valid regex.
    InvalidMatchLine,
    /// `--pattern` is not a valid regex.
    InvalidPattern,
}

/// The search `find` runs: exactly one of `--match-line` (whole lines)
/// and `--pattern` (byte matches), each a valid regex.
pub open spec fn find_args(pattern: Option<Seq<char>>, match_line: Option<Seq<char>>) -> Result<
    (bool, Seq<char>),
    FindArgsError,
> {
    match (pattern, match_line) {
        (None, None) => Err(FindArgsError::MissingLocator),
        (Some(_), Some(_)) => Err(FindArgsError::ConflictingLocators),
        (None, Some(m)) => if line_regex_accepts(m) {
            Ok((true, m))
        } else {
            Err(FindArgsError::InvalidMatchLine)
        },
        (Some(p), None) => if bytes_regex_accepts(p) {
            Ok((false, p))
        } else {
            Err(FindArgsError::InvalidPattern)
        },
    }
}

/// A search regex as values: whether it matches whole lines, and its pattern.
pub open spec fn find_regex_view(f: FindRegex) -> (bool, Seq<char>) {
    match f {
        FindRegex::Line(re) => (true, re.pattern_view()),
        FindRegex::Bytes(re) => (false, re.pattern_view()),
    }
}

/// The search `find` runs (see [`find_args`]).
pub fn find_regex(pattern: Option<&str>, match_line: Option<&str>) -> (r: Result<
    FindRegex,
    FindArgsError,
>)
    ensures
        match r {
            Ok(f) => find_args(crate::cli::edit::opt_chars(pattern), crate::cli::edit::opt_chars(match_line))
                == Ok::<(bool, Seq<char>), FindArgsError>(find_regex_view(f)),
            Err(e) => find_args(crate::cli::edit::opt_chars(pattern), crate::cli::edit::opt_chars(match_line))
                == Err::<(bool, Seq<char>), FindArgsError>(e),
        },
{
    match (pattern, match_line) {
        (None, None) => Err(FindArgsError::MissingLocator),
        (Some(_), Some(_)) => Err(FindArgsError::ConflictingLocators),
        (None, Some(m)) => match LineRegex::new(m) {
            Some(re) => Ok(FindRegex::Line(re)),
            None => Err(FindArgsError::InvalidMatchLine),
        },
        (Some(p), None) => match ByteRegex::new(p) {
            Some(re) => Ok(FindRegex::Bytes(re)),
            None => Err(FindArgsError::InvalidPattern),
        },
    }
}

impl FindRegex {
    /// The search mode over this regex.
    pub fn mode(&self) -> (r: FindMode<'_>)
        ensures
            match (self, r) {
                (FindRegex::Line(a), FindMode::MatchLine(b)) => *a == *b,
                (FindRegex::Bytes(a), FindMode::Pattern(b)) => *a == *b,
                _ => false,
            },
    {
        match self {
            FindRegex::Line(re) => FindMode::MatchLine(re),
            FindRegex::Bytes(re) => FindMode::Pattern(re),
        }
    }
}

/// No file has a hit.
proof fn lemma_no_flat_hits(files: Seq<(String, Vec<Hit>)>)
    ensures
        flat_hits(files).len() == 0 <==> forall|i: int|
            0 <= i < files.len() ==> (#[trigger] files[i]).1@.len() == 0,
    decreases files.len(),
{
    if files.len() > 0 {
        lemma_no_flat_hits(files.drop_last());
        let last = files.last();
        assert(last.1@.map_values(|h: Hit| (vstd::utf8::encode_utf8(last.0@), h)).len()
            == last.1@.len());
        if flat_hits(files).len() == 0 {
            assert forall|i: int| 0 <= i < files.len() implies (#[trigger] files[i]).1@.len() == 0 by {
                if i < files.len() - 1 {
                    assert(files.drop_last()[i] == files[i]);
                }
            }
        } else {
            if forall|i: int| 0 <= i < files.len() ==> (#[trigger] files[i]).1@.len() == 0 {
                assert forall|i: int| 0 <= i < files.drop_last().len() implies (
                #[trigger] files.drop_last()[i]).1@.len() == 0 by {
                    assert(files.drop_last()[i] == files[i]);
                }
                assert(files[files.len() - 1].1@.len() == 0);
            }
        }
    }
}

/// Writes the hits of `find` to `out` (see [`write_hits`]) and gives its
/// exit code: a usage error when no file has a hit, success otherwise.
pub fn find_report(
    files_with_hits: &[(String, Vec<Hit>)],
    use_col: bool,
    max_matches: Option<usize>,
    out: &mut Vec<u8>,
) -> (r: u8)
    ensures
        final(out)@ == old(out)@ + crate::text::ops::find::hits_text(
            flat_hits(files_with_hits@).take(
                crate::text::ops::find::capped(flat_hits(files_with_hits@).len(), max_matches) as int,
            ),
            use_col,
        ),
        r == if flat_hits(files_with_hits@).len() == 0 {
            USAGE
        } else {
            SUCCESS
        },
{
    let _ = write_hits(files_with_hits, use_col, max_matches, out);
    let mut i: usize = 0;
    let mut any = false;
    while i < files_with_hits.len()
        invariant
            0 <= i <= files_with_hits.len(),
            any <==> exists|j: int| 0 <= j < i && (#[trigger] files_with_hits@[j]).1@.len() > 0,
        decreases files_with_hits.len() - i,
    {
        if files_with_hits[i].1.len() > 0 {
            any = true;
        }
        i += 1;
    }
    proof {
        lemma_no_flat_hits(files_with_hits@);
    }
    if any {
        SUCCESS
    } else {
        USAGE
    }
}

/// The exit code of a failed manifest run: a file that could not be
/// computed is a failed check, a write after others were written a partial
/// commit, a list that could not be read an I/O failure.
pub fn exec_exit_code(e: &ExecError) -> (r: u8)
    ensures
        r == (match e {
            ExecError::Phase1 { .. } => CHECK,
            ExecError::Phase2 { .. } => PARTIAL,
            ExecError::Io(_) => IO,
        }),
{
    match e {
        ExecError::Phase1 { .. } => CHECK,
        ExecError::Phase2 { .. } => PARTIAL,
        ExecError::Io(_) => IO,
    }
}

/// Some operation's content is `@-`, so standard input must be read.
pub fn has_stdin_content(ops: &[Op]) -> (r: bool)
    ensures
        r == (stdin_uses(ops@) > 0),
{
    let mut i: usize = 0;
    while i < ops.len()
        invariant
            0 <= i <= ops.len(),
            stdin_uses(ops@.take(i as int)) == 0,
        decreases ops.len() - i,
    {
        let reads = match crate::apply::commit::content_of(&ops[i]) {
            Some(crate::apply::OpContent::Stdin) => true,
            _ => false,
        };
        assert(ops@.take(i + 1).drop_last() =~= ops@.take(i as int));
        if reads {
            assert(reads_stdin(ops@[i as int]));
            proof {
                lemma_stdin_uses_prefix(ops@, i as int + 1);
            }
            return true;
        }
        i += 1;
    }
    assert(ops@.take(ops.len() as int) =~= ops@);
    false
}

/// Uses in a prefix are uses of the whole.
proof fn lemma_stdin_uses_prefix(ops: Seq<Op>, n: int)
    requires
        0 <= n <= ops.len(),
    ensures
        stdin_uses(ops.take(n)) <= stdin_uses(ops),
    decreases ops.len() - n,
{
    if n < ops.len() {
        lemma_stdin_uses_prefix(ops, n + 1);
        assert(ops.take(n + 1).drop_last() =~= ops.take(n));
    } else {
        assert(ops.take(n) =~= ops);
    }
}

} // verus!
