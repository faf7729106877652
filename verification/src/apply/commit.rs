//! Carrying out a manifest.
//!
//! Every `@-` content is first bound to the manifest's standard input (at
//! most one may appear), `--files-from` targets are expanded, and the
//! operations are grouped by file. Each file's operations are applied in
//! order of their first line, from the bottom up, so that an edit never
//! shifts the lines a later one points at. Files are written only once every
//! file has been computed.

use vstd::prelude::*;
use vstd::utf8::encode_utf8;

use crate::apply::{copy_bytes, copy_string, op_locator, IndentKind, MovePosition, Op, OpContent, Target, Was};
use crate::text::chars::{chars_of, is_ws, string_of, trim, trim_chars};
use crate::text::lines::nl;
use crate::text::location::{
    extract_line_range_with_newline, lemma_usable_resolvable, locator_resolvable, locator_usable,
    range_bytes, resolvable, resolve, resolve_result, LocateError, Locator, Resolved,
};
use crate::text::ops::find::nl_before;
use crate::text::ops::indent::{apply_indent, apply_indent_result, IndentError, IndentOp};
use crate::text::ops::insert::{insert_at, insert_at_result, normalize, normalized, InsertError, Position};
use crate::text::ops::move_op::{move_lines, move_lines_result, reverse_params, reverse_params_result, MoveError};
use crate::text::ops::replace::{count_limit, replace_pattern, replace_range, replace_range_result, ReplaceError};
use crate::text::pattern::{bytes_regex_accepts, bytes_regex_replacen, ByteRegex};
use crate::text::revert::{invert_pattern_replacement, inverted};

verus! {

/// How a manifest runs.
pub struct ExecOpts {
    /// Compute every file but write none.
    pub check: bool,
    /// Compute every file and show the diffs, writing none.
    pub dry_run: bool,
    /// Keep each file's former bytes in `<file>.bak`.
    pub backup: bool,
    /// Directory that relative paths in the manifest start from (`None`:
    /// the working directory).
    pub manifest_dir: Option<String>,
    /// The standard input that an `@-` content takes (`None`: there is none).
    pub stdin_bytes: Option<Vec<u8>>,
    /// How many files may be computed at once (`None`, 0 or 1: one).
    pub parallel: Option<usize>,
}

impl Default for ExecOpts {
    fn default() -> (r: ExecOpts)
        ensures
            !r.check && !r.dry_run && !r.backup && r.manifest_dir is None && r.stdin_bytes is None
                && r.parallel is None,
    {
        ExecOpts {
            check: false,
            dry_run: false,
            backup: false,
            manifest_dir: None,
            stdin_bytes: None,
            parallel: None,
        }
    }
}

/// Why a manifest did not run to the end.
#[derive(Debug)]
pub enum ExecError {
    /// A file could not be computed; nothing was written.
    Phase1 { path: String, msg: String },
    /// A file could not be written; `committed` were written before it.
    Phase2 { path: String, msg: String, committed: Vec<String> },
    /// A list of files could not be read.
    Io(String),
}

/// Why one operation could not be applied to a buffer.
#[derive(Debug)]
pub enum OpError {
    /// A pattern replacement without a replacement template.
    ReplNeeded,
    /// The pattern, once inverted for `revert`, is not a valid regex.
    InvalidRegex,
    /// A range replacement runs backwards only on a `lines` locator.
    RevertNeedsLines,
    /// A range replacement runs backwards only with the bytes to restore.
    RevertNeedsWas,
    /// An expectation read from a file that was never read.
    WasNotLoaded,
    /// The locator does not resolve.
    Locate(LocateError),
    /// Backwards, the range does not hold the text the forward run wrote.
    RevertMismatch { start: usize, end: usize },
    /// The range does not hold the expected bytes.
    WasMismatch { start: usize, end: usize, expected: usize, actual: usize },
    Replace(ReplaceError),
    /// An insertion cannot use a byte pattern.
    InsertPattern,
    /// An insertion needs a single anchor line.
    InsertNotSingleLine { start: usize, end: usize },
    /// An insertion runs backwards only on a `lines` locator.
    InsertRevertNeedsLines,
    /// Backwards, an empty insertion has no lines to remove.
    InsertRevertEmpty,
    /// Backwards, the lines after the anchor are not the inserted text.
    InsertRevertMismatch { start: usize, end: usize },
    /// The lines to remove lie past the last line number there can be.
    InsertRevertOverflow,
    Insert(InsertError),
    /// The move cannot be undone from its arguments.
    MoveReverse(MoveError),
    Move(MoveError),
    Indent(IndentError),
    /// The content file could not be read.
    ContentRead(String),
    /// An `@-` content was not bound to the standard input.
    StdinNotBound,
    /// A replacement template where bytes were needed.
    ReplNotBytes,
    /// An operation without content where content was needed.
    NoContent,
}

/// The bytes an operation writes: its literal text, or what reading its
/// content file gave (`file`).
pub open spec fn payload_result(c: OpContent, file: Result<Vec<u8>, String>) -> Result<
    Seq<u8>,
    OpError,
> {
    match c {
        OpContent::Text(b) => Ok(b@),
        OpContent::Empty => Ok(Seq::empty()),
        OpContent::File(_) => match file {
            Ok(b) => Ok(b@),
            Err(m) => Err(OpError::ContentRead(m)),
        },
        OpContent::Stdin => Err(OpError::StdinNotBound),
        OpContent::Repl(_) => Err(OpError::ReplNotBytes),
        OpContent::Nothing => Err(OpError::NoContent),
    }
}

/// The bytes an operation writes.
pub fn load_op_content(c: &OpContent, file: &Result<Vec<u8>, String>) -> (r: Result<Vec<u8>, OpError>)
    ensures
        match (r, payload_result(*c, *file)) {
            (Ok(v), Ok(s)) => v@ == s,
            (Err(e), Err(f)) => e == f,
            _ => false,
        },
{
    match c {
        OpContent::Text(b) => Ok(copy_bytes(b)),
        OpContent::Empty => Ok(Vec::new()),
        OpContent::File(_) => match file {
            Ok(b) => Ok(copy_bytes(b)),
            Err(m) => Err(OpError::ContentRead(m.clone())),
        },
        OpContent::Stdin => Err(OpError::StdinNotBound),
        OpContent::Repl(_) => Err(OpError::ReplNotBytes),
        OpContent::Nothing => Err(OpError::NoContent),
    }
}

/// A result computed as bytes, held against its specification: the same
/// bytes, or the same error.
pub open spec fn agrees(r: Result<Vec<u8>, OpError>, s: Result<Seq<u8>, OpError>) -> bool {
    match (r, s) {
        (Ok(v), Ok(b)) => v@ == b,
        (Err(e), Err(f)) => e == f,
        _ => false,
    }
}

/// The pattern and template a pattern replacement runs with: as given, or
/// inverted for `revert`.
pub open spec fn effective_pair(pattern: Seq<char>, repl: Seq<char>, revert: bool) -> (
    Seq<char>,
    Seq<char>,
) {
    if revert {
        inverted(pattern, repl)
    } else {
        (pattern, repl)
    }
}

/// The pattern and template a pattern replacement runs with.
pub fn effective_pattern_replacement(pattern: &str, repl: &str, revert: bool) -> (r: (String, String))
    ensures
        (r.0@, r.1@) == effective_pair(pattern@, repl@, revert),
{
    if revert {
        invert_pattern_replacement(pattern, repl)
    } else {
        (pattern.to_owned(), repl.to_owned())
    }
}

/// Backwards, the range holds what the forward run wrote: the text itself,
/// or the text with the `\n` the forward run added.
pub open spec fn holds_forward_text(actual: Seq<u8>, text: Seq<u8>) -> bool {
    actual == text || (!(text.len() > 0 && text.last() == nl()) && actual == text.push(nl()))
}

/// Whether a range holds what a forward run wrote (see
/// [`holds_forward_text`]).
pub(crate) fn holds_forward(actual: &[u8], text: &[u8]) -> (r: bool)
    ensures
        r == holds_forward_text(actual@, text@),
{
    let strict = bytes_equal(actual, text);
    let lax = !(text.len() > 0 && text[text.len() - 1] == 10u8) && actual.len() > text.len()
        && actual.len() - text.len() == 1 && bytes_equal(slice_prefix(actual, text.len()), text)
        && actual[actual.len() - 1] == 10u8;
    proof {
        let a = actual@;
        let t = text@;
        if lax {
            assert(a =~= t.push(nl()));
        }
        if a == t.push(nl()) && !(t.len() > 0 && t.last() == nl()) {
            assert(a.subrange(0, t.len() as int) =~= t);
        }
    }
    strict || lax
}

/// What a replacement does to `bytes`.
pub open spec fn replace_op_result(
    bytes: Seq<u8>,
    locator: Locator,
    content: OpContent,
    was: Option<Was>,
    revert: bool,
    file: Result<Vec<u8>, String>,
) -> Result<Seq<u8>, OpError> {
    match locator {
        Locator::Pattern { regex, count } => match content {
            OpContent::Repl(s) => {
                let pr = effective_pair(regex.pattern_view(), s@, revert);
                if bytes_regex_accepts(pr.0) {
                    Ok(bytes_regex_replacen(pr.0, bytes, count_limit(count), encode_utf8(pr.1)))
                } else {
                    Err(OpError::InvalidRegex)
                }
            },
            _ => Err(OpError::ReplNeeded),
        },
        _ => if revert {
            if !(locator is Lines) {
                Err(OpError::RevertNeedsLines)
            } else {
                match was {
                    None => Err(OpError::RevertNeedsWas),
                    Some(Was::File(_)) => Err(OpError::WasNotLoaded),
                    Some(Was::Bytes(w)) => match resolve_result(locator, bytes) {
                        Err(e) => Err(OpError::Locate(e)),
                        Ok(r) => match payload_result(content, file) {
                            Err(e) => Err(e),
                            Ok(text) => if !holds_forward_text(
                                range_bytes(bytes, r.start_line as int, r.end_line as int),
                                text,
                            ) {
                                Err(
                                    OpError::RevertMismatch {
                                        start: r.start_line,
                                        end: r.end_line,
                                    },
                                )
                            } else {
                                match replace_range_result(bytes, r.start_line, r.end_line, w@) {
                                    Ok(v) => Ok(v),
                                    Err(e) => Err(OpError::Replace(e)),
                                }
                            },
                        },
                    },
                }
            }
        } else {
            match resolve_result(locator, bytes) {
                Err(e) => Err(OpError::Locate(e)),
                Ok(r) => {
                    let actual = range_bytes(bytes, r.start_line as int, r.end_line as int);
                    match was {
                        Some(Was::File(_)) => Err(OpError::WasNotLoaded),
                        Some(Was::Bytes(w)) if actual != w@ => Err(
                            OpError::WasMismatch {
                                start: r.start_line,
                                end: r.end_line,
                                expected: w@.len() as usize,
                                actual: actual.len() as usize,
                            },
                        ),
                        _ => match payload_result(content, file) {
                            Err(e) => Err(e),
                            Ok(p) => match replace_range_result(bytes, r.start_line, r.end_line, p) {
                                Ok(v) => Ok(v),
                                Err(e) => Err(OpError::Replace(e)),
                            },
                        },
                    }
                },
            }
        },
    }
}

/// Applies a replacement to `bytes` (see [`replace_op_result`]).
pub(crate) fn apply_replace(
    bytes: &[u8],
    locator: &Locator,
    content: &OpContent,
    was: &Option<Was>,
    revert: bool,
    file: &Result<Vec<u8>, String>,
) -> (r: Result<Vec<u8>, OpError>)
    requires
        revert || locator_resolvable(*locator, bytes@),
    ensures
        agrees(r, replace_op_result(bytes@, *locator, *content, *was, revert, *file)),
{
    if let Locator::Pattern { regex, count } = locator {
        let repl = match content {
            OpContent::Repl(s) => s,
            _ => {
                return Err(OpError::ReplNeeded);
            },
        };
        let (pat, rep) = effective_pattern_replacement(regex.as_str(), repl.as_str(), revert);
        return match ByteRegex::new(pat.as_str()) {
            None => Err(OpError::InvalidRegex),
            Some(re) => {
                let (new_bytes, _n) = replace_pattern(bytes, &re, rep.as_str(), *count);
                Ok(new_bytes)
            },
        };
    }
    if revert {
        let is_lines = match locator {
            Locator::Lines { .. } => true,
            _ => false,
        };
        if !is_lines {
            return Err(OpError::RevertNeedsLines);
        }
        let was_bytes = match was {
            None => {
                return Err(OpError::RevertNeedsWas);
            },
            Some(Was::File(_)) => {
                return Err(OpError::WasNotLoaded);
            },
            Some(Was::Bytes(w)) => w,
        };
        let r = match resolve(locator, bytes) {
            Ok(r) => r,
            Err(e) => {
                return Err(OpError::Locate(e));
            },
        };
        let actual = extract_line_range_with_newline(bytes, r.start_line, r.end_line);
        let forward_text = match load_op_content(content, file) {
            Ok(t) => t,
            Err(e) => {
                return Err(e);
            },
        };
        if !holds_forward(actual.as_slice(), forward_text.as_slice()) {
            return Err(OpError::RevertMismatch { start: r.start_line, end: r.end_line });
        }
        return match replace_range(bytes, r.start_line, r.end_line, was_bytes.as_slice()) {
            Ok(v) => Ok(v),
            Err(e) => Err(OpError::Replace(e)),
        };
    }
    let r = match resolve(locator, bytes) {
        Ok(r) => r,
        Err(e) => {
            return Err(OpError::Locate(e));
        },
    };
    match was {
        Some(Was::File(_)) => {
            return Err(OpError::WasNotLoaded);
        },
        Some(Was::Bytes(expected)) => {
            let actual = extract_line_range_with_newline(bytes, r.start_line, r.end_line);
            if !bytes_equal(actual.as_slice(), expected.as_slice()) {
                return Err(
                    OpError::WasMismatch {
                        start: r.start_line,
                        end: r.end_line,
                        expected: expected.len(),
                        actual: actual.len(),
                    },
                );
            }
        },
        None => {},
    }
    let payload = match load_op_content(content, file) {
        Ok(p) => p,
        Err(e) => {
            return Err(e);
        },
    };
    match replace_range(bytes, r.start_line, r.end_line, payload.as_slice()) {
        Ok(v) => Ok(v),
        Err(e) => Err(OpError::Replace(e)),
    }
}

/// Whether two byte strings are equal.
pub fn bytes_equal(a: &[u8], b: &[u8]) -> (r: bool)
    ensures
        r == (a@ == b@),
{
    if a.len() != b.len() {
        return false;
    }
    let mut i: usize = 0;
    while i < a.len()
        invariant
            a.len() == b.len(),
            0 <= i <= a.len(),
            forall|j: int| 0 <= j < i ==> a@[j] == b@[j],
        decreases a.len() - i,
    {
        if a[i] != b[i] {
            return false;
        }
        i += 1;
    }
    assert(a@ =~= b@);
    true
}

/// The first `n` bytes of `a`.
fn slice_prefix(a: &[u8], n: usize) -> (r: &[u8])
    requires
        n <= a.len(),
    ensures
        r@ == a@.subrange(0, n as int),
{
    vstd::slice::slice_subrange(a, 0, n)
}

/// The insertion side of a manifest position.
pub open spec fn position_of(p: MovePosition) -> Position {
    match p {
        MovePosition::Before => Position::Before,
        MovePosition::After => Position::After,
    }
}

fn to_position(p: MovePosition) -> (r: Position)
    ensures
        r == position_of(p),
{
    match p {
        MovePosition::Before => Position::Before,
        MovePosition::After => Position::After,
    }
}

/// Lines `(first, last)` that an insertion of `n` lines at anchor `a` became.
pub open spec fn inserted_span(a: int, n: int, pos: Position) -> (int, int) {
    match pos {
        Position::After => (a + 1, a + n),
        Position::Before => (a, a + n - 1),
    }
}

/// What an insertion does to `bytes`.
pub open spec fn insert_op_result(
    bytes: Seq<u8>,
    locator: Locator,
    content: OpContent,
    position: MovePosition,
    revert: bool,
    file: Result<Vec<u8>, String>,
) -> Result<Seq<u8>, OpError> {
    if locator is Pattern {
        Err(OpError::InsertPattern)
    } else {
        match resolve_result(locator, bytes) {
            Err(e) => Err(OpError::Locate(e)),
            Ok(r) => if r.start_line != r.end_line {
                Err(OpError::InsertNotSingleLine { start: r.start_line, end: r.end_line })
            } else {
                match payload_result(content, file) {
                    Err(e) => Err(e),
                    Ok(p) => {
                        let pos = position_of(position);
                        if revert {
                            if !(locator is Lines) {
                                Err(OpError::InsertRevertNeedsLines)
                            } else {
                                let norm = normalized(p);
                                let n = nl_before(norm, norm.len() as int) as int;
                                let span = inserted_span(r.start_line as int, n, pos);
                                if n == 0 {
                                    Err(OpError::InsertRevertEmpty)
                                } else if r.start_line + n > usize::MAX {
                                    Err(OpError::InsertRevertOverflow)
                                } else if range_bytes(bytes, span.0, span.1) != norm {
                                    Err(
                                        OpError::InsertRevertMismatch {
                                            start: span.0 as usize,
                                            end: span.1 as usize,
                                        },
                                    )
                                } else {
                                    match replace_range_result(
                                        bytes,
                                        span.0 as usize,
                                        span.1 as usize,
                                        Seq::empty(),
                                    ) {
                                        Ok(v) => Ok(v),
                                        Err(e) => Err(OpError::Replace(e)),
                                    }
                                }
                            }
                        } else {
                            match insert_at_result(bytes, r.start_line, pos, p) {
                                Ok(v) => Ok(v),
                                Err(e) => Err(OpError::Insert(e)),
                            }
                        }
                    },
                }
            },
        }
    }
}

/// Number of `\n` bytes in `b`.
fn count_newlines(b: &[u8]) -> (r: usize)
    ensures
        r == nl_before(b@, b.len() as int),
{
    let mut n: usize = 0;
    let mut i: usize = 0;
    while i < b.len()
        invariant
            0 <= i <= b.len(),
            n == nl_before(b@, i as int),
            n <= i,
        decreases b.len() - i,
    {
        if b[i] == 10u8 {
            n += 1;
        }
        i += 1;
    }
    n
}

/// Applies an insertion to `bytes` (see [`insert_op_result`]).
fn apply_insert(
    bytes: &[u8],
    locator: &Locator,
    content: &OpContent,
    position: MovePosition,
    revert: bool,
    file: &Result<Vec<u8>, String>,
) -> (r: Result<Vec<u8>, OpError>)
    requires
        locator_resolvable(*locator, bytes@),
    ensures
        agrees(r, insert_op_result(bytes@, *locator, *content, position, revert, *file)),
{
    let (is_pattern, is_lines) = match locator {
        Locator::Pattern { .. } => (true, false),
        Locator::Lines { .. } => (false, true),
        _ => (false, false),
    };
    if is_pattern {
        return Err(OpError::InsertPattern);
    }
    let r = match resolve(locator, bytes) {
        Ok(r) => r,
        Err(e) => {
            return Err(OpError::Locate(e));
        },
    };
    if r.start_line != r.end_line {
        return Err(OpError::InsertNotSingleLine { start: r.start_line, end: r.end_line });
    }
    let payload = match load_op_content(content, file) {
        Ok(p) => p,
        Err(e) => {
            return Err(e);
        },
    };
    let pos = to_position(position);
    if revert {
        if !is_lines {
            return Err(OpError::InsertRevertNeedsLines);
        }
        let norm = normalize(payload.as_slice());
        let n = count_newlines(norm.as_slice());
        if n == 0 {
            return Err(OpError::InsertRevertEmpty);
        }
        if r.start_line > usize::MAX - n {
            return Err(OpError::InsertRevertOverflow);
        }
        let (del_start, del_end) = match pos {
            Position::After => (r.start_line + 1, r.start_line + n),
            Position::Before => (r.start_line, r.start_line + n - 1),
        };
        let actual = extract_line_range_with_newline(bytes, del_start, del_end);
        if !bytes_equal(actual.as_slice(), norm.as_slice()) {
            return Err(OpError::InsertRevertMismatch { start: del_start, end: del_end });
        }
        let empty: Vec<u8> = Vec::new();
        return match replace_range(bytes, del_start, del_end, empty.as_slice()) {
            Ok(v) => Ok(v),
            Err(e) => Err(OpError::Replace(e)),
        };
    }
    match insert_at(bytes, r.start_line, pos, payload.as_slice()) {
        Ok(v) => Ok(v),
        Err(e) => Err(OpError::Insert(e)),
    }
}

/// What a move does to `bytes`.
pub open spec fn move_op_result(
    bytes: Seq<u8>,
    from: Locator,
    to_line: usize,
    position: MovePosition,
    revert: bool,
) -> Result<Seq<u8>, OpError> {
    match resolve_result(from, bytes) {
        Err(e) => Err(OpError::Locate(e)),
        Ok(r) => {
            let pos = position_of(position);
            if revert {
                match reverse_params_result(r.start_line, r.end_line, to_line, pos) {
                    Err(e) => Err(OpError::MoveReverse(e)),
                    Ok(q) => match move_lines_result(bytes, q.0, q.1, q.2, q.3) {
                        Ok(v) => Ok(v),
                        Err(e) => Err(OpError::Move(e)),
                    },
                }
            } else {
                match move_lines_result(bytes, r.start_line, r.end_line, to_line, pos) {
                    Ok(v) => Ok(v),
                    Err(e) => Err(OpError::Move(e)),
                }
            }
        },
    }
}

/// Applies a move to `bytes` (see [`move_op_result`]).
fn apply_move(bytes: &[u8], from: &Locator, to_line: usize, position: MovePosition, revert: bool) -> (r:
    Result<Vec<u8>, OpError>)
    requires
        locator_resolvable(*from, bytes@),
    ensures
        agrees(r, move_op_result(bytes@, *from, to_line, position, revert)),
{
    let r = match resolve(from, bytes) {
        Ok(r) => r,
        Err(e) => {
            return Err(OpError::Locate(e));
        },
    };
    let pos = to_position(position);
    if revert {
        let (s, e, t, p) = match reverse_params(r.start_line, r.end_line, to_line, pos) {
            Ok(q) => q,
            Err(e) => {
                return Err(OpError::MoveReverse(e));
            },
        };
        return match move_lines(bytes, s, e, t, p) {
            Ok(v) => Ok(v),
            Err(e) => Err(OpError::Move(e)),
        };
    }
    match move_lines(bytes, r.start_line, r.end_line, to_line, pos) {
        Ok(v) => Ok(v),
        Err(e) => Err(OpError::Move(e)),
    }
}

/// `|n|` as a count.
pub open spec fn magnitude(n: i64) -> usize {
    (if n >= 0 {
        n as int
    } else {
        -(n as int)
    }) as u64 as usize
}

/// The indentation change a manifest kind names, inverted for `revert`.
pub open spec fn indent_op_of(kind: IndentKind, revert: bool) -> IndentOp {
    let op = match kind {
        IndentKind::Adjust(n) => if n >= 0 {
            IndentOp::Add(magnitude(n))
        } else {
            IndentOp::Remove(magnitude(n))
        },
        IndentKind::TabsToSpaces(n) => IndentOp::TabsToSpaces(n),
        IndentKind::SpacesToTabs(n) => IndentOp::SpacesToTabs(n),
    };
    if revert {
        match op {
            IndentOp::Add(n) => IndentOp::Remove(n),
            IndentOp::Remove(n) => IndentOp::Add(n),
            IndentOp::TabsToSpaces(n) => IndentOp::SpacesToTabs(n),
            IndentOp::SpacesToTabs(n) => IndentOp::TabsToSpaces(n),
        }
    } else {
        op
    }
}

/// What an indentation change does to `bytes`.
pub open spec fn indent_op_result(bytes: Seq<u8>, locator: Locator, kind: IndentKind, revert: bool) -> Result<
    Seq<u8>,
    OpError,
> {
    match resolve_result(locator, bytes) {
        Err(e) => Err(OpError::Locate(e)),
        Ok(r) => match apply_indent_result(bytes, r.start_line, r.end_line, indent_op_of(kind, revert)) {
            Ok(v) => Ok(v),
            Err(e) => Err(OpError::Indent(e)),
        },
    }
}

fn to_indent_op(kind: IndentKind, revert: bool) -> (r: IndentOp)
    ensures
        r == indent_op_of(kind, revert),
{
    let op = match kind {
        IndentKind::Adjust(n) => {
            let m: u64 = if n >= 0 {
                n as u64
            } else if n == i64::MIN {
                0x8000_0000_0000_0000u64
            } else {
                (-n) as u64
            };
            if n >= 0 {
                IndentOp::Add(m as usize)
            } else {
                IndentOp::Remove(m as usize)
            }
        },
        IndentKind::TabsToSpaces(n) => IndentOp::TabsToSpaces(n),
        IndentKind::SpacesToTabs(n) => IndentOp::SpacesToTabs(n),
    };
    if revert {
        match op {
            IndentOp::Add(n) => IndentOp::Remove(n),
            IndentOp::Remove(n) => IndentOp::Add(n),
            IndentOp::TabsToSpaces(n) => IndentOp::SpacesToTabs(n),
            IndentOp::SpacesToTabs(n) => IndentOp::TabsToSpaces(n),
        }
    } else {
        op
    }
}

/// Applies an indentation change to `bytes` (see [`indent_op_result`]).
pub fn apply_indent_op(bytes: &[u8], locator: &Locator, kind: IndentKind, revert: bool) -> (r: Result<
    Vec<u8>,
    OpError,
>)
    requires
        locator_resolvable(*locator, bytes@),
    ensures
        agrees(r, indent_op_result(bytes@, *locator, kind, revert)),
{
    let r = match resolve(locator, bytes) {
        Ok(r) => r,
        Err(e) => {
            return Err(OpError::Locate(e));
        },
    };
    match apply_indent(bytes, r.start_line, r.end_line, to_indent_op(kind, revert)) {
        Ok(v) => Ok(v),
        Err(e) => Err(OpError::Indent(e)),
    }
}

/// What one operation does to `bytes`; `file` is what reading its content
/// file gave, where it has one.
#[verifier::opaque]
pub open spec fn op_result(op: Op, bytes: Seq<u8>, file: Result<Vec<u8>, String>) -> Result<
    Seq<u8>,
    OpError,
> {
    match op {
        Op::Replace { locator, content, was, revert, .. } => replace_op_result(
            bytes,
            locator,
            content,
            was,
            revert,
            file,
        ),
        Op::Insert { locator, content, position, revert, .. } => insert_op_result(
            bytes,
            locator,
            content,
            position,
            revert,
            file,
        ),
        Op::Move { from, to_line, position, revert, .. } => move_op_result(
            bytes,
            from,
            to_line,
            position,
            revert,
        ),
        Op::Indent { locator, kind, revert, .. } => indent_op_result(bytes, locator, kind, revert),
    }
}

/// Applying `op` to `bytes` never tests an empty `Between` anchor against a
/// line: a range replacement run backwards refuses every locator but
/// `Lines` before it resolves one.
pub open spec fn op_resolvable(op: Op, bytes: Seq<u8>) -> bool {
    match op {
        Op::Replace { locator, revert, .. } => revert || locator_resolvable(locator, bytes),
        _ => locator_resolvable(op_locator(op), bytes),
    }
}

/// Whether `op` can be applied to `bytes` (see [`op_resolvable`]).
pub fn op_resolvable_on(op: &Op, bytes: &[u8]) -> (r: bool)
    ensures
        r == op_resolvable(*op, bytes@),
{
    match op {
        Op::Replace { locator, revert, .. } => *revert || resolvable(locator, bytes),
        Op::Insert { locator, .. } => resolvable(locator, bytes),
        Op::Move { from, .. } => resolvable(from, bytes),
        Op::Indent { locator, .. } => resolvable(locator, bytes),
    }
}

/// Applies one operation to `bytes`.
pub fn apply_one_op(op: &Op, bytes: &[u8], file: &Result<Vec<u8>, String>) -> (r: Result<
    Vec<u8>,
    OpError,
>)
    requires
        op_resolvable(*op, bytes@),
    ensures
        agrees(r, op_result(*op, bytes@, *file)),
{
    reveal(op_result);
    match op {
        Op::Replace { locator, content, was, revert, .. } => apply_replace(
            bytes,
            locator,
            content,
            was,
            *revert,
            file,
        ),
        Op::Insert { locator, content, position, revert, .. } => apply_insert(
            bytes,
            locator,
            content,
            *position,
            *revert,
            file,
        ),
        Op::Move { from, to_line, position, revert, .. } => apply_move(
            bytes,
            from,
            *to_line,
            *position,
            *revert,
        ),
        Op::Indent { locator, kind, revert, .. } => apply_indent_op(bytes, locator, *kind, *revert),
    }
}

/// The line an operation starts at in `bytes`, by which a file's
/// operations are ordered; `None` for a byte pattern or a locator that does
/// not resolve.
pub open spec fn start_line_of(op: Op, bytes: Seq<u8>) -> Option<usize> {
    let loc = op_locator(op);
    if loc is Pattern {
        None
    } else {
        match resolve_result(loc, bytes) {
            Ok(r) => Some(r.start_line),
            Err(_) => None,
        }
    }
}

/// The line an operation starts at in `bytes` (see [`start_line_of`]).
pub fn op_start_line(op: &Op, bytes: &[u8]) -> (r: Option<usize>)
    requires
        locator_resolvable(op_locator(*op), bytes@),
    ensures
        r == start_line_of(*op, bytes@),
{
    let loc = match op {
        Op::Replace { locator, .. } => locator,
        Op::Insert { locator, .. } => locator,
        Op::Move { from, .. } => from,
        Op::Indent { locator, .. } => locator,
    };
    if let Locator::Pattern { .. } = loc {
        return None;
    }
    match resolve(loc, bytes) {
        Ok(r) => Some(r.start_line),
        Err(_) => None,
    }
}

/// The ordering key of an operation: its start line, operations without
/// one first.
pub open spec fn sort_key(op: Op, bytes: Seq<u8>) -> usize {
    match start_line_of(op, bytes) {
        Some(n) => n,
        None => usize::MAX,
    }
}

/// Index `i` goes before index `j`: a higher key first, equal keys in
/// their given order.
pub open spec fn goes_before(keys: Seq<usize>, i: int, j: int) -> bool {
    keys[i] > keys[j] || (keys[i] == keys[j] && i < j)
}

/// `order` lists every index of `keys` once, higher keys first and equal
/// keys in their given order.
pub open spec fn is_descending_order(order: Seq<usize>, keys: Seq<usize>) -> bool {
    &&& order.len() == keys.len()
    &&& forall|a: int| 0 <= a < order.len() ==> order[a] < keys.len()
    &&& forall|a: int, b: int| 0 <= a < b < order.len() ==> order[a] != order[b]
    &&& forall|a: int, b: int|
        0 <= a < b < order.len() ==> goes_before(keys, order[a] as int, order[b] as int)
}

/// First position of `o`, from `from` on, whose key is below `v`.
pub open spec fn first_below(o: Seq<usize>, keys: Seq<usize>, v: usize, from: int) -> int
    decreases o.len() - from,
{
    if from >= o.len() {
        o.len() as int
    } else if keys[o[from] as int] < v {
        from
    } else {
        first_below(o, keys, v, from + 1)
    }
}

/// The order of indices `0 .. n` by descending key, equal keys in their
/// given order: each index goes in before the first lower key.
pub open spec fn descending_order(keys: Seq<usize>, n: nat) -> Seq<usize>
    decreases n,
{
    if n == 0 {
        Seq::empty()
    } else {
        let o = descending_order(keys, (n - 1) as nat);
        o.insert(first_below(o, keys, keys[n - 1], 0), (n - 1) as usize)
    }
}

/// The order of indices `0 .. keys.len()` by descending key, equal keys in
/// their given order.
pub fn order_by_descending_key(keys: &[usize]) -> (r: Vec<usize>)
    ensures
        r@ == descending_order(keys@, keys@.len()),
        is_descending_order(r@, keys@),
{
    let mut order: Vec<usize> = Vec::new();
    let mut i: usize = 0;
    while i < keys.len()
        invariant
            0 <= i <= keys.len(),
            order@ == descending_order(keys@, i as nat),
            order@.len() == i,
            forall|a: int| 0 <= a < order@.len() ==> order@[a] < i,
            forall|a: int, b: int| 0 <= a < b < order@.len() ==> order@[a] != order@[b],
            forall|a: int, b: int|
                0 <= a < b < order@.len() ==> goes_before(keys@, order@[a] as int, order@[b] as int),
        decreases keys.len() - i,
    {
        let v = keys[i];
        let mut j: usize = 0;
        while j < order.len() && keys[order[j]] >= v
            invariant
                0 <= j <= order@.len(),
                order@.len() == i,
                i < keys.len(),
                v == keys@[i as int],
                forall|a: int| 0 <= a < order@.len() ==> order@[a] < i,
                forall|a: int| 0 <= a < j ==> keys@[order@[a] as int] >= v,
                first_below(order@, keys@, v, j as int) == first_below(order@, keys@, v, 0),
            decreases order@.len() - j,
        {
            j += 1;
        }
        let ghost old_order = order@;
        assert(first_below(old_order, keys@, v, j as int) == j);
        order.insert(j, i);
        proof {
            let o = old_order;
            let n = order@;
            assert(n == o.insert(j as int, i));
            assert forall|a: int| 0 <= a < n.len() implies n[a] < i + 1 by {
                if a < j {
                    assert(n[a] == o[a]);
                } else if a > j {
                    assert(n[a] == o[a - 1]);
                }
            }
            assert forall|a: int, b: int| 0 <= a < b < n.len() implies n[a] != n[b] by {
                if a < j && b < j {
                    assert(n[a] == o[a] && n[b] == o[b]);
                } else if a < j && b == j {
                    assert(n[a] == o[a]);
                } else if a < j && b > j {
                    assert(n[a] == o[a] && n[b] == o[b - 1]);
                } else if a == j {
                    assert(n[b] == o[b - 1]);
                } else {
                    assert(n[a] == o[a - 1] && n[b] == o[b - 1]);
                }
            }
            assert forall|a: int, b: int| 0 <= a < b < n.len() implies goes_before(
                keys@,
                n[a] as int,
                n[b] as int,
            ) by {
                if a < j && b < j {
                    assert(n[a] == o[a] && n[b] == o[b]);
                } else if a < j && b == j {
                    assert(n[a] == o[a]);
                } else if a < j && b > j {
                    assert(n[a] == o[a] && n[b] == o[b - 1]);
                } else if a == j {
                    assert(n[b] == o[b - 1]);
                    assert(keys@[o[j as int] as int] < v);
                    if b - 1 > j {
                        assert(goes_before(keys@, o[j as int] as int, o[b - 1] as int));
                    }
                } else {
                    assert(n[a] == o[a - 1] && n[b] == o[b - 1]);
                }
            }
        }
        i += 1;
    }
    order
}

/// The ordering keys of `ops` in `bytes`.
pub open spec fn sort_keys(ops: Seq<Op>, bytes: Seq<u8>) -> Seq<usize> {
    ops.map_values(|op: Op| sort_key(op, bytes))
}

/// The operations at `order` applied one after another to `bytes`, each to
/// what the one before gave; the first error stops the run.
pub open spec fn fold_ops(
    ops: Seq<Op>,
    files: Seq<Result<Vec<u8>, String>>,
    order: Seq<usize>,
    bytes: Seq<u8>,
) -> Result<Seq<u8>, OpError>
    decreases order.len(),
{
    if order.len() == 0 {
        Ok(bytes)
    } else {
        match fold_ops(ops, files, order.drop_last(), bytes) {
            Err(e) => Err(e),
            Ok(b) => op_result(ops[order.last() as int], b, files[order.last() as int]),
        }
    }
}

/// What a file's operations make of its bytes: applied from the bottom of
/// the file up (see [`descending_order`]).
pub open spec fn file_result(ops: Seq<Op>, files: Seq<Result<Vec<u8>, String>>, bytes: Seq<u8>) -> Result<
    Seq<u8>,
    OpError,
> {
    let keys = sort_keys(ops, bytes);
    fold_ops(ops, files, descending_order(keys, keys.len()), bytes)
}

/// Every locator of `ops` has non-empty anchors.
pub open spec fn ops_usable(ops: Seq<Op>) -> bool {
    forall|i: int| 0 <= i < ops.len() ==> locator_usable(op_locator(#[trigger] ops[i]))
}

/// Every operation of `ops` finds its start line in `bytes` without testing
/// an empty anchor.
pub open spec fn keys_resolvable(ops: Seq<Op>, bytes: Seq<u8>) -> bool {
    forall|i: int| 0 <= i < ops.len() ==> locator_resolvable(op_locator(#[trigger] ops[i]), bytes)
}

/// The operations at `order` run one after another on `bytes`, as
/// [`fold_ops`] does; `None` when an operation that is reached would test
/// an empty anchor.
pub open spec fn fold_run(
    ops: Seq<Op>,
    files: Seq<Result<Vec<u8>, String>>,
    order: Seq<usize>,
    bytes: Seq<u8>,
) -> Option<Result<Seq<u8>, OpError>>
    decreases order.len(),
{
    if order.len() == 0 {
        Some(Ok(bytes))
    } else {
        match fold_run(ops, files, order.drop_last(), bytes) {
            Some(Ok(b)) => if op_resolvable(ops[order.last() as int], b) {
                Some(op_result(ops[order.last() as int], b, files[order.last() as int]))
            } else {
                None
            },
            other => other,
        }
    }
}

/// What a file's operations make of its bytes (see [`file_result`]);
/// `None` when ordering them or running one of them would test an empty
/// anchor.
pub open spec fn file_run(ops: Seq<Op>, files: Seq<Result<Vec<u8>, String>>, bytes: Seq<u8>) -> Option<
    Result<Seq<u8>, OpError>,
> {
    if keys_resolvable(ops, bytes) {
        let keys = sort_keys(ops, bytes);
        fold_run(ops, files, descending_order(keys, keys.len()), bytes)
    } else {
        None
    }
}

/// A run that completes gives what [`fold_ops`] gives.
proof fn lemma_fold_run_agrees(
    ops: Seq<Op>,
    files: Seq<Result<Vec<u8>, String>>,
    order: Seq<usize>,
    bytes: Seq<u8>,
)
    ensures
        fold_run(ops, files, order, bytes) is Some ==> fold_run(ops, files, order, bytes)->Some_0
            == fold_ops(ops, files, order, bytes),
    decreases order.len(),
{
    if order.len() > 0 {
        lemma_fold_run_agrees(ops, files, order.drop_last(), bytes);
    }
}

/// Without empty anchors a run always completes.
proof fn lemma_fold_run_completes(
    ops: Seq<Op>,
    files: Seq<Result<Vec<u8>, String>>,
    order: Seq<usize>,
    bytes: Seq<u8>,
)
    requires
        ops_usable(ops),
        forall|a: int| 0 <= a < order.len() ==> order[a] < ops.len(),
    ensures
        fold_run(ops, files, order, bytes) is Some,
    decreases order.len(),
{
    if order.len() > 0 {
        lemma_fold_run_completes(ops, files, order.drop_last(), bytes);
        let op = ops[order.last() as int];
        assert(locator_usable(op_locator(op)));
        if let Some(Ok(b)) = fold_run(ops, files, order.drop_last(), bytes) {
            lemma_usable_resolvable(op_locator(op), b);
        }
    }
}

/// Once a prefix of the run stops (an error, or an empty anchor), the whole
/// run stops there.
proof fn lemma_fold_run_stops(
    ops: Seq<Op>,
    files: Seq<Result<Vec<u8>, String>>,
    order: Seq<usize>,
    bytes: Seq<u8>,
    k: int,
)
    requires
        0 <= k <= order.len(),
        !(fold_run(ops, files, order.take(k), bytes) is Some && fold_run(
            ops,
            files,
            order.take(k),
            bytes,
        )->Some_0 is Ok),
    ensures
        fold_run(ops, files, order, bytes) == fold_run(ops, files, order.take(k), bytes),
    decreases order.len() - k,
{
    if k < order.len() {
        assert(order.take(k + 1).drop_last() =~= order.take(k));
        lemma_fold_run_stops(ops, files, order, bytes, k + 1);
    } else {
        assert(order.take(k) =~= order);
    }
}

/// Applies one file's operations to its bytes, from the bottom of the file
/// up; `files[i]` is what reading the content file of `ops[i]` gave. `None`
/// when ordering or running them would test an empty anchor (see
/// [`file_run`]), which never happens when no anchor is empty.
pub fn apply_ops(ops: &[Op], bytes: &[u8], files: &[Result<Vec<u8>, String>]) -> (r: Option<
    Result<Vec<u8>, OpError>,
>)
    requires
        ops@.len() == files@.len(),
    ensures
        match (r, file_run(ops@, files@, bytes@)) {
            (None, None) => true,
            (Some(x), Some(s)) => agrees(x, s),
            _ => false,
        },
        r matches Some(x) ==> agrees(x, file_result(ops@, files@, bytes@)),
        ops_usable(ops@) ==> r is Some,
{
    proof {
        if ops_usable(ops@) {
            assert forall|i: int| 0 <= i < ops@.len() implies locator_resolvable(
                op_locator(#[trigger] ops@[i]),
                bytes@,
            ) by {
                lemma_usable_resolvable(op_locator(ops@[i]), bytes@);
            }
        }
    }
    let mut keys: Vec<usize> = Vec::new();
    let mut i: usize = 0;
    while i < ops.len()
        invariant
            0 <= i <= ops.len(),
            keys@ == sort_keys(ops@, bytes@).take(i as int),
            forall|j: int| 0 <= j < i ==> locator_resolvable(op_locator(#[trigger] ops@[j]), bytes@),
            ops_usable(ops@) ==> keys_resolvable(ops@, bytes@),
        decreases ops.len() - i,
    {
        let loc_ok = match &ops[i] {
            Op::Replace { locator, .. } => resolvable(locator, bytes),
            Op::Insert { locator, .. } => resolvable(locator, bytes),
            Op::Move { from, .. } => resolvable(from, bytes),
            Op::Indent { locator, .. } => resolvable(locator, bytes),
        };
        if !loc_ok {
            assert(!keys_resolvable(ops@, bytes@));
            return None;
        }
        let k = match op_start_line(&ops[i], bytes) {
            Some(n) => n,
            None => usize::MAX,
        };
        keys.push(k);
        assert(keys@ =~= sort_keys(ops@, bytes@).take(i + 1));
        i += 1;
    }
    assert(keys@ =~= sort_keys(ops@, bytes@));
    assert(keys_resolvable(ops@, bytes@));
    let order = order_by_descending_key(keys.as_slice());
    let ghost ord = order@;
    proof {
        lemma_fold_run_agrees(ops@, files@, ord, bytes@);
        if ops_usable(ops@) {
            lemma_fold_run_completes(ops@, files@, ord, bytes@);
        }
    }
    let mut cur: Vec<u8> = copy_bytes_of(bytes);
    let mut k: usize = 0;
    assert(ord.take(0) =~= Seq::<usize>::empty());
    while k < order.len()
        invariant
            ops@.len() == files@.len(),
            ord == order@,
            is_descending_order(ord, keys@),
            keys@.len() == ops@.len(),
            ord == descending_order(keys@, keys@.len()),
            keys@ == sort_keys(ops@, bytes@),
            keys_resolvable(ops@, bytes@),
            0 <= k <= order.len(),
            fold_run(ops@, files@, ord.take(k as int), bytes@) == Some(
                Ok::<Seq<u8>, OpError>(cur@),
            ),
        decreases order.len() - k,
    {
        let idx = order[k];
        assert(idx < ops.len());
        assert(ord.take(k + 1).drop_last() =~= ord.take(k as int));
        assert(ord.take(k + 1).last() == idx);
        if !op_resolvable_on(&ops[idx], cur.as_slice()) {
            proof {
                lemma_fold_run_stops(ops@, files@, ord, bytes@, k + 1);
            }
            return None;
        }
        match apply_one_op(&ops[idx], cur.as_slice(), &files[idx]) {
            Ok(next) => {
                cur = next;
            },
            Err(e) => {
                proof {
                    assert(fold_run(ops@, files@, ord.take(k + 1), bytes@) == Some(
                        op_result(ops@[idx as int], cur@, files@[idx as int]),
                    ));
                    lemma_fold_run_stops(ops@, files@, ord, bytes@, k + 1);
                    lemma_fold_run_agrees(ops@, files@, ord, bytes@);
                }
                return Some(Err(e));
            },
        }
        k += 1;
    }
    assert(ord.take(order.len() as int) =~= ord);
    Some(Ok(cur))
}

/// A copy of a byte slice.
fn copy_bytes_of(b: &[u8]) -> (r: Vec<u8>)
    ensures
        r@ == b@,
{
    vstd::slice::slice_to_vec(b)
}

/// The content of an operation, where it has one.
pub open spec fn content_spec(op: Op) -> Option<OpContent> {
    match op {
        Op::Replace { content, .. } => Some(content),
        Op::Insert { content, .. } => Some(content),
        _ => None,
    }
}

/// The content of an operation, where it has one.
pub fn content_of(op: &Op) -> (r: Option<&OpContent>)
    ensures
        match r {
            Some(c) => content_spec(*op) == Some(*c),
            None => content_spec(*op) is None,
        },
{
    match op {
        Op::Replace { content, .. } => Some(content),
        Op::Insert { content, .. } => Some(content),
        Op::Move { .. } => None,
        Op::Indent { .. } => None,
    }
}

/// `op` with its content replaced by `c` (an operation without content is
/// left as it is).
pub open spec fn with_content(op: Op, c: OpContent) -> Op {
    match op {
        Op::Replace { target, locator, was, revert, .. } => Op::Replace {
            target,
            locator,
            content: c,
            was,
            revert,
        },
        Op::Insert { target, locator, position, revert, .. } => Op::Insert {
            target,
            locator,
            content: c,
            position,
            revert,
        },
        other => other,
    }
}

/// `op` with its content replaced by `new_content`.
pub fn replace_content(op: Op, new_content: OpContent) -> (r: Op)
    ensures
        r == with_content(op, new_content),
{
    match op {
        Op::Replace { target, locator, was, revert, .. } => Op::Replace {
            target,
            locator,
            content: new_content,
            was,
            revert,
        },
        Op::Insert { target, locator, position, revert, .. } => Op::Insert {
            target,
            locator,
            content: new_content,
            position,
            revert,
        },
        other => other,
    }
}

/// The operation's content is `@-`.
pub open spec fn reads_stdin(op: Op) -> bool {
    content_spec(op) == Some(OpContent::Stdin)
}

/// Number of operations among `ops` whose content is `@-`.
pub open spec fn stdin_uses(ops: Seq<Op>) -> nat
    decreases ops.len(),
{
    if ops.len() == 0 {
        0
    } else {
        stdin_uses(ops.drop_last()) + if reads_stdin(ops.last()) {
            1nat
        } else {
            0nat
        }
    }
}

/// Binds every `@-` content to the manifest's standard input. At most one
/// operation may read it, and only when there is one.
pub fn materialize_stdin(ops: Vec<Op>, opts: &ExecOpts) -> (r: Result<Vec<Op>, ExecError>)
    ensures
        r is Ok <==> stdin_uses(ops@) == 0 || (stdin_uses(ops@) == 1 && opts.stdin_bytes is Some),
        r matches Ok(v) ==> v@.len() == ops@.len() && forall|i: int|
            0 <= i < ops@.len() ==> if reads_stdin(#[trigger] ops@[i]) {
                exists|b: Vec<u8>|
                    b@ == opts.stdin_bytes->Some_0@ && v@[i] == with_content(
                        ops@[i],
                        OpContent::Text(b),
                    )
            } else {
                v@[i] == ops@[i]
            },
        r matches Err(e) ==> e is Phase1,
        r matches Err(ExecError::Phase1 { path, msg }) ==> path@.len() == 0 && if opts.stdin_bytes is None {
            msg@ == "`@-` requires stdin to be provided to apply"@
        } else {
            msg@ == "`@-` (stdin content) may appear at most once per manifest"@
        },
{
    let ghost input = ops@;
    let mut seen = false;
    let mut out: Vec<Op> = Vec::new();
    let mut rest = ops;
    let n = rest.len();
    let mut i: usize = 0;
    while i < n
        invariant
            input == ops@,
            n == input.len(),
            rest@ == input.skip(i as int),
            0 <= i <= n,
            out@.len() == i,
            seen == (stdin_uses(input.take(i as int)) == 1),
            stdin_uses(input.take(i as int)) <= 1,
            seen ==> opts.stdin_bytes is Some,
            forall|j: int|
                0 <= j < i ==> if reads_stdin(#[trigger] input[j]) {
                    exists|b: Vec<u8>|
                        b@ == opts.stdin_bytes->Some_0@ && out@[j] == with_content(
                            input[j],
                            OpContent::Text(b),
                        )
                } else {
                    out@[j] == input[j]
                },
        decreases n - i,
    {
        let op = rest.remove(0);
        assert(op == input[i as int]);
        assert(rest@ =~= input.skip(i + 1));
        assert(input.take(i + 1).drop_last() =~= input.take(i as int));
        let needs = match content_of(&op) {
            Some(OpContent::Stdin) => true,
            _ => false,
        };
        if !needs {
            out.push(op);
        } else {
            assert(reads_stdin(input[i as int]));
            assert(input.take(i + 1).last() == input[i as int]);
            assert(stdin_uses(input.take(i + 1)) == stdin_uses(input.take(i as int)) + 1);
            if seen {
                proof {
                    lemma_stdin_uses_prefix(input, i + 1);
                }
                assert(stdin_uses(input) >= 2);
                return Err(
                    ExecError::Phase1 {
                        path: String::new(),
                        msg: "`@-` (stdin content) may appear at most once per manifest".to_owned(),
                    },
                );
            }
            let bytes = match &opts.stdin_bytes {
                Some(b) => copy_bytes(b),
                None => {
                    proof {
                        lemma_stdin_uses_prefix(input, i + 1);
                    }
                    return Err(
                        ExecError::Phase1 {
                            path: String::new(),
                            msg: "`@-` requires stdin to be provided to apply".to_owned(),
                        },
                    );
                },
            };
            seen = true;
            let ghost b = bytes;
            let new_op = replace_content(op, OpContent::Text(bytes));
            out.push(new_op);
            assert(out@[i as int] == with_content(input[i as int], OpContent::Text(b)));
        }
        i += 1;
    }
    assert(input.take(n as int) =~= input);
    Ok(out)
}

/// Uses in a prefix are uses of the whole.
proof fn lemma_stdin_uses_prefix(ops: Seq<Op>, k: int)
    requires
        0 <= k <= ops.len(),
    ensures
        stdin_uses(ops.take(k)) <= stdin_uses(ops),
    decreases ops.len() - k,
{
    if k < ops.len() {
        lemma_stdin_uses_prefix(ops, k + 1);
        assert(ops.take(k + 1).drop_last() =~= ops.take(k));
    } else {
        assert(ops.take(k) =~= ops);
    }
}

/// `s` cut at every `\n` (the `\n` dropped; an empty last piece kept).
pub open spec fn split_at_nl(s: Seq<char>) -> Seq<Seq<char>>
    decreases s.len(),
{
    if s.len() == 0 {
        seq![Seq::<char>::empty()]
    } else if s.last() == '\n' {
        split_at_nl(s.drop_last()).push(Seq::empty())
    } else {
        let p = split_at_nl(s.drop_last());
        p.update(p.len() - 1, p.last().push(s.last()))
    }
}

/// An entry of a file list: not empty and not a `#` comment.
pub open spec fn is_entry(t: Seq<char>) -> bool {
    t.len() > 0 && t[0] != '#'
}

/// The trimmed pieces that are entries, in order.
pub open spec fn entries_of(pieces: Seq<Seq<char>>) -> Seq<Seq<char>>
    decreases pieces.len(),
{
    if pieces.len() == 0 {
        Seq::empty()
    } else {
        let t = trim(pieces.last());
        if is_entry(t) {
            entries_of(pieces.drop_last()).push(t)
        } else {
            entries_of(pieces.drop_last())
        }
    }
}

/// The paths a `--files-from` list names: its lines, trimmed, without the
/// empty ones and the `#` comments.
pub fn files_from_entries(list: &str) -> (r: Vec<String>)
    ensures
        r@.map_values(|x: String| x@) == entries_of(split_at_nl(list@)),
{
    let cs = chars_of(list);
    let mut out: Vec<String> = Vec::new();
    let mut cur: Vec<char> = Vec::new();
    let mut i: usize = 0;
    assert(cs@.take(0) =~= Seq::<char>::empty());
    while i < cs.len()
        invariant
            cs@ == list@,
            0 <= i <= cs.len(),
            split_at_nl(cs@.take(i as int)) == split_at_nl(cs@.take(i as int)).drop_last().push(
                cur@,
            ),
            out@.map_values(|x: String| x@) == entries_of(
                split_at_nl(cs@.take(i as int)).drop_last(),
            ),
            split_at_nl(cs@.take(i as int)).len() >= 1,
        decreases cs.len() - i,
    {
        let c = cs[i];
        let ghost pre = cs@.take(i as int);
        let ghost pieces = split_at_nl(pre);
        assert(cs@.take(i + 1).drop_last() =~= pre);
        assert(cs@.take(i + 1).last() == c);
        if c == '\n' {
            let t = trim_chars(cur.as_slice());
            let keep = t.len() > 0 && t[0] != '#';
            if keep {
                out.push(string_of(t.as_slice()));
            }
            proof {
                let np = split_at_nl(cs@.take(i + 1));
                assert(np == pieces.push(Seq::empty()));
                assert(np.drop_last() =~= pieces);
                assert(pieces.drop_last().push(pieces.last()) =~= pieces);
                assert(pieces.last() == cur@);
                assert(out@.map_values(|x: String| x@) =~= entries_of(pieces));
                assert(np =~= np.drop_last().push(Seq::<char>::empty()));
            }
            cur = Vec::new();
        } else {
            cur.push(c);
            proof {
                let np = split_at_nl(cs@.take(i + 1));
                assert(np == pieces.update(pieces.len() - 1, pieces.last().push(c)));
                assert(np.drop_last() =~= pieces.drop_last());
                assert(np =~= np.drop_last().push(cur@));
            }
        }
        i += 1;
    }
    assert(cs@.take(cs.len() as int) =~= cs@);
    let t = trim_chars(cur.as_slice());
    let keep = t.len() > 0 && t[0] != '#';
    if keep {
        out.push(string_of(t.as_slice()));
    }
    proof {
        let pieces = split_at_nl(cs@);
        assert(pieces.drop_last().push(pieces.last()) =~= pieces);
        assert(out@.map_values(|x: String| x@) =~= entries_of(pieces));
    }
    out
}

} // verus!
