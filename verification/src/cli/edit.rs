//! What the single-file commands decide once their file is read: the edit
//! that runs, the outcome of a pattern replacement that touches nothing,
//! the option combinations they refuse, and the exit code of each failure.

use vstd::prelude::*;
use vstd::utf8::encode_utf8;

use crate::apply::commit::{
    agrees, apply_replace, effective_pair, holds_forward, holds_forward_text, load_op_content,
    payload_result, replace_op_result, OpError,
};
use crate::apply::{OpContent, Was};
use crate::cli::common::{line_range, parse_line_range, ArgsError};
use crate::output::exit::{CHECK, USAGE};
use crate::text::lines::{line_count, plain_lines};
use crate::text::location::{
    extract_line_range_with_newline, locator_resolvable, range_bytes, resolve, resolve_result,
    split_lines, Count, Locator, LocatorView,
};
use crate::text::ops::indent::IndentOp;
use crate::text::ops::replace::{
    count_limit, count_touched, replace_pattern, replace_range, replace_range_result,
};
use crate::text::pattern::{
    bytes_regex_accepts, bytes_regex_match_starts, bytes_regex_replacen, line_regex_accepts,
    ByteRegex, LineRegex,
};
use crate::apply::commit::effective_pattern_replacement;

verus! {

/// Why a single-file edit did not produce new bytes.
#[derive(Debug)]
pub enum EditError {
    /// The edit itself failed.
    Op(OpError),
    /// A pattern replacement matched nothing.
    NoMatch,
}

/// An optional text as characters.
pub open spec fn opt_chars(s: Option<&str>) -> Option<Seq<char>> {
    match s {
        Some(v) => Some(v@),
        None => None,
    }
}

/// A replacement's outcome with its error taken as an edit error.
pub open spec fn lift(s: Result<Seq<u8>, OpError>) -> Result<Seq<u8>, EditError> {
    match s {
        Ok(b) => Ok(b),
        Err(e) => Err(EditError::Op(e)),
    }
}

/// A computed edit held against its specification: the same bytes or the
/// same error.
pub open spec fn edit_agrees(r: Result<Vec<u8>, EditError>, s: Result<Seq<u8>, EditError>) -> bool {
    match (r, s) {
        (Ok(v), Ok(b)) => v@ == b,
        (Err(e), Err(f)) => e == f,
        _ => false,
    }
}

/// What `replace --revert` does with a range locator: it needs `--lines` and
/// the former text (`--was`), reads the text the forward run wrote, and only
/// then finds the range, which must hold that text; the range then gets the
/// former text back.
pub open spec fn range_revert_result(
    bytes: Seq<u8>,
    locator: Locator,
    content: OpContent,
    was: Option<Was>,
    file: Result<Vec<u8>, String>,
) -> Result<Seq<u8>, OpError> {
    if !(locator is Lines) {
        Err(OpError::RevertNeedsLines)
    } else {
        match was {
            None => Err(OpError::RevertNeedsWas),
            Some(Was::File(_)) => Err(OpError::WasNotLoaded),
            Some(Was::Bytes(w)) => match payload_result(content, file) {
                Err(e) => Err(e),
                Ok(text) => match resolve_result(locator, bytes) {
                    Err(e) => Err(OpError::Locate(e)),
                    Ok(r) => if !holds_forward_text(
                        range_bytes(bytes, r.start_line as int, r.end_line as int),
                        text,
                    ) {
                        Err(OpError::RevertMismatch { start: r.start_line, end: r.end_line })
                    } else {
                        match replace_range_result(bytes, r.start_line, r.end_line, w@) {
                            Ok(v) => Ok(v),
                            Err(e) => Err(OpError::Replace(e)),
                        }
                    },
                },
            },
        }
    }
}

/// Runs `replace --revert` with a range locator (see
/// [`range_revert_result`]).
fn range_revert(
    bytes: &[u8],
    locator: &Locator,
    content: &OpContent,
    was: &Option<Was>,
    file: &Result<Vec<u8>, String>,
) -> (r: Result<Vec<u8>, OpError>)
    ensures
        agrees(r, range_revert_result(bytes@, *locator, *content, *was, *file)),
{
    let is_lines = match locator {
        Locator::Lines { .. } => true,
        _ => false,
    };
    if !is_lines {
        return Err(OpError::RevertNeedsLines);
    }
    let was_bytes = match was {
        None => {
            return Err(OpError::RevertNeedsWas);
        },
        Some(Was::File(_)) => {
            return Err(OpError::WasNotLoaded);
        },
        Some(Was::Bytes(w)) => w,
    };
    let forward_text = match load_op_content(content, file) {
        Ok(t) => t,
        Err(e) => {
            return Err(e);
        },
    };
    let r = match resolve(locator, bytes) {
        Ok(r) => r,
        Err(e) => {
            return Err(OpError::Locate(e));
        },
    };
    let actual = extract_line_range_with_newline(bytes, r.start_line, r.end_line);
    if !holds_forward(actual.as_slice(), forward_text.as_slice()) {
        return Err(OpError::RevertMismatch { start: r.start_line, end: r.end_line });
    }
    match replace_range(bytes, r.start_line, r.end_line, was_bytes.as_slice()) {
        Ok(v) => Ok(v),
        Err(e) => Err(OpError::Replace(e)),
    }
}

/// What `replace` does to a file: the replacement of a manifest operation
/// with the same arguments, except that a pattern replacement that touches
/// no match is refused, and that a range revert reads the forward text
/// before it finds the range (see [`range_revert_result`]).
pub open spec fn replace_command_result(
    bytes: Seq<u8>,
    locator: Locator,
    content: OpContent,
    was: Option<Was>,
    revert: bool,
    file: Result<Vec<u8>, String>,
) -> Result<Seq<u8>, EditError> {
    let plain = lift(replace_op_result(bytes, locator, content, was, revert, file));
    match (locator, content) {
        (Locator::Pattern { regex, count }, OpContent::Repl(s)) => {
            let pr = effective_pair(regex.pattern_view(), s@, revert);
            if bytes_regex_accepts(pr.0) && count_touched(
                count,
                bytes_regex_match_starts(pr.0, bytes).len(),
            ) == 0 {
                Err(EditError::NoMatch)
            } else {
                plain
            }
        },
        (Locator::Pattern { .. }, _) => plain,
        _ => if revert {
            lift(range_revert_result(bytes, locator, content, was, file))
        } else {
            plain
        },
    }
}

/// Runs `replace` on a file's bytes (see [`replace_command_result`]);
/// `file` is what reading the content file gave, where there is one.
pub fn replace_command(
    bytes: &[u8],
    locator: &Locator,
    content: &OpContent,
    was: &Option<Was>,
    revert: bool,
    file: &Result<Vec<u8>, String>,
) -> (r: Result<Vec<u8>, EditError>)
    requires
        revert || locator_resolvable(*locator, bytes@),
    ensures
        edit_agrees(r, replace_command_result(bytes@, *locator, *content, *was, revert, *file)),
{
    if let Locator::Pattern { regex, count } = locator {
        if let OpContent::Repl(s) = content {
            let (pat, rep) = effective_pattern_replacement(regex.as_str(), s.as_str(), revert);
            if let Some(re) = ByteRegex::new(pat.as_str()) {
                let (out, n) = replace_pattern(bytes, &re, rep.as_str(), *count);
                if n == 0 {
                    return Err(EditError::NoMatch);
                }
                return Ok(out);
            }
        }
    }
    let is_pattern = match locator {
        Locator::Pattern { .. } => true,
        _ => false,
    };
    if revert && !is_pattern {
        return match range_revert(bytes, locator, content, was, file) {
            Ok(v) => Ok(v),
            Err(e) => Err(EditError::Op(e)),
        };
    }
    match apply_replace(bytes, locator, content, was, revert, file) {
        Ok(v) => Ok(v),
        Err(e) => Err(EditError::Op(e)),
    }
}

/// The exit code of a failed edit: a failed check (an expectation that does
/// not hold, or nothing to replace) or a usage error.
pub open spec fn edit_exit(e: EditError) -> u8 {
    match e {
        EditError::NoMatch => CHECK,
        EditError::Op(OpError::WasMismatch { .. }) => CHECK,
        EditError::Op(OpError::RevertMismatch { .. }) => CHECK,
        EditError::Op(OpError::InsertRevertMismatch { .. }) => CHECK,
        _ => USAGE,
    }
}

/// The exit code of a failed edit (see [`edit_exit`]).
pub fn edit_exit_code(e: &EditError) -> (r: u8)
    ensures
        r == edit_exit(*e),
{
    match e {
        EditError::NoMatch => CHECK,
        EditError::Op(OpError::WasMismatch { .. }) => CHECK,
        EditError::Op(OpError::RevertMismatch { .. }) => CHECK,
        EditError::Op(OpError::InsertRevertMismatch { .. }) => CHECK,
        _ => USAGE,
    }
}

/// Why the source options of `move` name no block.
#[derive(Debug, Clone, Copy, PartialEq, Eq, Structural)]
pub enum MoveArgsError {
    /// `--from-lines` and `--from-match-line` together.
    ConflictingSources,
    /// Neither of them.
    MissingSource,
    /// `--from-lines` is not a line range.
    Lines(ArgsError),
    /// `--from-match-line` is not a valid regex.
    InvalidRegex,
    /// A move by a matched line cannot be undone: after the move the regex
    /// finds another block.
    RevertNeedsLines,
}

/// The block `move` takes: `--from-lines` or the `occurrence`-th line (at
/// least the first) that `--from-match-line` matches.
pub open spec fn move_source_view(
    from_lines: Option<Seq<char>>,
    from_match_line: Option<Seq<char>>,
    occurrence: usize,
    revert: bool,
) -> Result<LocatorView, MoveArgsError> {
    match (from_lines, from_match_line) {
        (Some(_), Some(_)) => Err(MoveArgsError::ConflictingSources),
        (None, None) => Err(MoveArgsError::MissingSource),
        (Some(l), None) => match line_range(l) {
            Ok(se) => Ok(LocatorView::Lines(se.0, se.1)),
            Err(e) => Err(MoveArgsError::Lines(e)),
        },
        (None, Some(m)) => if !line_regex_accepts(m) {
            Err(MoveArgsError::InvalidRegex)
        } else if revert {
            Err(MoveArgsError::RevertNeedsLines)
        } else {
            Ok(
                LocatorView::MatchLine(
                    m,
                    if occurrence < 1 {
                        1
                    } else {
                        occurrence
                    },
                ),
            )
        },
    }
}

/// `--from-match-line RE --from-occurrence N` (a regex the `regex` crate
/// accepts, not run backwards) takes the `N`-th matching line, the first
/// when `N` is 0.
pub proof fn lemma_move_source_occurrence(m: Seq<char>, occurrence: usize)
    requires
        line_regex_accepts(m),
    ensures
        move_source_view(None, Some(m), occurrence, false) == Ok::<LocatorView, MoveArgsError>(
            LocatorView::MatchLine(
                m,
                if occurrence == 0 {
                    1
                } else {
                    occurrence
                },
            ),
        ),
{
}

/// The block `move` takes (see [`move_source_view`]).
pub fn move_source(
    from_lines: Option<&str>,
    from_match_line: Option<&str>,
    occurrence: usize,
    revert: bool,
) -> (r: Result<Locator, MoveArgsError>)
    ensures
        match r {
            Ok(l) => move_source_view(opt_chars(from_lines), opt_chars(from_match_line), occurrence, revert)
                == Ok::<LocatorView, MoveArgsError>(l@),
            Err(e) => move_source_view(opt_chars(from_lines), opt_chars(from_match_line), occurrence, revert)
                == Err::<LocatorView, MoveArgsError>(e),
        },
        from_lines is None && from_match_line is Some && r is Ok ==> (r->Ok_0 matches Locator::MatchLine {
            regex,
            occurrence: o,
        } && regex.pattern_view() == from_match_line->0@ && o == (if occurrence == 0 {
            1
        } else {
            occurrence
        })),
        from_lines is None && from_match_line is Some && line_regex_accepts(from_match_line->0@)
            && !revert ==> r is Ok,
        from_lines is Some && from_match_line is None && r is Ok ==> r->Ok_0 is Lines,
{
    match (from_lines, from_match_line) {
        (Some(_), Some(_)) => Err(MoveArgsError::ConflictingSources),
        (None, None) => Err(MoveArgsError::MissingSource),
        (Some(l), None) => match parse_line_range(l) {
            Ok((start, end)) => Ok(Locator::Lines { start, end }),
            Err(e) => Err(MoveArgsError::Lines(e)),
        },
        (None, Some(m)) => match LineRegex::new(m) {
            None => Err(MoveArgsError::InvalidRegex),
            Some(regex) => if revert {
                Err(MoveArgsError::RevertNeedsLines)
            } else {
                let occ = if occurrence < 1 {
                    1
                } else {
                    occurrence
                };
                Ok(Locator::MatchLine { regex, occurrence: occ })
            },
        },
    }
}

/// Why the options of `indent` name no change.
#[derive(Debug, Clone, Copy, PartialEq, Eq, Structural)]
pub enum IndentArgsError {
    /// Neither `--lines` nor `--all`.
    MissingRange,
    /// Both `--lines` and `--all`.
    ConflictingRange,
    /// `--lines` is not a line range.
    Lines(ArgsError),
    /// None of `--add`, `--remove`, `--tabs-to-spaces`, `--spaces-to-tabs`.
    MissingOp,
    /// More than one of them.
    ConflictingOps,
}

/// The lines `indent` changes in a file of `total` lines: the `--lines`
/// range, or every line for `--all` (`None`: an empty file, where `--all`
/// has nothing to change).
pub open spec fn indent_range_view(lines: Option<Seq<char>>, all: bool, total: nat) -> Result<
    Option<(usize, usize)>,
    IndentArgsError,
> {
    match (lines, all) {
        (Some(_), true) => Err(IndentArgsError::ConflictingRange),
        (None, false) => Err(IndentArgsError::MissingRange),
        (Some(l), false) => match line_range(l) {
            Ok(se) => Ok(Some(se)),
            Err(e) => Err(IndentArgsError::Lines(e)),
        },
        (None, true) => if total == 0 {
            Ok(None)
        } else {
            Ok(Some((1, total as usize)))
        },
    }
}

/// The lines `indent` changes in `bytes` (see [`indent_range_view`]).
pub fn indent_command_range(lines: Option<&str>, all: bool, bytes: &[u8]) -> (r: Result<
    Option<(usize, usize)>,
    IndentArgsError,
>)
    ensures
        r == indent_range_view(opt_chars(lines), all, line_count(bytes@)),
{
    match (lines, all) {
        (Some(_), true) => Err(IndentArgsError::ConflictingRange),
        (None, false) => Err(IndentArgsError::MissingRange),
        (Some(l), false) => match parse_line_range(l) {
            Ok(se) => Ok(Some(se)),
            Err(e) => Err(IndentArgsError::Lines(e)),
        },
        (None, true) => {
            let ls = split_lines(bytes);
            let total = ls.len();
            proof {
                assert(ls@.map_values(|v: Vec<u8>| v@).len() == plain_lines(bytes@).len());
                assert(total == line_count(bytes@));
            }
            if total == 0 {
                Ok(None)
            } else {
                Ok(Some((1, total)))
            }
        },
    }
}

/// The change that undoes `op`: adding and removing spaces swap, and so do
/// the two conversions.
pub open spec fn reversed_indent(op: IndentOp) -> IndentOp {
    match op {
        IndentOp::Add(n) => IndentOp::Remove(n),
        IndentOp::Remove(n) => IndentOp::Add(n),
        IndentOp::TabsToSpaces(n) => IndentOp::SpacesToTabs(n),
        IndentOp::SpacesToTabs(n) => IndentOp::TabsToSpaces(n),
    }
}

/// How many of the options are given.
pub open spec fn given(a: Option<usize>, b: Option<usize>, c: Option<usize>, d: Option<usize>) -> int {
    (if a is Some { 1int } else { 0int }) + (if b is Some { 1int } else { 0int }) + (if c is Some {
        1int
    } else {
        0int
    }) + (if d is Some { 1int } else { 0int })
}

/// The change `indent` makes: the one option given, reversed for `revert`.
pub open spec fn indent_op_view(
    add: Option<usize>,
    remove: Option<usize>,
    tabs_to_spaces: Option<usize>,
    spaces_to_tabs: Option<usize>,
    revert: bool,
) -> Result<IndentOp, IndentArgsError> {
    let k = given(add, remove, tabs_to_spaces, spaces_to_tabs);
    if k == 0 {
        Err(IndentArgsError::MissingOp)
    } else if k > 1 {
        Err(IndentArgsError::ConflictingOps)
    } else {
        let op = match (add, remove, tabs_to_spaces, spaces_to_tabs) {
            (Some(n), _, _, _) => IndentOp::Add(n),
            (_, Some(n), _, _) => IndentOp::Remove(n),
            (_, _, Some(n), _) => IndentOp::TabsToSpaces(n),
            (_, _, _, Some(n)) => IndentOp::SpacesToTabs(n),
            _ => IndentOp::Add(0),
        };
        Ok(
            if revert {
                reversed_indent(op)
            } else {
                op
            },
        )
    }
}

/// Each option, given alone, names its own change; `revert` names the
/// change that undoes it: `--add n` adds `n` spaces (removes them backwards),
/// `--remove n` the other way round, `--tabs-to-spaces n` turns each leading
/// tab into `n` spaces (folds them back backwards), `--spaces-to-tabs n` the
/// other way round.
pub open spec fn indent_choice(
    add: Option<usize>,
    remove: Option<usize>,
    tabs_to_spaces: Option<usize>,
    spaces_to_tabs: Option<usize>,
    revert: bool,
    r: Result<IndentOp, IndentArgsError>,
) -> bool {
    &&& (add is Some && remove is None && tabs_to_spaces is None && spaces_to_tabs is None) ==> r == Ok::<
        IndentOp,
        IndentArgsError,
    >(
        if revert {
            IndentOp::Remove(add->0)
        } else {
            IndentOp::Add(add->0)
        },
    )
    &&& (remove is Some && add is None && tabs_to_spaces is None && spaces_to_tabs is None) ==> r == Ok::<
        IndentOp,
        IndentArgsError,
    >(
        if revert {
            IndentOp::Add(remove->0)
        } else {
            IndentOp::Remove(remove->0)
        },
    )
    &&& (tabs_to_spaces is Some && add is None && remove is None && spaces_to_tabs is None) ==> r == Ok::<
        IndentOp,
        IndentArgsError,
    >(
        if revert {
            IndentOp::SpacesToTabs(tabs_to_spaces->0)
        } else {
            IndentOp::TabsToSpaces(tabs_to_spaces->0)
        },
    )
    &&& (spaces_to_tabs is Some && add is None && remove is None && tabs_to_spaces is None) ==> r == Ok::<
        IndentOp,
        IndentArgsError,
    >(
        if revert {
            IndentOp::TabsToSpaces(spaces_to_tabs->0)
        } else {
            IndentOp::SpacesToTabs(spaces_to_tabs->0)
        },
    )
}

/// The change the options of `indent` name is the one each option stands
/// for (see [`indent_choice`]).
pub proof fn lemma_indent_options_choose_their_change(
    add: Option<usize>,
    remove: Option<usize>,
    tabs_to_spaces: Option<usize>,
    spaces_to_tabs: Option<usize>,
    revert: bool,
)
    ensures
        indent_choice(
            add,
            remove,
            tabs_to_spaces,
            spaces_to_tabs,
            revert,
            indent_op_view(add, remove, tabs_to_spaces, spaces_to_tabs, revert),
        ),
{
}

/// The change `indent` makes (see [`indent_op_view`]).
pub fn indent_command_op(
    add: Option<usize>,
    remove: Option<usize>,
    tabs_to_spaces: Option<usize>,
    spaces_to_tabs: Option<usize>,
    revert: bool,
) -> (r: Result<IndentOp, IndentArgsError>)
    ensures
        r == indent_op_view(add, remove, tabs_to_spaces, spaces_to_tabs, revert),
        indent_choice(add, remove, tabs_to_spaces, spaces_to_tabs, revert, r),
{
    let mut k: usize = 0;
    if add.is_some() {
        k += 1;
    }
    if remove.is_some() {
        k += 1;
    }
    if tabs_to_spaces.is_some() {
        k += 1;
    }
    if spaces_to_tabs.is_some() {
        k += 1;
    }
    if k == 0 {
        return Err(IndentArgsError::MissingOp);
    }
    if k > 1 {
        return Err(IndentArgsError::ConflictingOps);
    }
    let op = match (add, remove, tabs_to_spaces, spaces_to_tabs) {
        (Some(n), _, _, _) => IndentOp::Add(n),
        (_, Some(n), _, _) => IndentOp::Remove(n),
        (_, _, Some(n), _) => IndentOp::TabsToSpaces(n),
        (_, _, _, Some(n)) => IndentOp::SpacesToTabs(n),
        _ => IndentOp::Add(0),
    };
    if revert {
        match op {
            IndentOp::Add(n) => Ok(IndentOp::Remove(n)),
            IndentOp::Remove(n) => Ok(IndentOp::Add(n)),
            IndentOp::TabsToSpaces(n) => Ok(IndentOp::SpacesToTabs(n)),
            IndentOp::SpacesToTabs(n) => Ok(IndentOp::TabsToSpaces(n)),
        }
    } else {
        Ok(op)
    }
}

} // verus!
