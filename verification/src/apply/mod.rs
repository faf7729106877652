//! Batch manifests: the operations they list and how each is carried out.
//!
//! The native, JSON and YAML manifests all describe a list of [`Op`]s with
//! the same meaning; the executor groups them by file, orders each group
//! from the bottom of the file up, and applies them.

pub mod commit;
pub mod detect;
pub mod group;
pub mod parse_native;
pub mod laws;
pub mod raw;

use vstd::prelude::*;

use crate::text::location::{Count, Locator, LocatorView};
use crate::text::pattern::{ByteRegex, LineRegex};

verus! {

/// The files an operation edits.
pub enum Target {
    /// One file.
    File(String),
    /// Every path listed, one per line, in a list file.
    FilesFrom(String),
}

/// The text an operation writes.
pub enum OpContent {
    /// Literal bytes.
    Text(Vec<u8>),
    /// The bytes of a file (`@path`).
    File(String),
    /// The bytes of the manifest's standard input (`@-`).
    Stdin,
    /// A replacement template (pattern replacements only).
    Repl(String),
    /// Nothing: the range is deleted.
    Empty,
    /// An operation that writes no text (a move or an indent).
    Nothing,
}

impl OpContent {
    /// Whether this is the content of an operation that writes none.
    pub fn is_none(&self) -> (r: bool)
        ensures
            r == (*self matches OpContent::Nothing),
    {
        match self {
            OpContent::Nothing => true,
            _ => false,
        }
    }
}

/// The bytes a replaced range is expected to hold.
pub enum Was {
    /// Given literally.
    Bytes(Vec<u8>),
    /// The bytes of a file, read before the manifest runs.
    File(String),
}

/// An indentation change as a manifest states it.
#[derive(Debug, Clone, Copy, PartialEq, Eq, Structural)]
pub enum IndentKind {
    /// Add `n` spaces (`n >= 0`) or remove `-n` (`n < 0`).
    Adjust(i64),
    TabsToSpaces(usize),
    SpacesToTabs(usize),
}

/// Where text goes relative to its anchor line.
#[derive(Debug, Clone, Copy, PartialEq, Eq, Structural)]
pub enum MovePosition {
    Before,
    After,
}

/// One operation of a manifest.
pub enum Op {
    Replace { target: Target, locator: Locator, content: OpContent, was: Option<Was>, revert: bool },
    Insert {
        target: Target,
        locator: Locator,
        content: OpContent,
        position: MovePosition,
        revert: bool,
    },
    Move { target: Target, from: Locator, to_line: usize, position: MovePosition, revert: bool },
    Indent { target: Target, locator: Locator, kind: IndentKind, revert: bool },
}

/// The target of an operation.
pub open spec fn op_target(op: Op) -> Target {
    match op {
        Op::Replace { target, .. } => target,
        Op::Insert { target, .. } => target,
        Op::Move { target, .. } => target,
        Op::Indent { target, .. } => target,
    }
}

/// The locator of an operation (the block a move takes).
pub open spec fn op_locator(op: Op) -> Locator {
    match op {
        Op::Replace { locator, .. } => locator,
        Op::Insert { locator, .. } => locator,
        Op::Move { from, .. } => from,
        Op::Indent { locator, .. } => locator,
    }
}

impl Op {
    /// The files the operation edits.
    pub fn target(&self) -> (r: &Target)
        ensures
            *r == op_target(*self),
    {
        match self {
            Op::Replace { target, .. } => target,
            Op::Insert { target, .. } => target,
            Op::Move { target, .. } => target,
            Op::Indent { target, .. } => target,
        }
    }
}

/// A copy of a string.
pub fn copy_string(s: &String) -> (r: String)
    ensures
        r@ == s@,
{
    s.clone()
}

/// A copy of a byte vector.
pub fn copy_bytes(v: &Vec<u8>) -> (r: Vec<u8>)
    ensures
        r@ == v@,
{
    vstd::slice::slice_to_vec(v.as_slice())
}

/// A target as values.
pub enum TargetView {
    File(Seq<char>),
    FilesFrom(Seq<char>),
}

impl View for Target {
    type V = TargetView;

    open spec fn view(&self) -> TargetView {
        match self {
            Target::File(p) => TargetView::File(p@),
            Target::FilesFrom(p) => TargetView::FilesFrom(p@),
        }
    }
}

/// A content as values.
pub enum ContentView {
    Text(Seq<u8>),
    File(Seq<char>),
    Stdin,
    Repl(Seq<char>),
    Empty,
    Nothing,
}

impl View for OpContent {
    type V = ContentView;

    open spec fn view(&self) -> ContentView {
        match self {
            OpContent::Text(b) => ContentView::Text(b@),
            OpContent::File(p) => ContentView::File(p@),
            OpContent::Stdin => ContentView::Stdin,
            OpContent::Repl(s) => ContentView::Repl(s@),
            OpContent::Empty => ContentView::Empty,
            OpContent::Nothing => ContentView::Nothing,
        }
    }
}

/// An expectation as values.
pub enum WasView {
    Bytes(Seq<u8>),
    File(Seq<char>),
}

impl View for Was {
    type V = WasView;

    open spec fn view(&self) -> WasView {
        match self {
            Was::Bytes(b) => WasView::Bytes(b@),
            Was::File(p) => WasView::File(p@),
        }
    }
}

/// An optional expectation as values.
pub open spec fn was_view(w: Option<Was>) -> Option<WasView> {
    match w {
        Some(x) => Some(x@),
        None => None,
    }
}

/// An operation as values.
pub enum OpView {
    Replace(TargetView, LocatorView, ContentView, Option<WasView>, bool),
    Insert(TargetView, LocatorView, ContentView, MovePosition, bool),
    Move(TargetView, LocatorView, usize, MovePosition, bool),
    Indent(TargetView, LocatorView, IndentKind, bool),
}

impl View for Op {
    type V = OpView;

    open spec fn view(&self) -> OpView {
        match self {
            Op::Replace { target, locator, content, was, revert } => OpView::Replace(
                target@,
                locator@,
                content@,
                was_view(*was),
                *revert,
            ),
            Op::Insert { target, locator, content, position, revert } => OpView::Insert(
                target@,
                locator@,
                content@,
                *position,
                *revert,
            ),
            Op::Move { target, from, to_line, position, revert } => OpView::Move(
                target@,
                from@,
                *to_line,
                *position,
                *revert,
            ),
            Op::Indent { target, locator, kind, revert } => OpView::Indent(
                target@,
                locator@,
                *kind,
                *revert,
            ),
        }
    }
}

/// `op` aimed at `t`.
pub open spec fn with_target(op: OpView, t: TargetView) -> OpView {
    match op {
        OpView::Replace(_, l, c, w, r) => OpView::Replace(t, l, c, w, r),
        OpView::Insert(_, l, c, p, r) => OpView::Insert(t, l, c, p, r),
        OpView::Move(_, l, n, p, r) => OpView::Move(t, l, n, p, r),
        OpView::Indent(_, l, k, r) => OpView::Indent(t, l, k, r),
    }
}

/// A copy of a target.
pub fn copy_target(t: &Target) -> (r: Target)
    ensures
        r@ == t@,
{
    match t {
        Target::File(p) => Target::File(copy_string(p)),
        Target::FilesFrom(p) => Target::FilesFrom(copy_string(p)),
    }
}

/// A copy of a content.
pub fn copy_content(c: &OpContent) -> (r: OpContent)
    ensures
        r@ == c@,
{
    match c {
        OpContent::Text(b) => OpContent::Text(copy_bytes(b)),
        OpContent::File(p) => OpContent::File(copy_string(p)),
        OpContent::Stdin => OpContent::Stdin,
        OpContent::Repl(s) => OpContent::Repl(copy_string(s)),
        OpContent::Empty => OpContent::Empty,
        OpContent::Nothing => OpContent::Nothing,
    }
}

/// A copy of an expectation.
pub fn copy_was(w: &Option<Was>) -> (r: Option<Was>)
    ensures
        was_view(r) == was_view(*w),
{
    match w {
        None => None,
        Some(Was::Bytes(b)) => Some(Was::Bytes(copy_bytes(b))),
        Some(Was::File(p)) => Some(Was::File(copy_string(p))),
    }
}

/// A copy of a locator, its regexes compiled again from their patterns.
pub fn clone_locator(loc: &Locator) -> (r: Locator)
    ensures
        r@ == loc@,
{
    match loc {
        Locator::Lines { start, end } => Locator::Lines { start: *start, end: *end },
        Locator::MatchLine { regex, occurrence } => Locator::MatchLine {
            regex: regex.duplicate(),
            occurrence: *occurrence,
        },
        Locator::Between { start, end, start_occ, end_occ, inclusive } => Locator::Between {
            start: copy_bytes(start),
            end: copy_bytes(end),
            start_occ: *start_occ,
            end_occ: *end_occ,
            inclusive: *inclusive,
        },
        Locator::BetweenRe { start, end, start_occ, end_occ, inclusive } => Locator::BetweenRe {
            start: start.duplicate(),
            end: end.duplicate(),
            start_occ: *start_occ,
            end_occ: *end_occ,
            inclusive: *inclusive,
        },
        Locator::Pattern { regex, count } => Locator::Pattern {
            regex: regex.duplicate(),
            count: *count,
        },
    }
}

/// `op` aimed at `target` instead of its own target.
pub fn clone_with_target(op: &Op, target: Target) -> (r: Op)
    ensures
        r@ == with_target(op@, target@),
{
    match op {
        Op::Replace { locator, content, was, revert, .. } => Op::Replace {
            target,
            locator: clone_locator(locator),
            content: copy_content(content),
            was: copy_was(was),
            revert: *revert,
        },
        Op::Insert { locator, content, position, revert, .. } => Op::Insert {
            target,
            locator: clone_locator(locator),
            content: copy_content(content),
            position: *position,
            revert: *revert,
        },
        Op::Move { from, to_line, position, revert, .. } => Op::Move {
            target,
            from: clone_locator(from),
            to_line: *to_line,
            position: *position,
            revert: *revert,
        },
        Op::Indent { locator, kind, revert, .. } => Op::Indent {
            target,
            locator: clone_locator(locator),
            kind: *kind,
            revert: *revert,
        },
    }
}

} // verus!
