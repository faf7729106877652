//! The JSON and YAML manifests: an array of operation objects.
//!
//! A document is read into [`RawOp`]s (one per object, fields as plain
//! values); each becomes an [`Op`] here, with the same meaning as in the
//! native format.
//!
//! ```json
//! [
//!   {"op": "replace", "file": "a.txt", "lines": "30", "text": "X"},
//!   {"op": "replace", "files-from": "list.txt", "pattern": "OLD", "repl": "NEW", "count": "all"},
//!   {"op": "insert", "file": "a.txt", "lines": 5, "where": "after", "text": "X"},
//!   {"op": "move", "file": "a.txt", "lines": "10-20", "to": 100},
//!   {"op": "indent", "file": "a.txt", "lines": "30-45", "by": 2}
//! ]
//! ```

use vstd::prelude::*;
use vstd::utf8::encode_utf8;

use crate::apply::detect::{chars_are, lower, to_ascii_lower};
use crate::apply::{
    copy_string, ContentView, IndentKind, MovePosition, Op, OpContent, OpView, Target, TargetView,
    Was, WasView,
};
use crate::text::chars::{
    chars_between, chars_of, index_of, index_of_char, parse_usize, parse_usize_spec, trim,
    trim_chars,
};
use crate::text::location::{Count, Locator, LocatorView};
use crate::text::pattern::{bytes_regex_accepts, line_regex_accepts, ByteRegex, LineRegex};

verus! {

/// A `lines` or `count` value as the document gives it.
#[derive(Debug, Clone, PartialEq, Eq)]
pub enum Scalar {
    /// A string.
    Text(String),
    /// A non-negative integer.
    Unsigned(u64),
    /// Any other number (negative or fractional).
    OtherNumber,
    /// Anything else.
    Other,
}

/// One operation object, its fields as the document gives them.
pub struct RawOp {
    pub op: String,
    pub file: Option<String>,
    pub files_from: Option<String>,
    pub lines: Option<Scalar>,
    pub match_line: Option<String>,
    pub occurrence: Option<usize>,
    pub between: Option<Vec<String>>,
    pub between_re: Option<Vec<String>>,
    pub inclusive: Option<bool>,
    pub pattern: Option<String>,
    pub count: Option<Scalar>,
    pub text: Option<String>,
    pub text_file: Option<String>,
    pub repl: Option<String>,
    pub where_: Option<String>,
    pub to: Option<usize>,
    pub by: Option<i64>,
    pub tabs_to_spaces: Option<usize>,
    pub spaces_to_tabs: Option<usize>,
    pub revert: Option<bool>,
    pub was: Option<String>,
    pub was_file: Option<String>,
}

/// Why an operation object does not describe an operation.
#[derive(Debug, Clone, Copy, PartialEq, Eq, Structural)]
pub enum RawError {
    UnknownOp,
    FileAndFilesFrom,
    MissingTarget,
    MissingLocator,
    ConflictingLocators,
    LinesNumberNegative,
    LinesNotStringOrInteger,
    InvalidLinesStart,
    InvalidLinesEnd,
    InvalidLines,
    InvalidMatchLine,
    BetweenNotPair,
    BetweenReNotPair,
    InvalidBetweenReStart,
    InvalidBetweenReEnd,
    InvalidPattern,
    InvalidCount,
    ZeroCount,
    CountNegative,
    CountNotStringOrInteger,
    ContentConflict,
    ReplWithoutPattern,
    ReplaceNeedsContent,
    WasConflict,
    InsertNeedsContent,
    MoveNeedsTo,
    IndentNeedsKind,
    IndentConflict,
}

/// The target an object names.
pub open spec fn raw_target(r: RawOp) -> Result<TargetView, RawError> {
    match (r.file, r.files_from) {
        (Some(f), None) => Ok(TargetView::File(f@)),
        (None, Some(l)) => Ok(TargetView::FilesFrom(l@)),
        (Some(_), Some(_)) => Err(RawError::FileAndFilesFrom),
        (None, None) => Err(RawError::MissingTarget),
    }
}

impl RawOp {
    /// The target the object names.
    pub fn target(&self) -> (r: Result<Target, RawError>)
        ensures
            match r {
                Ok(t) => raw_target(*self) == Ok::<TargetView, RawError>(t@),
                Err(e) => raw_target(*self) == Err::<TargetView, RawError>(e),
            },
    {
        match (&self.file, &self.files_from) {
            (Some(f), None) => Ok(Target::File(copy_string(f))),
            (None, Some(l)) => Ok(Target::FilesFrom(copy_string(l))),
            (Some(_), Some(_)) => Err(RawError::FileAndFilesFrom),
            (None, None) => Err(RawError::MissingTarget),
        }
    }
}

/// A `lines` string: `N` or `A-B`, each side trimmed.
pub open spec fn lines_str(s: Seq<char>) -> Result<(usize, usize), RawError> {
    let d = index_of(s, '-');
    if d >= 0 {
        match parse_usize_spec(trim(s.subrange(0, d))) {
            None => Err(RawError::InvalidLinesStart),
            Some(a) => match parse_usize_spec(trim(s.subrange(d + 1, s.len() as int))) {
                None => Err(RawError::InvalidLinesEnd),
                Some(b) => Ok((a, b)),
            },
        }
    } else {
        match parse_usize_spec(trim(s)) {
            None => Err(RawError::InvalidLines),
            Some(n) => Ok((n, n)),
        }
    }
}

/// Reads a `lines` string.
pub fn parse_lines_str(s: &str) -> (r: Result<(usize, usize), RawError>)
    ensures
        r == lines_str(s@),
{
    let cs = chars_of(s);
    match index_of_char(cs.as_slice(), '-') {
        Some(d) => {
            proof {
                crate::text::chars::lemma_index_of(cs@, '-');
            }
            let a = trim_chars(chars_between(cs.as_slice(), 0, d).as_slice());
            let b = trim_chars(chars_between(cs.as_slice(), d + 1, cs.len()).as_slice());
            let a = match parse_usize(a.as_slice()) {
                None => {
                    return Err(RawError::InvalidLinesStart);
                },
                Some(a) => a,
            };
            match parse_usize(b.as_slice()) {
                None => Err(RawError::InvalidLinesEnd),
                Some(b) => Ok((a, b)),
            }
        },
        None => match parse_usize(trim_chars(cs.as_slice()).as_slice()) {
            None => Err(RawError::InvalidLines),
            Some(n) => Ok((n, n)),
        },
    }
}

/// A `lines` value: a string, or a non-negative integer for one line.
pub open spec fn lines_value(v: Scalar) -> Result<(usize, usize), RawError> {
    match v {
        Scalar::Text(s) => lines_str(s@),
        Scalar::Unsigned(n) => Ok((n as usize, n as usize)),
        Scalar::OtherNumber => Err(RawError::LinesNumberNegative),
        Scalar::Other => Err(RawError::LinesNotStringOrInteger),
    }
}

/// Reads a `lines` value.
pub fn parse_lines_value(v: &Scalar) -> (r: Result<(usize, usize), RawError>)
    ensures
        r == lines_value(*v),
{
    match v {
        Scalar::Text(s) => parse_lines_str(s.as_str()),
        Scalar::Unsigned(n) => Ok((*n as usize, *n as usize)),
        Scalar::OtherNumber => Err(RawError::LinesNumberNegative),
        Scalar::Other => Err(RawError::LinesNotStringOrInteger),
    }
}

/// A `count` value: absent or `all` (any case) for all, else `N >= 1`.
pub open spec fn count_value(v: Option<Scalar>) -> Result<Count, RawError> {
    match v {
        None => Ok(Count::All),
        Some(Scalar::Text(s)) => if lower(s@) == "all"@ {
            Ok(Count::All)
        } else {
            match parse_usize_spec(s@) {
                None => Err(RawError::InvalidCount),
                Some(n) => if n == 0 {
                    Err(RawError::ZeroCount)
                } else {
                    Ok(Count::First(n))
                },
            }
        },
        Some(Scalar::Unsigned(n)) => if n == 0 {
            Err(RawError::ZeroCount)
        } else {
            Ok(Count::First(n as usize))
        },
        Some(Scalar::OtherNumber) => Err(RawError::CountNegative),
        Some(Scalar::Other) => Err(RawError::CountNotStringOrInteger),
    }
}

/// Reads a `count` value.
pub fn parse_count_value(v: Option<&Scalar>) -> (r: Result<Count, RawError>)
    ensures
        r == count_value(
            match v {
                Some(x) => Some(*x),
                None => None,
            },
        ),
{
    match v {
        None => Ok(Count::All),
        Some(Scalar::Text(s)) => {
            let l = to_ascii_lower(s.as_str());
            if chars_are(l.as_slice(), "all") {
                return Ok(Count::All);
            }
            let cs = chars_of(s.as_str());
            match parse_usize(cs.as_slice()) {
                None => Err(RawError::InvalidCount),
                Some(n) => if n == 0 {
                    Err(RawError::ZeroCount)
                } else {
                    Ok(Count::First(n))
                },
            }
        },
        Some(Scalar::Unsigned(n)) => if *n == 0 {
            Err(RawError::ZeroCount)
        } else {
            Ok(Count::First(*n as usize))
        },
        Some(Scalar::OtherNumber) => Err(RawError::CountNegative),
        Some(Scalar::Other) => Err(RawError::CountNotStringOrInteger),
    }
}

/// Whether an option holds a value, as a count.
pub open spec fn some_count<T>(o: Option<T>) -> int {
    if o is Some {
        1
    } else {
        0
    }
}

/// The occurrence an object asks for: at least 1, 1 when absent.
pub open spec fn occurrence_of(r: RawOp) -> usize {
    match r.occurrence {
        Some(n) => if n < 1 {
            1
        } else {
            n
        },
        None => 1,
    }
}

/// The locator an object names: exactly one of `lines`, `match-line`,
/// `between`, `between-re` and `pattern`.
pub open spec fn raw_locator(r: RawOp) -> Result<LocatorView, RawError> {
    let kinds = some_count(r.lines) + some_count(r.match_line) + some_count(r.between) + some_count(
        r.between_re,
    ) + some_count(r.pattern);
    let incl = match r.inclusive {
        Some(b) => b,
        None => false,
    };
    if kinds == 0 {
        Err(RawError::MissingLocator)
    } else if kinds > 1 {
        Err(RawError::ConflictingLocators)
    } else {
        match r.lines {
            Some(v) => match lines_value(v) {
                Ok(se) => Ok(LocatorView::Lines(se.0, se.1)),
                Err(e) => Err(e),
            },
            None => match r.match_line {
                Some(re) => if line_regex_accepts(re@) {
                    Ok(LocatorView::MatchLine(re@, occurrence_of(r)))
                } else {
                    Err(RawError::InvalidMatchLine)
                },
                None => match r.between {
                    Some(arr) => if arr@.len() != 2 {
                        Err(RawError::BetweenNotPair)
                    } else {
                        Ok(
                            LocatorView::Between(
                                encode_utf8(arr@[0]@),
                                encode_utf8(arr@[1]@),
                                occurrence_of(r),
                                1,
                                incl,
                            ),
                        )
                    },
                    None => match r.between_re {
                        Some(arr) => if arr@.len() != 2 {
                            Err(RawError::BetweenReNotPair)
                        } else if !line_regex_accepts(arr@[0]@) {
                            Err(RawError::InvalidBetweenReStart)
                        } else if !line_regex_accepts(arr@[1]@) {
                            Err(RawError::InvalidBetweenReEnd)
                        } else {
                            Ok(
                                LocatorView::BetweenRe(
                                    arr@[0]@,
                                    arr@[1]@,
                                    occurrence_of(r),
                                    1,
                                    incl,
                                ),
                            )
                        },
                        None => match r.pattern {
                            Some(p) => match count_value(r.count) {
                                Err(e) => Err(e),
                                Ok(c) => if bytes_regex_accepts(p@) {
                                    Ok(LocatorView::Pattern(p@, c))
                                } else {
                                    Err(RawError::InvalidPattern)
                                },
                            },
                            None => Err(RawError::MissingLocator),
                        },
                    },
                },
            },
        }
    }
}

/// The bytes of a string.
fn bytes_of(s: &String) -> (r: Vec<u8>)
    ensures
        r@ == encode_utf8(s@),
{
    vstd::slice::slice_to_vec(s.as_str().as_bytes())
}

impl RawOp {
    /// The occurrence the object asks for.
    fn occurrence_or_first(&self) -> (r: usize)
        ensures
            r == occurrence_of(*self),
    {
        match self.occurrence {
            Some(n) => if n < 1 {
                1
            } else {
                n
            },
            None => 1,
        }
    }

    /// The locator the object names (see [`raw_locator`]).
    pub fn locator(&self) -> (r: Result<Locator, RawError>)
        ensures
            match r {
                Ok(l) => raw_locator(*self) == Ok::<LocatorView, RawError>(l@),
                Err(e) => raw_locator(*self) == Err::<LocatorView, RawError>(e),
            },
    {
        let mut kinds: usize = 0;
        if self.lines.is_some() {
            kinds += 1;
        }
        if self.match_line.is_some() {
            kinds += 1;
        }
        if self.between.is_some() {
            kinds += 1;
        }
        if self.between_re.is_some() {
            kinds += 1;
        }
        if self.pattern.is_some() {
            kinds += 1;
        }
        if kinds == 0 {
            return Err(RawError::MissingLocator);
        }
        if kinds > 1 {
            return Err(RawError::ConflictingLocators);
        }
        let incl = match self.inclusive {
            Some(b) => b,
            None => false,
        };
        if let Some(v) = &self.lines {
            return match parse_lines_value(v) {
                Ok((s, e)) => Ok(Locator::Lines { start: s, end: e }),
                Err(e) => Err(e),
            };
        }
        if let Some(re) = &self.match_line {
            return match LineRegex::new(re.as_str()) {
                Some(r) => Ok(Locator::MatchLine { regex: r, occurrence: self.occurrence_or_first() }),
                None => Err(RawError::InvalidMatchLine),
            };
        }
        if let Some(arr) = &self.between {
            if arr.len() != 2 {
                return Err(RawError::BetweenNotPair);
            }
            return Ok(
                Locator::Between {
                    start: bytes_of(&arr[0]),
                    end: bytes_of(&arr[1]),
                    start_occ: self.occurrence_or_first(),
                    end_occ: 1,
                    inclusive: incl,
                },
            );
        }
        if let Some(arr) = &self.between_re {
            if arr.len() != 2 {
                return Err(RawError::BetweenReNotPair);
            }
            let start = match LineRegex::new(arr[0].as_str()) {
                Some(r) => r,
                None => {
                    return Err(RawError::InvalidBetweenReStart);
                },
            };
            let end = match LineRegex::new(arr[1].as_str()) {
                Some(r) => r,
                None => {
                    return Err(RawError::InvalidBetweenReEnd);
                },
            };
            return Ok(
                Locator::BetweenRe {
                    start,
                    end,
                    start_occ: self.occurrence_or_first(),
                    end_occ: 1,
                    inclusive: incl,
                },
            );
        }
        match &self.pattern {
            Some(p) => {
                let cnt = match parse_count_value(
                    match &self.count {
                        Some(c) => Some(c),
                        None => None,
                    },
                ) {
                    Ok(c) => c,
                    Err(e) => {
                        return Err(e);
                    },
                };
                match ByteRegex::new(p.as_str()) {
                    Some(re) => Ok(Locator::Pattern { regex: re, count: cnt }),
                    None => Err(RawError::InvalidPattern),
                }
            },
            None => Err(RawError::MissingLocator),
        }
    }
}

/// The content an object gives: at most one of `text`, `text-file` and
/// `repl` (the last only with a pattern).
pub open spec fn raw_content(r: RawOp, allow_repl: bool) -> Result<ContentView, RawError> {
    if some_count(r.text) + some_count(r.text_file) + some_count(r.repl) > 1 {
        Err(RawError::ContentConflict)
    } else {
        match r.text {
            Some(s) => if s@.len() == 0 {
                Ok(ContentView::Empty)
            } else {
                Ok(ContentView::Text(encode_utf8(s@)))
            },
            None => match r.text_file {
                Some(p) => Ok(ContentView::File(p@)),
                None => match r.repl {
                    Some(x) => if !allow_repl {
                        Err(RawError::ReplWithoutPattern)
                    } else {
                        Ok(ContentView::Repl(x@))
                    },
                    None => Ok(ContentView::Nothing),
                },
            },
        }
    }
}

/// Where an object puts text: `before` when `where` says so, else after.
pub open spec fn raw_position(r: RawOp) -> MovePosition {
    match r.where_ {
        Some(w) => if w@ == "before"@ {
            MovePosition::Before
        } else {
            MovePosition::After
        },
        None => MovePosition::After,
    }
}

/// The expectation an object states: `was` or `was-file`, not both.
pub open spec fn raw_was(r: RawOp) -> Result<Option<WasView>, RawError> {
    match (r.was, r.was_file) {
        (Some(_), Some(_)) => Err(RawError::WasConflict),
        (Some(s), None) => Ok(Some(WasView::Bytes(encode_utf8(s@)))),
        (None, Some(p)) => Ok(Some(WasView::File(p@))),
        (None, None) => Ok(None),
    }
}

/// Whether an object runs backwards.
pub open spec fn raw_revert(r: RawOp) -> bool {
    match r.revert {
        Some(b) => b,
        None => false,
    }
}

/// The indentation change an object names: exactly one of `by`,
/// `tabs-to-spaces` and `spaces-to-tabs`.
pub open spec fn raw_indent(r: RawOp) -> Result<IndentKind, RawError> {
    match (r.by, r.tabs_to_spaces, r.spaces_to_tabs) {
        (Some(n), None, None) => Ok(IndentKind::Adjust(n)),
        (None, Some(n), None) => Ok(IndentKind::TabsToSpaces(n)),
        (None, None, Some(n)) => Ok(IndentKind::SpacesToTabs(n)),
        (None, None, None) => Err(RawError::IndentNeedsKind),
        _ => Err(RawError::IndentConflict),
    }
}

/// The operation an object describes.
pub open spec fn raw_op(r: RawOp) -> Result<OpView, RawError> {
    let name = r.op@;
    if name == "replace"@ || name == "insert"@ || name == "move"@ || name == "indent"@ {
        match raw_target(r) {
            Err(e) => Err(e),
            Ok(t) => match raw_locator(r) {
                Err(e) => Err(e),
                Ok(loc) => if name == "replace"@ {
                    match raw_content(r, loc is Pattern) {
                        Err(e) => Err(e),
                        Ok(c) => if c is Nothing {
                            Err(RawError::ReplaceNeedsContent)
                        } else {
                            match raw_was(r) {
                                Err(e) => Err(e),
                                Ok(w) => Ok(OpView::Replace(t, loc, c, w, raw_revert(r))),
                            }
                        },
                    }
                } else if name == "insert"@ {
                    match raw_content(r, false) {
                        Err(e) => Err(e),
                        Ok(c) => if c is Nothing {
                            Err(RawError::InsertNeedsContent)
                        } else {
                            Ok(OpView::Insert(t, loc, c, raw_position(r), raw_revert(r)))
                        },
                    }
                } else if name == "move"@ {
                    match r.to {
                        None => Err(RawError::MoveNeedsTo),
                        Some(to) => Ok(OpView::Move(t, loc, to, raw_position(r), raw_revert(r))),
                    }
                } else {
                    match raw_indent(r) {
                        Err(e) => Err(e),
                        Ok(k) => Ok(OpView::Indent(t, loc, k, raw_revert(r))),
                    }
                },
            },
        }
    } else {
        Err(RawError::UnknownOp)
    }
}

impl RawOp {
    /// The content the object gives (see [`raw_content`]).
    pub fn content(&self, allow_repl: bool) -> (r: Result<OpContent, RawError>)
        ensures
            match r {
                Ok(c) => raw_content(*self, allow_repl) == Ok::<ContentView, RawError>(c@),
                Err(e) => raw_content(*self, allow_repl) == Err::<ContentView, RawError>(e),
            },
    {
        let mut n: usize = 0;
        if self.text.is_some() {
            n += 1;
        }
        if self.text_file.is_some() {
            n += 1;
        }
        if self.repl.is_some() {
            n += 1;
        }
        if n > 1 {
            return Err(RawError::ContentConflict);
        }
        if let Some(s) = &self.text {
            if s.as_str().is_empty() {
                return Ok(OpContent::Empty);
            }
            return Ok(OpContent::Text(bytes_of(s)));
        }
        if let Some(p) = &self.text_file {
            return Ok(OpContent::File(copy_string(p)));
        }
        if let Some(x) = &self.repl {
            if !allow_repl {
                return Err(RawError::ReplWithoutPattern);
            }
            return Ok(OpContent::Repl(copy_string(x)));
        }
        Ok(OpContent::Nothing)
    }

    /// Where the object puts text (see [`raw_position`]).
    pub fn position(&self) -> (r: MovePosition)
        ensures
            r == raw_position(*self),
    {
        match &self.where_ {
            Some(w) => {
                let cs = chars_of(w.as_str());
                if chars_are(cs.as_slice(), "before") {
                    MovePosition::Before
                } else {
                    MovePosition::After
                }
            },
            None => MovePosition::After,
        }
    }

    /// The expectation the object states (see [`raw_was`]).
    pub fn was_bytes(&self) -> (r: Result<Option<Was>, RawError>)
        ensures
            match r {
                Ok(w) => raw_was(*self) == Ok::<Option<WasView>, RawError>(crate::apply::was_view(w)),
                Err(e) => raw_was(*self) == Err::<Option<WasView>, RawError>(e),
            },
    {
        match (&self.was, &self.was_file) {
            (Some(_), Some(_)) => Err(RawError::WasConflict),
            (Some(s), None) => Ok(Some(Was::Bytes(bytes_of(s)))),
            (None, Some(p)) => Ok(Some(Was::File(copy_string(p)))),
            (None, None) => Ok(None),
        }
    }

    /// Whether the object runs backwards.
    fn revert_flag(&self) -> (r: bool)
        ensures
            r == raw_revert(*self),
    {
        match self.revert {
            Some(b) => b,
            None => false,
        }
    }

    /// The operation the object describes (see [`raw_op`]).
    pub fn into_op(self) -> (r: Result<Op, RawError>)
        ensures
            match r {
                Ok(op) => raw_op(self) == Ok::<OpView, RawError>(op@),
                Err(e) => raw_op(self) == Err::<OpView, RawError>(e),
            },
    {
        proof {
            reveal_strlit("replace");
            reveal_strlit("insert");
            reveal_strlit("move");
            reveal_strlit("indent");
        }
        let name = chars_of(self.op.as_str());
        let is_replace = chars_are(name.as_slice(), "replace");
        let is_insert = chars_are(name.as_slice(), "insert");
        let is_move = chars_are(name.as_slice(), "move");
        let is_indent = chars_are(name.as_slice(), "indent");
        if !(is_replace || is_insert || is_move || is_indent) {
            return Err(RawError::UnknownOp);
        }
        let target = match self.target() {
            Ok(t) => t,
            Err(e) => {
                return Err(e);
            },
        };
        let locator = match self.locator() {
            Ok(l) => l,
            Err(e) => {
                return Err(e);
            },
        };
        let revert = self.revert_flag();
        if is_replace {
            let allow_repl = match locator {
                Locator::Pattern { .. } => true,
                _ => false,
            };
            let content = match self.content(allow_repl) {
                Ok(c) => c,
                Err(e) => {
                    return Err(e);
                },
            };
            if content.is_none() {
                return Err(RawError::ReplaceNeedsContent);
            }
            let was = match self.was_bytes() {
                Ok(w) => w,
                Err(e) => {
                    return Err(e);
                },
            };
            return Ok(Op::Replace { target, locator, content, was, revert });
        }
        if is_insert {
            let content = match self.content(false) {
                Ok(c) => c,
                Err(e) => {
                    return Err(e);
                },
            };
            if content.is_none() {
                return Err(RawError::InsertNeedsContent);
            }
            return Ok(Op::Insert { target, locator, content, position: self.position(), revert });
        }
        if is_move {
            return match self.to {
                None => Err(RawError::MoveNeedsTo),
                Some(to) => Ok(
                    Op::Move { target, from: locator, to_line: to, position: self.position(), revert },
                ),
            };
        }
        let kind = match (self.by, self.tabs_to_spaces, self.spaces_to_tabs) {
            (Some(n), None, None) => IndentKind::Adjust(n),
            (None, Some(n), None) => IndentKind::TabsToSpaces(n),
            (None, None, Some(n)) => IndentKind::SpacesToTabs(n),
            (None, None, None) => {
                return Err(RawError::IndentNeedsKind);
            },
            _ => {
                return Err(RawError::IndentConflict);
            },
        };
        Ok(Op::Indent { target, locator, kind, revert })
    }
}

/// The operations of a document's objects, or the first object in error
/// (numbered from 0).
pub open spec fn raw_ops(raws: Seq<RawOp>) -> Result<Seq<OpView>, (usize, RawError)>
    decreases raws.len(),
{
    if raws.len() == 0 {
        Ok(Seq::empty())
    } else {
        match raw_ops(raws.drop_last()) {
            Err(e) => Err(e),
            Ok(ops) => match raw_op(raws.last()) {
                Ok(op) => Ok(ops.push(op)),
                Err(e) => Err(((raws.len() - 1) as usize, e)),
            },
        }
    }
}

/// Turns a document's objects into operations; the first bad object stops
/// the reading, reported with its index.
pub fn ops_from_raw(raws: Vec<RawOp>) -> (r: Result<Vec<Op>, (usize, RawError)>)
    ensures
        match r {
            Ok(v) => raw_ops(raws@) == Ok::<Seq<OpView>, (usize, RawError)>(
                crate::apply::parse_native::op_views(v@),
            ),
            Err(e) => raw_ops(raws@) == Err::<Seq<OpView>, (usize, RawError)>(e),
        },
{
    let ghost input = raws@;
    let mut rest = raws;
    let mut out: Vec<Op> = Vec::new();
    let n = rest.len();
    let mut i: usize = 0;
    assert(input.take(0) =~= Seq::<RawOp>::empty());
    assert(crate::apply::parse_native::op_views(out@) =~= Seq::<OpView>::empty());
    while i < n
        invariant
            input == raws@,
            n == input.len(),
            rest@ == input.skip(i as int),
            0 <= i <= n,
            raw_ops(input.take(i as int)) == Ok::<Seq<OpView>, (usize, RawError)>(
                crate::apply::parse_native::op_views(out@),
            ),
        decreases n - i,
    {
        let raw = rest.remove(0);
        assert(raw == input[i as int]);
        assert(rest@ =~= input.skip(i + 1));
        assert(input.take(i + 1).drop_last() =~= input.take(i as int));
        let ghost before = crate::apply::parse_native::op_views(out@);
        match raw.into_op() {
            Ok(op) => {
                out.push(op);
                assert(crate::apply::parse_native::op_views(out@) =~= before.push(op@));
            },
            Err(e) => {
                proof {
                    lemma_raw_ops_stops(input, i + 1);
                }
                return Err((i, e));
            },
        }
        i += 1;
    }
    assert(input.take(n as int) =~= input);
    Ok(out)
}

/// Once a prefix of the objects fails, all of them fail the same way.
proof fn lemma_raw_ops_stops(raws: Seq<RawOp>, k: int)
    requires
        0 <= k <= raws.len(),
        raw_ops(raws.take(k)) is Err,
    ensures
        raw_ops(raws) == raw_ops(raws.take(k)),
    decreases raws.len() - k,
{
    if k < raws.len() {
        assert(raws.take(k + 1).drop_last() =~= raws.take(k));
        lemma_raw_ops_stops(raws, k + 1);
    } else {
        assert(raws.take(k) =~= raws);
    }
}

} // verus!
