//! Locator and content options of the write commands.
//!
//! Exactly one of `--lines`, `--match-line`, `--between`, `--between-re` and
//! `--pattern` locates; at most one of `--text`, `--text-stdin`,
//! `--text-file` and `--repl` gives the content.

use vstd::prelude::*;
use vstd::utf8::encode_utf8;

use crate::apply::detect::{chars_are, lower, to_ascii_lower};
use crate::apply::raw::{lines_str, parse_lines_str, some_count, RawError};
use crate::apply::{copy_string, copy_bytes};
use crate::text::chars::{
    chars_between, chars_of, find_chars, find_seq, parse_usize, parse_usize_spec, string_of, trim,
    trim_chars,
};
use crate::text::content::{Content, ContentSource};
use crate::text::location::{Count, Locator, LocatorView};
use crate::text::pattern::{bytes_regex_accepts, line_regex_accepts, ByteRegex, LineRegex};

verus! {

/// The five locator options (at most one may be given).
pub struct LocatorArgs {
    /// `--lines A` or `--lines A-B`.
    pub lines: Option<String>,
    /// `--match-line RE`.
    pub match_line: Option<String>,
    /// `--occurrence N` (1-based; default 1).
    pub occurrence: usize,
    /// `--between START..END`.
    pub between: Option<String>,
    /// `--between-re START..END`.
    pub between_re: Option<String>,
    /// `--inclusive`: keep the anchor lines.
    pub inclusive: bool,
    /// `--pattern RE` (replacements only).
    pub pattern: Option<String>,
    /// `--count N|all` (with `--pattern`).
    pub count: Option<String>,
}

/// The content options (at most one may be given).
pub struct ContentArgs {
    /// `--text TEXT`.
    pub text: Option<String>,
    /// `--text-stdin`.
    pub text_stdin: bool,
    /// `--text-file PATH`.
    pub text_file: Option<String>,
    /// `--repl STR` (with `--pattern`).
    pub repl: Option<String>,
}

/// Why the options do not make a locator or a content.
#[derive(Debug, Clone, Copy, PartialEq, Eq, Structural)]
pub enum ArgsError {
    MissingLocator,
    ConflictingLocators,
    InvalidStartLine,
    InvalidEndLine,
    InvalidLineNumber,
    InvalidMatchLine,
    BetweenNeedsDots,
    BetweenReNeedsDots,
    InvalidBetweenReStart,
    InvalidBetweenReEnd,
    InvalidPattern,
    InvalidCount,
    ZeroCount,
    MissingContent,
    ConflictingContent,
}

/// A line range `N` or `A-B` (each side trimmed).
pub open spec fn line_range(s: Seq<char>) -> Result<(usize, usize), ArgsError> {
    match lines_str(s) {
        Ok(r) => Ok(r),
        Err(RawError::InvalidLinesStart) => Err(ArgsError::InvalidStartLine),
        Err(RawError::InvalidLinesEnd) => Err(ArgsError::InvalidEndLine),
        Err(_) => Err(ArgsError::InvalidLineNumber),
    }
}

/// Reads a line range `N` or `A-B`.
pub fn parse_line_range(s: &str) -> (r: Result<(usize, usize), ArgsError>)
    ensures
        r == line_range(s@),
{
    match parse_lines_str(s) {
        Ok(x) => Ok(x),
        Err(RawError::InvalidLinesStart) => Err(ArgsError::InvalidStartLine),
        Err(RawError::InvalidLinesEnd) => Err(ArgsError::InvalidEndLine),
        Err(_) => Err(ArgsError::InvalidLineNumber),
    }
}

/// A `START..END` pair: the text before and after the first `..`.
pub open spec fn dotted_pair(s: Seq<char>) -> Option<(Seq<char>, Seq<char>)> {
    let d = find_seq(s, ".."@);
    if d < 0 {
        None
    } else {
        Some((s.subrange(0, d), s.subrange(d + 2, s.len() as int)))
    }
}

/// Splits `START..END` at its first `..`.
fn split_dotted(s: &str) -> (r: Option<(Vec<char>, Vec<char>)>)
    ensures
        match r {
            Some((a, b)) => dotted_pair(s@) == Some((a@, b@)),
            None => dotted_pair(s@) is None,
        },
{
    let cs = chars_of(s);
    match find_chars(cs.as_slice(), "..") {
        None => None,
        Some(d) => {
            proof {
                reveal_strlit("..");
                crate::text::chars::lemma_find_seq(cs@, ".."@);
            }
            Some((chars_between(cs.as_slice(), 0, d), chars_between(cs.as_slice(), d + 2, cs.len())))
        },
    }
}

/// The bytes of the characters `cs`.
fn utf8_bytes(cs: &[char]) -> (r: Vec<u8>)
    ensures
        r@ == encode_utf8(cs@),
{
    let s = string_of(cs);
    vstd::slice::slice_to_vec(s.as_str().as_bytes())
}

/// A `--count` value: absent or `all` (any case, trimmed) for all, else
/// `N >= 1`.
pub open spec fn count_arg(s: Option<Seq<char>>) -> Result<Count, ArgsError> {
    match s {
        None => Ok(Count::All),
        Some(v) => {
            let t = trim(v);
            if lower(t) == "all"@ {
                Ok(Count::All)
            } else {
                match parse_usize_spec(t) {
                    None => Err(ArgsError::InvalidCount),
                    Some(n) => if n == 0 {
                        Err(ArgsError::ZeroCount)
                    } else {
                        Ok(Count::First(n))
                    },
                }
            }
        },
    }
}

/// Reads a `--count` value.
pub fn parse_count(s: Option<&str>) -> (r: Result<Count, ArgsError>)
    ensures
        r == count_arg(
            match s {
                Some(v) => Some(v@),
                None => None,
            },
        ),
{
    match s {
        None => Ok(Count::All),
        Some(v) => {
            let t = trim_chars(chars_of(v).as_slice());
            let ts = string_of(t.as_slice());
            let l = to_ascii_lower(ts.as_str());
            if chars_are(l.as_slice(), "all") {
                return Ok(Count::All);
            }
            match parse_usize(t.as_slice()) {
                None => Err(ArgsError::InvalidCount),
                Some(n) => if n == 0 {
                    Err(ArgsError::ZeroCount)
                } else {
                    Ok(Count::First(n))
                },
            }
        },
    }
}

/// How many locator options are given.
pub open spec fn locator_kinds(a: LocatorArgs) -> int {
    some_count(a.lines) + some_count(a.match_line) + some_count(a.between) + some_count(
        a.between_re,
    ) + some_count(a.pattern)
}

/// How many locator options are given.
fn count_kinds(a: &LocatorArgs) -> (r: usize)
    ensures
        r == locator_kinds(*a),
{
    let mut n: usize = 0;
    if a.lines.is_some() {
        n += 1;
    }
    if a.match_line.is_some() {
        n += 1;
    }
    if a.between.is_some() {
        n += 1;
    }
    if a.between_re.is_some() {
        n += 1;
    }
    if a.pattern.is_some() {
        n += 1;
    }
    n
}

/// The occurrence asked for, at least 1.
pub open spec fn at_least_one(n: usize) -> usize {
    if n < 1 {
        1
    } else {
        n
    }
}

/// `--match-line RE --occurrence N`, alone and with a regex the `regex`
/// crate accepts, names the `N`-th line that matches (the first when `N` is
/// 0); `--between` and `--between-re` take the `N`-th start anchor and the
/// first end anchor after it.
pub proof fn lemma_occurrence_is_taken(a: LocatorArgs)
    ensures
        a.match_line is Some && a.lines is None && a.between is None && a.between_re is None
            && a.pattern is None && line_regex_accepts(a.match_line->0@) ==> args_locator(a) == Ok::<
            LocatorView,
            ArgsError,
        >(
            LocatorView::MatchLine(
                a.match_line->0@,
                if a.occurrence == 0 {
                    1
                } else {
                    a.occurrence
                },
            ),
        ),
        args_locator(a) matches Ok(LocatorView::Between(_, _, so, eo, _)) ==> so == (
        if a.occurrence == 0 {
            1
        } else {
            a.occurrence
        }) && eo == 1,
        args_locator(a) matches Ok(LocatorView::BetweenRe(_, _, so, eo, _)) ==> so == (
        if a.occurrence == 0 {
            1
        } else {
            a.occurrence
        }) && eo == 1,
{
}

/// The locator the options name.
pub open spec fn args_locator(a: LocatorArgs) -> Result<LocatorView, ArgsError> {
    let k = locator_kinds(a);
    if k == 0 {
        Err(ArgsError::MissingLocator)
    } else if k > 1 {
        Err(ArgsError::ConflictingLocators)
    } else {
        match a.lines {
            Some(s) => match line_range(s@) {
                Ok(se) => Ok(LocatorView::Lines(se.0, se.1)),
                Err(e) => Err(e),
            },
            None => match a.match_line {
                Some(re) => if line_regex_accepts(re@) {
                    Ok(LocatorView::MatchLine(re@, at_least_one(a.occurrence)))
                } else {
                    Err(ArgsError::InvalidMatchLine)
                },
                None => match a.between {
                    Some(s) => match dotted_pair(s@) {
                        None => Err(ArgsError::BetweenNeedsDots),
                        Some(p) => Ok(
                            LocatorView::Between(
                                encode_utf8(p.0),
                                encode_utf8(p.1),
                                at_least_one(a.occurrence),
                                1,
                                a.inclusive,
                            ),
                        ),
                    },
                    None => match a.between_re {
                        Some(s) => match dotted_pair(s@) {
                            None => Err(ArgsError::BetweenReNeedsDots),
                            Some(p) => if !line_regex_accepts(p.0) {
                                Err(ArgsError::InvalidBetweenReStart)
                            } else if !line_regex_accepts(p.1) {
                                Err(ArgsError::InvalidBetweenReEnd)
                            } else {
                                Ok(
                                    LocatorView::BetweenRe(
                                        p.0,
                                        p.1,
                                        at_least_one(a.occurrence),
                                        1,
                                        a.inclusive,
                                    ),
                                )
                            },
                        },
                        None => match a.pattern {
                            Some(p) => if !bytes_regex_accepts(p@) {
                                Err(ArgsError::InvalidPattern)
                            } else {
                                match count_arg(
                                    match a.count {
                                        Some(c) => Some(c@),
                                        None => None,
                                    },
                                ) {
                                    Ok(c) => Ok(LocatorView::Pattern(p@, c)),
                                    Err(e) => Err(e),
                                }
                            },
                            None => Err(ArgsError::MissingLocator),
                        },
                    },
                },
            },
        }
    }
}

impl LocatorArgs {
    /// The locator the options name (see [`args_locator`]).
    pub fn into_locator(self) -> (r: Result<Locator, ArgsError>)
        ensures
            match r {
                Ok(l) => args_locator(self) == Ok::<LocatorView, ArgsError>(l@),
                Err(e) => args_locator(self) == Err::<LocatorView, ArgsError>(e),
            },
            self.match_line is Some && r is Ok ==> (r->Ok_0 matches Locator::MatchLine {
                regex,
                occurrence,
            } && regex.pattern_view() == self.match_line->0@ && occurrence == (if self.occurrence == 0 {
                1
            } else {
                self.occurrence
            })),
            r matches Ok(Locator::Between { start_occ, end_occ, inclusive, .. }) ==> start_occ == (
            if self.occurrence == 0 {
                1
            } else {
                self.occurrence
            }) && end_occ == 1 && inclusive == self.inclusive,
            self.lines is Some && r is Ok ==> r->Ok_0 is Lines,
            self.between is Some && r is Ok ==> r->Ok_0 is Between,
            self.between_re is Some && r is Ok ==> r->Ok_0 is BetweenRe,
            self.pattern is Some && r is Ok ==> r->Ok_0 is Pattern,
            r matches Ok(Locator::BetweenRe { start_occ, end_occ, inclusive, .. }) ==> start_occ == (
            if self.occurrence == 0 {
                1
            } else {
                self.occurrence
            }) && end_occ == 1 && inclusive == self.inclusive,
    {
        let k = count_kinds(&self);
        if k == 0 {
            return Err(ArgsError::MissingLocator);
        }
        if k > 1 {
            return Err(ArgsError::ConflictingLocators);
        }
        let occ = if self.occurrence < 1 {
            1
        } else {
            self.occurrence
        };
        if let Some(s) = &self.lines {
            return match parse_line_range(s.as_str()) {
                Ok((a, b)) => Ok(Locator::Lines { start: a, end: b }),
                Err(e) => Err(e),
            };
        }
        if let Some(re) = &self.match_line {
            return match LineRegex::new(re.as_str()) {
                Some(r) => Ok(Locator::MatchLine { regex: r, occurrence: occ }),
                None => Err(ArgsError::InvalidMatchLine),
            };
        }
        if let Some(s) = &self.between {
            return match split_dotted(s.as_str()) {
                None => Err(ArgsError::BetweenNeedsDots),
                Some((a, b)) => Ok(
                    Locator::Between {
                        start: utf8_bytes(a.as_slice()),
                        end: utf8_bytes(b.as_slice()),
                        start_occ: occ,
                        end_occ: 1,
                        inclusive: self.inclusive,
                    },
                ),
            };
        }
        if let Some(s) = &self.between_re {
            let (a, b) = match split_dotted(s.as_str()) {
                None => {
                    return Err(ArgsError::BetweenReNeedsDots);
                },
                Some(x) => x,
            };
            let sa = string_of(a.as_slice());
            let sb = string_of(b.as_slice());
            let start = match LineRegex::new(sa.as_str()) {
                Some(r) => r,
                None => {
                    return Err(ArgsError::InvalidBetweenReStart);
                },
            };
            let end = match LineRegex::new(sb.as_str()) {
                Some(r) => r,
                None => {
                    return Err(ArgsError::InvalidBetweenReEnd);
                },
            };
            return Ok(
                Locator::BetweenRe { start, end, start_occ: occ, end_occ: 1, inclusive: self.inclusive },
            );
        }
        match &self.pattern {
            Some(p) => {
                let re = match ByteRegex::new(p.as_str()) {
                    Some(r) => r,
                    None => {
                        return Err(ArgsError::InvalidPattern);
                    },
                };
                let count = match parse_count(
                    match &self.count {
                        Some(c) => Some(c.as_str()),
                        None => None,
                    },
                ) {
                    Ok(c) => c,
                    Err(e) => {
                        return Err(e);
                    },
                };
                Ok(Locator::Pattern { regex: re, count })
            },
            None => Err(ArgsError::MissingLocator),
        }
    }
}

/// How many content options are given.
pub open spec fn content_kinds(a: ContentArgs) -> int {
    some_count(a.text) + (if a.text_stdin {
        1int
    } else {
        0
    }) + some_count(a.text_file) + some_count(a.repl)
}

/// The content the options give: none when `require_some` is off and no
/// option is given.
pub open spec fn args_content(a: ContentArgs, require_some: bool) -> Result<
    Option<ContentSource>,
    ArgsError,
> {
    let k = content_kinds(a);
    if k == 0 {
        if require_some {
            Err(ArgsError::MissingContent)
        } else {
            Ok(None)
        }
    } else if k > 1 {
        Err(ArgsError::ConflictingContent)
    } else {
        match a.text {
            Some(s) => Ok(Some(ContentSource::Inline(encode_utf8(s@)))),
            None => if a.text_stdin {
                Ok(Some(ContentSource::Stdin))
            } else {
                match a.text_file {
                    Some(p) => Ok(Some(ContentSource::File(p@))),
                    None => match a.repl {
                        Some(r) => Ok(Some(ContentSource::Replacement(r@))),
                        None => Ok(None),
                    },
                }
            },
        }
    }
}

impl ContentArgs {
    /// The content the options give (see [`args_content`]); an empty
    /// `--text` counts as given (it deletes).
    pub fn into_content(self, require_some: bool) -> (r: Result<Option<Content>, ArgsError>)
        ensures
            match r {
                Ok(Some(c)) => args_content(self, require_some) == Ok::<Option<ContentSource>, ArgsError>(
                    Some(c@),
                ),
                Ok(None) => args_content(self, require_some) == Ok::<Option<ContentSource>, ArgsError>(
                    None,
                ),
                Err(e) => args_content(self, require_some) == Err::<Option<ContentSource>, ArgsError>(e),
            },
    {
        let mut k: usize = 0;
        if self.text.is_some() {
            k += 1;
        }
        if self.text_stdin {
            k += 1;
        }
        if self.text_file.is_some() {
            k += 1;
        }
        if self.repl.is_some() {
            k += 1;
        }
        if k == 0 {
            if require_some {
                return Err(ArgsError::MissingContent);
            }
            return Ok(None);
        }
        if k > 1 {
            return Err(ArgsError::ConflictingContent);
        }
        if let Some(s) = &self.text {
            return Ok(Some(Content::Inline(vstd::slice::slice_to_vec(s.as_str().as_bytes()))));
        }
        if self.text_stdin {
            return Ok(Some(Content::Stdin));
        }
        if let Some(p) = &self.text_file {
            return Ok(Some(Content::File(copy_string(p))));
        }
        match &self.repl {
            Some(r) => Ok(Some(Content::Replacement(copy_string(r)))),
            None => Ok(None),
        }
    }
}

} // verus!
