//! Locators and their resolution to line ranges.
//!
//! Lines are 1-based closed ranges over the line model of [`crate::text::lines`].

use vstd::prelude::*;

use crate::text::lines::{
    closed, ends_nl, full_lines, lemma_flatten_last, lemma_full_lines_ok, lemma_line_count_le_len,
    line_count, line_ok, line_spans, lines_between, nl, plain_lines, push_lines, push_range,
    spans_match, strip_nl,
};
use crate::text::ops::find::{lemma_nl_before_concat, lemma_nl_before_prefix, nl_before};
use crate::text::pattern::{line_matches, ByteRegex, LineRegex};

verus! {

/// A literal byte sequence; byte-transparent.
pub type ByteSeq = Vec<u8>;

/// How many hits a `--pattern` replacement touches.
#[derive(Debug, Clone, Copy, PartialEq, Eq)]
pub enum Count {
    /// Only the first N matches.
    First(usize),
    /// Every match.
    All,
}

impl Count {
    /// The default count touches every match.
    pub fn default() -> (r: Count)
        ensures
            r == Count::All,
    {
        Count::All
    }
}

/// A resolved line range, 1-based and closed.
#[derive(Debug, Clone, Copy, PartialEq, Eq)]
pub struct Resolved {
    pub start_line: usize,
    pub end_line: usize,
}

/// The lines of `content`, without their `\n` (a `\r` stays in the line).
/// A last line without `\n` counts; the empty buffer has no line.
pub fn split_lines(content: &[u8]) -> (r: Vec<Vec<u8>>)
    ensures
        r@.map_values(|v: Vec<u8>| v@) == plain_lines(content@),
{
    let spans = line_spans(content);
    let ghost fl = full_lines(content@);
    let mut out: Vec<Vec<u8>> = Vec::new();
    let mut k: usize = 0;
    while k < spans.len()
        invariant
            spans_match(content@, spans@),
            fl == full_lines(content@),
            0 <= k <= spans.len(),
            out.len() == k,
            forall|j: int| 0 <= j < k ==> (#[trigger] out@[j])@ == strip_nl(fl[j]),
        decreases spans.len() - k,
    {
        let sp = spans[k];
        let mut end = sp.end;
        if end > sp.start && content[end - 1] == 10u8 {
            end = end - 1;
        }
        let mut line: Vec<u8> = Vec::new();
        push_range(&mut line, content, sp.start, end);
        proof {
            let l = fl[k as int];
            assert(l == content@.subrange(sp.start as int, sp.end as int));
            if ends_nl(l) {
                assert(l.last() == content@[sp.end - 1]);
                assert(line@ =~= l.drop_last());
            } else {
                if sp.end > sp.start {
                    assert(l.last() == content@[sp.end - 1]);
                }
                assert(line@ =~= l);
            }
        }
        out.push(line);
        k += 1;
    }
    assert(out@.map_values(|v: Vec<u8>| v@) =~= plain_lines(content@));
    out
}

/// Bytes of lines `start ..= end` (1-based) of `c` with their line ends;
/// empty when the range is out of bounds.
pub open spec fn range_bytes(c: Seq<u8>, start: int, end: int) -> Seq<u8> {
    if start <= 0 || end < start || end > line_count(c) {
        Seq::<u8>::empty()
    } else {
        lines_between(c, start - 1, end)
    }
}

/// Each line with a `\n` after it.
pub open spec fn with_nl(ls: Seq<Seq<u8>>) -> Seq<Seq<u8>> {
    ls.map_values(|l: Seq<u8>| l.push(nl()))
}

/// No `\n` among the first `off` bytes of `l`: none is counted there.
proof fn lemma_nl_before_none(l: Seq<u8>, off: int)
    requires
        0 <= off <= l.len(),
        forall|j: int| 0 <= j < off ==> l[j] != nl(),
    ensures
        nl_before(l, off) == 0,
    decreases off,
{
    if off > 0 {
        lemma_nl_before_none(l, off - 1);
    }
}

/// Lines without `\n`, each followed by one, hold one `\n` per line.
proof fn lemma_nl_count_with_nl(ls: Seq<Seq<u8>>)
    requires
        forall|i: int, j: int| 0 <= i < ls.len() && 0 <= j < ls[i].len() ==> ls[i][j] != nl(),
    ensures
        nl_before(with_nl(ls).flatten(), with_nl(ls).flatten().len() as int) == ls.len(),
    decreases ls.len(),
{
    if ls.len() == 0 {
        assert(with_nl(ls).flatten() =~= Seq::<u8>::empty());
    } else {
        let init = ls.drop_last();
        let l = ls.last();
        assert forall|i: int, j: int| 0 <= i < init.len() && 0 <= j < init[i].len() implies init[i][j]
            != nl() by {
            assert(init[i] == ls[i]);
        }
        lemma_nl_count_with_nl(init);
        assert(with_nl(ls) =~= with_nl(init).push(l.push(nl())));
        with_nl(init).lemma_flatten_push(l.push(nl()));
        let a = with_nl(init).flatten();
        let b = l.push(nl());
        lemma_nl_before_concat(a, b, b.len() as int);
        assert forall|j: int| 0 <= j < l.len() implies b[j] != nl() by {
            assert(b[j] == ls[ls.len() - 1][j]);
        }
        lemma_nl_before_none(b, l.len() as int);
    }
}

/// What [`split_lines`] gives holds no `\n`; joined back, each line
/// followed by `\n`, the lines give the content, with one `\n` more when
/// the content is not empty and does not end with `\n`. So there are as
/// many lines as `\n`, plus one for a last line without `\n`.
pub proof fn lemma_split_lines_rejoin(c: Seq<u8>)
    ensures
        forall|i: int, j: int|
            0 <= i < plain_lines(c).len() && 0 <= j < plain_lines(c)[i].len() ==> plain_lines(
                c,
            )[i][j] != nl(),
        with_nl(plain_lines(c)).flatten() == if closed(c) {
            c
        } else {
            c.push(nl())
        },
        plain_lines(c).len() == nl_before(c, c.len() as int) + if closed(c) {
            0nat
        } else {
            1nat
        },
{
    let fl = full_lines(c);
    let pl = plain_lines(c);
    lemma_full_lines_ok(c);
    assert forall|i: int, j: int| 0 <= i < pl.len() && 0 <= j < pl[i].len() implies pl[i][j]
        != nl() by {
        assert(pl[i] == strip_nl(fl[i]));
        assert(line_ok(fl[i]));
        assert(pl[i][j] == fl[i][j]);
    }
    let w = with_nl(pl);
    if fl.len() == 0 {
        assert(w =~= Seq::<Seq<u8>>::empty());
        assert(w.flatten() =~= c);
    } else {
        let n = fl.len() as int;
        let init = fl.drop_last();
        let last = fl.last();
        assert(fl =~= init.push(last));
        init.lemma_flatten_push(last);
        lemma_flatten_last(fl);
        assert(line_ok(fl[n - 1]));
        assert forall|k: int| 0 <= k < n - 1 implies w[k] == fl[k] by {
            assert(ends_nl(fl[k]));
            assert(fl[k].drop_last().push(nl()) =~= fl[k]);
        }
        if closed(c) {
            assert(ends_nl(last));
            assert(last.drop_last().push(nl()) =~= last);
            assert(w =~= fl);
        } else {
            assert(!ends_nl(last));
            assert(w =~= init.push(last.push(nl())));
            init.lemma_flatten_push(last.push(nl()));
            assert(w.flatten() =~= c.push(nl()));
        }
    }
    lemma_nl_count_with_nl(pl);
    if !closed(c) {
        lemma_nl_before_prefix(c, seq![nl()], c.len() as int);
        assert(c.push(nl()) =~= c + seq![nl()]);
    }
}

/// The bytes of two adjacent ranges of lines, one after the other, are the
/// bytes of the range they make up; the range of all lines is the content.
pub proof fn lemma_range_bytes_concat(c: Seq<u8>, s: int, m: int, e: int)
    requires
        1 <= s <= m < e <= line_count(c),
    ensures
        range_bytes(c, s, m) + range_bytes(c, m + 1, e) == range_bytes(c, s, e),
        range_bytes(c, 1, line_count(c) as int) == c,
{
    let fl = full_lines(c);
    assert(fl.subrange(s - 1, e) =~= fl.subrange(s - 1, m) + fl.subrange(m, e));
    vstd::seq_lib::lemma_flatten_concat(fl.subrange(s - 1, m), fl.subrange(m, e));
    lemma_full_lines_ok(c);
    assert(fl.subrange(0, fl.len() as int) =~= fl);
}

/// Bytes of lines `start ..= end` (1-based), each with the `\n` it has in
/// `content`. Empty when the range is out of bounds (`start == 0`,
/// `end < start` or `end` past the last line).
pub fn extract_line_range_with_newline(content: &[u8], start: usize, end: usize) -> (r: Vec<u8>)
    ensures
        r@ == range_bytes(content@, start as int, end as int),
{
    let mut out: Vec<u8> = Vec::new();
    if start == 0 || end < start {
        return out;
    }
    let spans = line_spans(content);
    if end > spans.len() {
        return out;
    }
    push_lines(&mut out, content, &spans, start - 1, end);
    assert(out@ =~= lines_between(content@, start - 1, end as int));
    out
}

/// The five ways to locate text. A write names exactly one.
#[allow(inconsistent_fields)]
pub enum Locator {
    /// `--lines a[-b]`: a 1-based closed range.
    Lines { start: usize, end: usize },
    /// `--match-line <regex>`: the `occurrence`-th line (1-based) that matches.
    MatchLine { regex: LineRegex, occurrence: usize },
    /// `--between <start>..<end>`: literal anchors, each found inside a line.
    Between { start: ByteSeq, end: ByteSeq, start_occ: usize, end_occ: usize, inclusive: bool },
    /// `--between-re <re>..<re>`: regex anchors, each matched against a line.
    BetweenRe {
        start: LineRegex,
        end: LineRegex,
        start_occ: usize,
        end_occ: usize,
        inclusive: bool,
    },
    /// `--pattern <regex>`: byte matches, handled by the pattern replacement.
    Pattern { regex: ByteRegex, count: Count },
}

/// A locator as values: regexes by their patterns.
pub enum LocatorView {
    Lines(usize, usize),
    MatchLine(Seq<char>, usize),
    Between(Seq<u8>, Seq<u8>, usize, usize, bool),
    BetweenRe(Seq<char>, Seq<char>, usize, usize, bool),
    Pattern(Seq<char>, Count),
}

impl View for Locator {
    type V = LocatorView;

    open spec fn view(&self) -> LocatorView {
        match self {
            Locator::Lines { start, end } => LocatorView::Lines(*start, *end),
            Locator::MatchLine { regex, occurrence } => LocatorView::MatchLine(
                regex.pattern_view(),
                *occurrence,
            ),
            Locator::Between { start, end, start_occ, end_occ, inclusive } => LocatorView::Between(
                start@,
                end@,
                *start_occ,
                *end_occ,
                *inclusive,
            ),
            Locator::BetweenRe { start, end, start_occ, end_occ, inclusive } => LocatorView::BetweenRe(
                start.pattern_view(),
                end.pattern_view(),
                *start_occ,
                *end_occ,
                *inclusive,
            ),
            Locator::Pattern { regex, count } => LocatorView::Pattern(regex.pattern_view(), *count),
        }
    }
}

/// Why a locator has no line range in a buffer.
#[derive(Debug, Clone, Copy, PartialEq, Eq)]
pub enum LocateError {
    OutOfBounds { requested: (usize, usize), actual: usize },
    InvalidRange { start: usize, end: usize },
    ZeroLine,
    MatchLineNotFound { occurrence: usize },
    BetweenStartNotFound { occurrence: usize },
    BetweenEndNotFound { occurrence: usize },
    PatternNotResolvable,
}

/// `needle` occurs in `hay` as a contiguous run.
pub open spec fn contains_seq(hay: Seq<u8>, needle: Seq<u8>) -> bool {
    exists|k: int|
        0 <= k && k + needle.len() <= hay.len() && #[trigger] hay.subrange(k, k + needle.len())
            == needle
}

/// A test on one line: a literal that the line contains, or a regex that the
/// line (decoded lossily) matches.
pub enum Anchor<'a> {
    Literal(&'a [u8]),
    Regex(&'a LineRegex),
}

impl<'a> Anchor<'a> {
    /// The line passes the test.
    pub open spec fn holds(self, line: Seq<u8>) -> bool {
        match self {
            Anchor::Literal(n) => contains_seq(line, n@),
            Anchor::Regex(r) => line_matches(r.pattern_view(), line),
        }
    }

    /// A literal anchor is not empty (an empty one has no window to compare).
    pub open spec fn usable(self) -> bool {
        match self {
            Anchor::Literal(n) => n@.len() > 0,
            Anchor::Regex(_) => true,
        }
    }

    /// Tests `line`.
    pub fn test(&self, line: &[u8]) -> (r: bool)
        requires
            self.usable(),
        ensures
            r == self.holds(line@),
    {
        match self {
            Anchor::Literal(n) => contains_bytes(line, n),
            Anchor::Regex(re) => re.matches_line(line),
        }
    }
}

/// Whether `needle` occurs in `hay`.
pub fn contains_bytes(hay: &[u8], needle: &[u8]) -> (r: bool)
    ensures
        r == contains_seq(hay@, needle@),
{
    if needle.len() > hay.len() {
        return false;
    }
    let last = hay.len() - needle.len();
    let mut k: usize = 0;
    while k <= last
        invariant
            last == hay.len() - needle.len(),
            needle.len() <= hay.len(),
            forall|j: int| 0 <= j < k ==> #[trigger] hay@.subrange(j, j + needle@.len()) != needle@,
        ensures
            forall|j: int|
                0 <= j <= last ==> #[trigger] hay@.subrange(j, j + needle@.len()) != needle@,
        decreases last + 1 - k,
    {
        let mut i: usize = 0;
        let mut same = true;
        while i < needle.len()
            invariant
                k <= last,
                last == hay.len() - needle.len(),
                0 <= i <= needle.len(),
                same == (forall|t: int| 0 <= t < i ==> hay@[k + t] == needle@[t]),
            decreases needle.len() - i,
        {
            if hay[k + i] != needle[i] {
                same = false;
            }
            i += 1;
        }
        if same {
            assert(hay@.subrange(k as int, k + needle@.len()) =~= needle@);
            return true;
        }
        assert(hay@.subrange(k as int, k + needle@.len()) != needle@) by {
            let t = choose|t: int| 0 <= t < needle.len() && hay@[k + t] != needle@[t];
            assert(hay@.subrange(k as int, k + needle@.len())[t] == hay@[k + t]);
        }
        if k == last {
            break;
        }
        k += 1;
    }
    false
}

/// Number of `true` entries among `p[0..i)`.
pub open spec fn hits_before(p: Seq<bool>, i: int) -> nat
    decreases i,
{
    if i <= 0 {
        0
    } else {
        hits_before(p, i - 1) + if p[i - 1] {
            1nat
        } else {
            0nat
        }
    }
}

/// `i` is the `n`-th `true` entry of `p` (1-based `n`).
pub open spec fn is_nth_hit(p: Seq<bool>, n: int, i: int) -> bool {
    0 <= i < p.len() && p[i] && hits_before(p, i) + 1 == n
}

/// Index of the `n`-th `true` entry of `p`, if there is one.
pub open spec fn nth_hit(p: Seq<bool>, n: int) -> Option<int> {
    if exists|i: int| is_nth_hit(p, n, i) {
        Some(choose|i: int| is_nth_hit(p, n, i))
    } else {
        None
    }
}

/// Hits only accumulate.
pub proof fn lemma_hits_before_monotone(p: Seq<bool>, i: int, j: int)
    requires
        i <= j,
    ensures
        hits_before(p, i) <= hits_before(p, j),
    decreases j - i,
{
    if i < j {
        lemma_hits_before_monotone(p, i, j - 1);
    }
}

/// There is at most one `n`-th hit.
pub proof fn lemma_nth_hit_unique(p: Seq<bool>, n: int, i: int, j: int)
    requires
        is_nth_hit(p, n, i),
        is_nth_hit(p, n, j),
    ensures
        i == j,
{
    if i < j {
        lemma_hits_before_monotone(p, i + 1, j);
    } else if j < i {
        lemma_hits_before_monotone(p, j + 1, i);
    }
}

/// `nth_hit` is the unique `n`-th hit, or none exists.
pub proof fn lemma_nth_hit(p: Seq<bool>, n: int)
    ensures
        match nth_hit(p, n) {
            Some(i) => is_nth_hit(p, n, i),
            None => forall|i: int| !is_nth_hit(p, n, i),
        },
        forall|i: int| is_nth_hit(p, n, i) ==> nth_hit(p, n) == Some(i),
{
    if exists|i: int| is_nth_hit(p, n, i) {
        let c = choose|i: int| is_nth_hit(p, n, i);
        assert forall|i: int| is_nth_hit(p, n, i) implies nth_hit(p, n) == Some(i) by {
            lemma_nth_hit_unique(p, n, c, i);
        }
    }
}

/// For each line, whether it contains `needle`.
pub open spec fn literal_flags(needle: Seq<u8>, lines: Seq<Seq<u8>>) -> Seq<bool> {
    lines.map_values(|l: Seq<u8>| contains_seq(l, needle))
}

/// For each line, whether it matches the regex `pattern`.
pub open spec fn regex_flags(pattern: Seq<char>, lines: Seq<Seq<u8>>) -> Seq<bool> {
    lines.map_values(|l: Seq<u8>| line_matches(pattern, l))
}

/// For each line, whether the anchor holds on it.
pub open spec fn hit_flags(a: Anchor, lines: Seq<Seq<u8>>) -> Seq<bool> {
    match a {
        Anchor::Literal(n) => literal_flags(n@, lines),
        Anchor::Regex(r) => regex_flags(r.pattern_view(), lines),
    }
}

/// The views of a vector of byte vectors.
pub open spec fn views(v: Seq<Vec<u8>>) -> Seq<Seq<u8>> {
    v.map_values(|x: Vec<u8>| x@)
}

/// The `n`-th line at or after `from` (0-based) that the anchor holds on.
fn find_nth(lines: &Vec<Vec<u8>>, from: usize, a: &Anchor, n: usize) -> (r: Option<usize>)
    requires
        a.usable() || from == lines.len(),
        n >= 1,
        from <= lines.len(),
    ensures
        ({
            let p = hit_flags(*a, views(lines@)).subrange(from as int, lines@.len() as int);
            match r {
                Some(i) => from <= i < lines@.len() && nth_hit(p, n as int) == Some(i - from),
                None => nth_hit(p, n as int) is None,
            }
        }),
{
    let ghost p = hit_flags(*a, views(lines@)).subrange(from as int, lines@.len() as int);
    let mut hit: usize = 0;
    let mut i: usize = from;
    while i < lines.len()
        invariant
            a.usable() || from == lines.len(),
            n >= 1,
            from <= i <= lines.len(),
            p == hit_flags(*a, views(lines@)).subrange(from as int, lines@.len() as int),
            hit == hits_before(p, i - from),
            hit < n,
            forall|j: int| 0 <= j < i - from ==> !is_nth_hit(p, n as int, j),
        decreases lines.len() - i,
    {
        let h = a.test(lines[i].as_slice());
        assert(p[i - from] == h);
        if h {
            if hit + 1 == n {
                proof {
                    assert(is_nth_hit(p, n as int, i - from));
                    lemma_nth_hit(p, n as int);
                }
                return Some(i);
            }
            hit += 1;
        }
        i += 1;
    }
    proof {
        lemma_nth_hit(p, n as int);
    }
    None
}

/// A 1-based line number as a `usize`.
pub open spec fn line_no(i: int) -> usize {
    (i + 1) as usize
}

/// What the two-anchor scan gives: the `so`-th start hit, then the `eo`-th
/// end hit strictly after it; both anchor lines kept when `inclusive`, both
/// dropped otherwise (an empty range between them is refused).
pub open spec fn between_result(
    ps: Seq<bool>,
    pe: Seq<bool>,
    so: usize,
    eo: usize,
    inclusive: bool,
) -> Result<Resolved, LocateError> {
    if so == 0 || eo == 0 {
        Err(LocateError::ZeroLine)
    } else {
        match nth_hit(ps, so as int) {
            None => Err(LocateError::BetweenStartNotFound { occurrence: so }),
            Some(s) => match nth_hit(pe.subrange(s + 1, pe.len() as int), eo as int) {
                None => Err(LocateError::BetweenEndNotFound { occurrence: eo }),
                Some(j) => {
                    let e = s + 1 + j;
                    if inclusive {
                        Ok(Resolved { start_line: line_no(s), end_line: line_no(e) })
                    } else if s + 2 > e {
                        Err(LocateError::InvalidRange { start: (s + 2) as usize, end: e as usize })
                    } else {
                        Ok(Resolved { start_line: (s + 2) as usize, end_line: e as usize })
                    }
                },
            },
        }
    }
}

/// Where a locator points in `c`.
pub open spec fn resolve_result(loc: Locator, c: Seq<u8>) -> Result<Resolved, LocateError> {
    let lines = plain_lines(c);
    let total = line_count(c);
    match loc {
        Locator::Lines { start, end } => {
            if start == 0 || end == 0 {
                Err(LocateError::ZeroLine)
            } else if end < start {
                Err(LocateError::InvalidRange { start, end })
            } else if end > total {
                Err(LocateError::OutOfBounds { requested: (start, end), actual: total as usize })
            } else {
                Ok(Resolved { start_line: start, end_line: end })
            }
        },
        Locator::MatchLine { regex, occurrence } => {
            if occurrence == 0 {
                Err(LocateError::ZeroLine)
            } else {
                match nth_hit(regex_flags(regex.pattern_view(), lines), occurrence as int) {
                    Some(i) => Ok(Resolved { start_line: line_no(i), end_line: line_no(i) }),
                    None => Err(LocateError::MatchLineNotFound { occurrence }),
                }
            }
        },
        Locator::Between { start, end, start_occ, end_occ, inclusive } => between_result(
            literal_flags(start@, lines),
            literal_flags(end@, lines),
            start_occ,
            end_occ,
            inclusive,
        ),
        Locator::BetweenRe { start, end, start_occ, end_occ, inclusive } => between_result(
            regex_flags(start.pattern_view(), lines),
            regex_flags(end.pattern_view(), lines),
            start_occ,
            end_occ,
            inclusive,
        ),
        Locator::Pattern { .. } => Err(LocateError::PatternNotResolvable),
    }
}

/// A `Between` locator has non-empty anchors (an empty one has no window
/// to compare); every other locator can be resolved as it is.
pub open spec fn locator_usable(loc: Locator) -> bool {
    match loc {
        Locator::Between { start, end, .. } => start@.len() > 0 && end@.len() > 0,
        _ => true,
    }
}

/// Resolving `loc` in `c` never tests an empty `Between` anchor against a
/// line (such a test has no window to compare): an empty start anchor is
/// tested on every line until its hit, an empty end anchor on every line
/// after the start line.
pub open spec fn locator_resolvable(loc: Locator, c: Seq<u8>) -> bool {
    match loc {
        Locator::Between { start, end, start_occ, end_occ, .. } => {
            let lines = plain_lines(c);
            ||| start_occ == 0
            ||| end_occ == 0
            ||| {
                &&& start@.len() > 0 || lines.len() == 0
                &&& end@.len() > 0 || match nth_hit(
                    literal_flags(start@, lines),
                    start_occ as int,
                ) {
                    Some(s) => s + 1 >= lines.len(),
                    None => true,
                }
            }
        },
        _ => true,
    }
}

/// A locator without empty anchors resolves in any buffer.
pub proof fn lemma_usable_resolvable(loc: Locator, c: Seq<u8>)
    requires
        locator_usable(loc),
    ensures
        locator_resolvable(loc, c),
{
}

/// Whether `loc` can be resolved in `content` (see [`locator_resolvable`]).
pub fn resolvable(loc: &Locator, content: &[u8]) -> (r: bool)
    ensures
        r == locator_resolvable(*loc, content@),
{
    match loc {
        Locator::Between { start, end, start_occ, end_occ, .. } => {
            if *start_occ == 0 || *end_occ == 0 {
                return true;
            }
            let lines = split_lines(content);
            assert(views(lines@) == plain_lines(content@));
            if start.len() == 0 && lines.len() > 0 {
                return false;
            }
            if end.len() > 0 {
                return true;
            }
            let a = Anchor::Literal(start.as_slice());
            let found = find_nth(&lines, 0, &a, *start_occ);
            assert(hit_flags(a, views(lines@)).subrange(0, lines@.len() as int) =~= hit_flags(
                a,
                views(lines@),
            ));
            match found {
                Some(i) => i + 1 >= lines.len(),
                None => true,
            }
        },
        _ => true,
    }
}

/// Resolves `loc` to a 1-based closed line range of `content`.
///
/// A `Pattern` locator has no line range here: the pattern replacement
/// handles it on the whole buffer.
pub fn resolve(loc: &Locator, content: &[u8]) -> (r: Result<Resolved, LocateError>)
    requires
        locator_resolvable(*loc, content@),
    ensures
        r == resolve_result(*loc, content@),
{
    let lines = split_lines(content);
    let total = lines.len();
    assert(views(lines@) == plain_lines(content@));
    assert(total == line_count(content@));
    match loc {
        Locator::Lines { start, end } => {
            if *start == 0 || *end == 0 {
                return Err(LocateError::ZeroLine);
            }
            if *end < *start {
                return Err(LocateError::InvalidRange { start: *start, end: *end });
            }
            if *end > total {
                return Err(LocateError::OutOfBounds { requested: (*start, *end), actual: total });
            }
            Ok(Resolved { start_line: *start, end_line: *end })
        },
        Locator::MatchLine { regex, occurrence } => {
            if *occurrence == 0 {
                return Err(LocateError::ZeroLine);
            }
            let a = Anchor::Regex(regex);
            let found = find_nth(&lines, 0, &a, *occurrence);
            assert(hit_flags(a, views(lines@)).subrange(0, lines@.len() as int) =~= hit_flags(
                a,
                views(lines@),
            ));
            match found {
                Some(i) => Ok(Resolved { start_line: i + 1, end_line: i + 1 }),
                None => Err(LocateError::MatchLineNotFound { occurrence: *occurrence }),
            }
        },
        Locator::Between { start, end, start_occ, end_occ, inclusive } => resolve_between_with(
            &lines,
            *start_occ,
            *end_occ,
            *inclusive,
            &Anchor::Literal(start.as_slice()),
            &Anchor::Literal(end.as_slice()),
        ),
        Locator::BetweenRe { start, end, start_occ, end_occ, inclusive } => resolve_between_with(
            &lines,
            *start_occ,
            *end_occ,
            *inclusive,
            &Anchor::Regex(start),
            &Anchor::Regex(end),
        ),
        Locator::Pattern { .. } => Err(LocateError::PatternNotResolvable),
    }
}

/// The scan that `Between` and `BetweenRe` share: the `start_occ`-th start
/// line, then the `end_occ`-th end line after it.
fn resolve_between_with(
    lines: &Vec<Vec<u8>>,
    start_occ: usize,
    end_occ: usize,
    inclusive: bool,
    is_start: &Anchor,
    is_end: &Anchor,
) -> (r: Result<Resolved, LocateError>)
    requires
        start_occ == 0 || end_occ == 0 || {
            &&& is_start.usable() || lines.len() == 0
            &&& is_end.usable() || match nth_hit(
                hit_flags(*is_start, views(lines@)),
                start_occ as int,
            ) {
                Some(s) => s + 1 >= lines.len(),
                None => true,
            }
        },
    ensures
        r == between_result(
            hit_flags(*is_start, views(lines@)),
            hit_flags(*is_end, views(lines@)),
            start_occ,
            end_occ,
            inclusive,
        ),
{
    let ghost ps = hit_flags(*is_start, views(lines@));
    let ghost pe = hit_flags(*is_end, views(lines@));
    if start_occ == 0 || end_occ == 0 {
        return Err(LocateError::ZeroLine);
    }
    let found = find_nth(lines, 0, is_start, start_occ);
    assert(ps.subrange(0, lines@.len() as int) =~= ps);
    let s_idx = match found {
        Some(i) => i,
        None => {
            return Err(LocateError::BetweenStartNotFound { occurrence: start_occ });
        },
    };
    assert(s_idx < lines.len());
    let found_end = find_nth(lines, s_idx + 1, is_end, end_occ);
    let e_idx = match found_end {
        Some(i) => i,
        None => {
            return Err(LocateError::BetweenEndNotFound { occurrence: end_occ });
        },
    };
    if inclusive {
        Ok(Resolved { start_line: s_idx + 1, end_line: e_idx + 1 })
    } else {
        let s = s_idx + 2;
        let e = e_idx;
        if s > e {
            return Err(LocateError::InvalidRange { start: s, end: e });
        }
        Ok(Resolved { start_line: s, end_line: e })
    }
}

/// A resolved range is a non-empty range of existing lines:
/// `1 <= start_line <= end_line <= line_count`.
pub proof fn lemma_resolved_in_bounds(loc: Locator, c: Seq<u8>)
    requires
        c.len() <= usize::MAX,
        resolve_result(loc, c) is Ok,
    ensures
        ({
            let r = resolve_result(loc, c)->Ok_0;
            1 <= r.start_line <= r.end_line <= line_count(c)
        }),
{
    let lines = plain_lines(c);
    lemma_line_count_le_len(c);
    match loc {
        Locator::MatchLine { regex, occurrence } => {
            lemma_nth_hit(regex_flags(regex.pattern_view(), lines), occurrence as int);
        },
        Locator::Between { start, end, start_occ, end_occ, inclusive } => {
            lemma_between_in_bounds(
                literal_flags(start@, lines),
                literal_flags(end@, lines),
                start_occ,
                end_occ,
                inclusive,
                line_count(c),
            );
        },
        Locator::BetweenRe { start, end, start_occ, end_occ, inclusive } => {
            lemma_between_in_bounds(
                regex_flags(start.pattern_view(), lines),
                regex_flags(end.pattern_view(), lines),
                start_occ,
                end_occ,
                inclusive,
                line_count(c),
            );
        },
        _ => {},
    }
}

proof fn lemma_between_in_bounds(
    ps: Seq<bool>,
    pe: Seq<bool>,
    so: usize,
    eo: usize,
    inclusive: bool,
    n: nat,
)
    requires
        ps.len() == n,
        pe.len() == n,
        n <= usize::MAX,
        between_result(ps, pe, so, eo, inclusive) is Ok,
    ensures
        ({
            let r = between_result(ps, pe, so, eo, inclusive)->Ok_0;
            1 <= r.start_line <= r.end_line <= n
        }),
{
    lemma_nth_hit(ps, so as int);
    let s = nth_hit(ps, so as int)->Some_0;
    lemma_nth_hit(pe.subrange(s + 1, pe.len() as int), eo as int);
}

} // verus!
