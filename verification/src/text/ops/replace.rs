//! `replace`: replace or delete a line range, or substitute regex matches.
//!
//! A range is replaced by the payload. When the payload does not end with
//! `\n` but the last line of the range did, a `\n` is added; an empty payload
//! deletes the range with its line ends.

use vstd::prelude::*;

use vstd::string::StringSliceAdditionalSpecFns;

use crate::text::location::Count;
use crate::text::pattern::{bytes_regex_match_starts, bytes_regex_replacen, ByteRegex};
use crate::text::lines::{
    bytes_result, ends_nl, full_lines, line_count, line_ok, line_spans, lines_between, nl,
    push_all, push_lines, span_has_nl, lemma_flatten_last, lemma_full_lines_ok,
};

verus! {

/// Why a range replacement was refused.
#[derive(Debug, Clone, Copy, PartialEq, Eq)]
pub enum ReplaceError {
    OutOfBounds { start: usize, end: usize, total: usize },
    ZeroLine,
    InvalidRange { start: usize, end: usize },
}

/// The payload as it is written in place of a range whose last line ends
/// with `\n` exactly when `tail_nl`.
pub open spec fn range_payload(p: Seq<u8>, tail_nl: bool) -> Seq<u8> {
    if p.len() > 0 && tail_nl && p.last() != nl() {
        p.push(nl())
    } else {
        p
    }
}

/// `c` with lines `s ..= e` (1-based, in bounds) replaced by `p`.
pub open spec fn replaced_range(c: Seq<u8>, s: int, e: int, p: Seq<u8>) -> Seq<u8> {
    lines_between(c, 0, s - 1) + range_payload(p, ends_nl(full_lines(c)[e - 1]))
        + lines_between(c, e, line_count(c) as int)
}

/// What `replace_range` gives for lines `s ..= e` of `c` and payload `p`.
pub open spec fn replace_range_result(c: Seq<u8>, s: usize, e: usize, p: Seq<u8>) -> Result<
    Seq<u8>,
    ReplaceError,
> {
    if s == 0 || e == 0 {
        Err(ReplaceError::ZeroLine)
    } else if e < s {
        Err(ReplaceError::InvalidRange { start: s, end: e })
    } else if e > line_count(c) {
        Err(ReplaceError::OutOfBounds { start: s, end: e, total: line_count(c) as usize })
    } else {
        Ok(replaced_range(c, s as int, e as int, p))
    }
}

/// Replaces lines `start_line ..= end_line` (1-based, closed) of `content`
/// by `payload` and returns the new buffer; an empty payload deletes them.
pub fn replace_range(content: &[u8], start_line: usize, end_line: usize, payload: &[u8]) -> (r:
    Result<Vec<u8>, ReplaceError>)
    ensures
        bytes_result(r) == replace_range_result(content@, start_line, end_line, payload@),
{
    if start_line == 0 || end_line == 0 {
        return Err(ReplaceError::ZeroLine);
    }
    if end_line < start_line {
        return Err(ReplaceError::InvalidRange { start: start_line, end: end_line });
    }
    let spans = line_spans(content);
    let total = spans.len();
    if end_line > total {
        return Err(ReplaceError::OutOfBounds { start: start_line, end: end_line, total });
    }
    let last_has_nl = span_has_nl(content, &spans, end_line - 1);
    let mut out: Vec<u8> = Vec::new();
    push_lines(&mut out, content, &spans, 0, start_line - 1);
    if payload.len() > 0 {
        push_all(&mut out, payload);
        if last_has_nl && payload[payload.len() - 1] != 10u8 {
            out.push(10u8);
        }
    }
    push_lines(&mut out, content, &spans, end_line, total);
    proof {
        let p = payload@;
        if p.len() > 0 {
            assert(p.last() == p[p.len() - 1]);
        }
        assert(out@ =~= replaced_range(content@, start_line as int, end_line as int, p));
    }
    Ok(out)
}


/// Replacing a range by its own bytes (as `extract_line_range_with_newline`
/// gives them) leaves the buffer unchanged.
pub proof fn lemma_replace_range_with_own_lines(c: Seq<u8>, s: usize, e: usize)
    requires
        1 <= s <= e <= line_count(c),
    ensures
        replace_range_result(c, s, e, lines_between(c, s - 1, e as int)) == Ok::<
            Seq<u8>,
            ReplaceError,
        >(c),
{
    let fl = full_lines(c);
    let n = fl.len() as int;
    lemma_full_lines_ok(c);
    let mid = fl.subrange(s - 1, e as int);
    assert(mid.last() == fl[e - 1]);
    assert(line_ok(fl[e - 1]));
    lemma_flatten_last(mid);
    let p = mid.flatten();
    assert(range_payload(p, ends_nl(fl[e - 1])) == p);
    let left = fl.subrange(0, s - 1);
    let right = fl.subrange(e as int, n);
    vstd::seq_lib::lemma_flatten_concat(left, mid);
    vstd::seq_lib::lemma_flatten_concat(left + mid, right);
    assert(left + mid + right =~= fl);
}

/// The `replacen` limit for a count: `0` stands for every match.
pub open spec fn count_limit(count: Count) -> usize {
    match count {
        Count::All => 0,
        Count::First(n) => n,
    }
}

/// How many of `found` matches a count touches.
pub open spec fn count_touched(count: Count, found: nat) -> nat {
    match count {
        Count::All => found,
        Count::First(n) => if n < found {
            n as nat
        } else {
            found
        },
    }
}

/// Substitutes the first `count` matches of `re` in `content` (every match
/// for `Count::All`) by `replacement`, where `$1` and `${name}` expand to
/// groups. Returns the new buffer and how many matches were replaced.
pub fn replace_pattern(content: &[u8], re: &ByteRegex, replacement: &str, count: Count) -> (r: (
    Vec<u8>,
    usize,
))
    ensures
        r.0@ == bytes_regex_replacen(
            re.pattern_view(),
            content@,
            count_limit(count),
            replacement.spec_bytes(),
        ),
        r.1 == count_touched(count, bytes_regex_match_starts(re.pattern_view(), content@).len()),
        bytes_regex_match_starts(re.pattern_view(), content@).len() == 0 ==> r.0@ == content@
            && r.1 == 0,
{
    let limit = match count {
        Count::All => 0,
        Count::First(n) => n,
    };
    let starts = re.match_starts(content);
    let found = starts.len();
    let n_replaced = match count {
        Count::All => found,
        Count::First(n) => if n < found {
            n
        } else {
            found
        },
    };
    let new_bytes = re.replacen(content, limit, replacement.as_bytes());
    (new_bytes, n_replaced)
}

} // verus!
