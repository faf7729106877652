//! `peek`: lines of a buffer with their numbers.
//!
//! A range of lines, every line a regex matches with some lines of context
//! around it, or the whole buffer. Each line is written as its number,
//! right-aligned to six columns, `": "`, its bytes and `\n`.

use vstd::prelude::*;

use crate::text::chars::{decimal, push_decimal};
use crate::text::lines::{line_count, lemma_line_count_le_len, nl, plain_lines, push_all};
use crate::text::location::{
    lemma_resolved_in_bounds, regex_flags, resolve, resolve_result, split_lines, views,
    LocateError, Locator, Resolved,
};
use crate::text::ops::find::true_indices;
use crate::text::pattern::LineRegex;

verus! {

/// Which lines to show.
pub enum PeekRange {
    /// Lines `start ..= end`.
    Lines { start: usize, end: usize },
    /// Every line the regex matches, with `context` lines on each side.
    MatchLine { regex: LineRegex, context: usize },
    /// The whole buffer.
    All,
}

/// What to show and how much of it.
pub struct PeekOpts {
    pub range: PeekRange,
    /// At most this many lines are written; `None` for no cap.
    pub max_lines: Option<usize>,
}

/// Why nothing could be shown.
#[derive(Debug, Clone, PartialEq, Eq)]
pub enum PeekError {
    Locate(LocateError),
    Io(String),
}

/// How much was written.
#[derive(Debug, Clone, Copy, PartialEq, Eq, Structural)]
pub struct PeekResult {
    /// Lines written.
    pub lines_written: usize,
    /// Lines were left out because of the cap.
    pub truncated: bool,
}

/// Lines `n - ctx ..= n + ctx`, kept within `1 ..= total`.
pub open spec fn window(n: int, ctx: int, total: int) -> Resolved {
    let lo = if n - ctx < 1 {
        1
    } else {
        n - ctx
    };
    let hi = if n + ctx < total {
        n + ctx
    } else {
        total
    };
    Resolved { start_line: lo as usize, end_line: hi as usize }
}

/// `cur` followed by `rest`, where each range that overlaps or touches the
/// one before is joined to it.
pub open spec fn merge_into(cur: Resolved, rest: Seq<Resolved>) -> Seq<Resolved>
    decreases rest.len(),
{
    if rest.len() == 0 {
        seq![cur]
    } else {
        let next = rest[0];
        if next.start_line <= cur.end_line + 1 {
            let end = if next.end_line > cur.end_line {
                next.end_line
            } else {
                cur.end_line
            };
            merge_into(Resolved { start_line: cur.start_line, end_line: end }, rest.drop_first())
        } else {
            seq![cur] + merge_into(next, rest.drop_first())
        }
    }
}

/// The ranges with overlapping or adjacent neighbours joined.
pub open spec fn merged(rs: Seq<Resolved>) -> Seq<Resolved> {
    if rs.len() == 0 {
        Seq::empty()
    } else {
        merge_into(rs[0], rs.drop_first())
    }
}

/// Ranges in order of their first line.
pub open spec fn sorted_by_start(rs: Seq<Resolved>) -> bool {
    forall|i: int, j: int| 0 <= i <= j < rs.len() ==> rs[i].start_line <= rs[j].start_line
}

/// How many ranges at the front of `rs` start no later than `x`.
pub open spec fn prefix_not_after(x: Resolved, rs: Seq<Resolved>) -> nat
    decreases rs.len(),
{
    if rs.len() == 0 {
        0
    } else if rs[0].start_line <= x.start_line {
        1 + prefix_not_after(x, rs.drop_first())
    } else {
        0
    }
}

/// `rs` ordered by first line, ranges with equal first lines kept in their
/// order (a stable sort by insertion).
pub open spec fn by_start(rs: Seq<Resolved>) -> Seq<Resolved>
    decreases rs.len(),
{
    if rs.len() == 0 {
        Seq::empty()
    } else {
        let sorted = by_start(rs.drop_last());
        sorted.insert(prefix_not_after(rs.last(), sorted) as int, rs.last())
    }
}

/// Every range is a non-empty range of lines `1 ..= total`.
pub open spec fn ranges_within(rs: Seq<Resolved>, total: int) -> bool {
    forall|i: int|
        0 <= i < rs.len() ==> 1 <= (#[trigger] rs[i]).start_line <= rs[i].end_line <= total
}

/// The ranges a peek shows in `c`, or why there are none.
pub open spec fn peek_ranges(range: PeekRange, c: Seq<u8>) -> Result<Seq<Resolved>, LocateError> {
    let total = line_count(c) as int;
    match range {
        PeekRange::Lines { start, end } => match resolve_result(
            Locator::Lines { start, end },
            c,
        ) {
            Ok(r) => Ok(seq![r]),
            Err(e) => Err(e),
        },
        PeekRange::MatchLine { regex, context } => {
            let idx = true_indices(regex_flags(regex.pattern_view(), plain_lines(c)));
            if idx.len() == 0 {
                Err(LocateError::MatchLineNotFound { occurrence: 1 })
            } else {
                Ok(merged(idx.map_values(|i: int| window(i + 1, context as int, total))))
            }
        },
        PeekRange::All => if total == 0 {
            Ok(Seq::empty())
        } else {
            Ok(seq![Resolved { start_line: 1, end_line: total as usize }])
        },
    }
}

/// The line numbers of a range, in order.
pub open spec fn range_nums(r: Resolved) -> Seq<int> {
    let n = if r.end_line >= r.start_line {
        r.end_line - r.start_line + 1
    } else {
        0
    };
    Seq::new(n as nat, |k: int| r.start_line + k)
}

/// The line numbers of all ranges, in order.
pub open spec fn all_nums(rs: Seq<Resolved>) -> Seq<int>
    decreases rs.len(),
{
    if rs.len() == 0 {
        Seq::empty()
    } else {
        all_nums(rs.drop_last()) + range_nums(rs.last())
    }
}

/// `d` right-aligned with spaces to width `w`.
pub open spec fn pad_left(d: Seq<u8>, w: nat) -> Seq<u8> {
    if d.len() < w {
        Seq::new((w - d.len()) as nat, |k: int| 32u8) + d
    } else {
        d
    }
}

/// Line `n` (1-based) of `lines`, or nothing past the end.
pub open spec fn line_at(lines: Seq<Seq<u8>>, n: int) -> Seq<u8> {
    if 1 <= n <= lines.len() {
        lines[n - 1]
    } else {
        Seq::empty()
    }
}

/// The text written for line `n`.
pub open spec fn peek_line(lines: Seq<Seq<u8>>, n: int) -> Seq<u8> {
    pad_left(decimal(n as nat), 6) + seq![58u8, 32u8] + line_at(lines, n) + seq![nl()]
}

/// The text written for the line numbers `nums`.
pub open spec fn peek_text(lines: Seq<Seq<u8>>, nums: Seq<int>) -> Seq<u8> {
    nums.map_values(|n: int| peek_line(lines, n)).flatten()
}

/// The cap on written lines (`usize::MAX` when there is none).
pub open spec fn line_cap(max_lines: Option<usize>) -> int {
    match max_lines {
        Some(m) => m as int,
        None => usize::MAX as int,
    }
}

/// Appends the text for line `n`.
fn push_peek_line(out: &mut Vec<u8>, n: usize, line: &[u8])
    ensures
        final(out)@ == old(out)@ + pad_left(decimal(n as nat), 6) + seq![58u8, 32u8] + line@
            + seq![nl()],
{
    let mut digits: Vec<u8> = Vec::new();
    push_decimal(&mut digits, n);
    assert(digits@ =~= decimal(n as nat));
    assert(Seq::new(0, |j: int| 32u8) =~= Seq::<u8>::empty());
    if digits.len() < 6 {
        let pad = 6 - digits.len();
        let mut k: usize = 0;
        while k < pad
            invariant
                0 <= k <= pad,
                out@ == old(out)@ + Seq::new(k as nat, |j: int| 32u8),
            decreases pad - k,
        {
            out.push(32u8);
            assert(Seq::new((k + 1) as nat, |j: int| 32u8) =~= Seq::new(k as nat, |j: int| 32u8).push(32u8));
            k += 1;
        }
    }
    push_all(out, digits.as_slice());
    out.push(58u8);
    out.push(32u8);
    push_all(out, line);
    out.push(10u8);
    assert(out@ =~= old(out)@ + pad_left(decimal(n as nat), 6) + seq![58u8, 32u8] + line@
        + seq![nl()]);
}

/// Line `n` lies in one of the ranges.
pub open spec fn covers(rs: Seq<Resolved>, n: int) -> bool {
    exists|i: int| 0 <= i < rs.len() && rs[i].start_line <= n <= #[trigger] rs[i].end_line
}

/// No range ends before it starts.
pub open spec fn all_nonempty(rs: Seq<Resolved>) -> bool {
    forall|i: int| 0 <= i < rs.len() ==> (#[trigger] rs[i]).start_line <= rs[i].end_line
}

/// Each range ends more than one line before every later range starts:
/// ascending, with no overlap and no contact.
pub open spec fn separated(rs: Seq<Resolved>) -> bool {
    forall|a: int, b: int| 0 <= a < b < rs.len() ==> rs[a].end_line + 1 < rs[b].start_line
}

/// A line lies in a non-empty sequence of ranges when it lies in its first
/// range or in the rest.
proof fn lemma_covers_first(rs: Seq<Resolved>)
    requires
        rs.len() > 0,
    ensures
        forall|n: int|
            #[trigger] covers(rs, n) == ((rs[0].start_line <= n <= rs[0].end_line) || covers(
                rs.drop_first(),
                n,
            )),
{
    assert forall|n: int| #[trigger] covers(rs, n) == ((rs[0].start_line <= n <= rs[0].end_line)
        || covers(rs.drop_first(), n)) by {
        if covers(rs, n) {
            let i = choose|i: int|
                0 <= i < rs.len() && rs[i].start_line <= n <= #[trigger] rs[i].end_line;
            if i > 0 {
                assert(rs.drop_first()[i - 1] == rs[i]);
            }
        }
        if covers(rs.drop_first(), n) {
            let i = choose|i: int|
                0 <= i < rs.drop_first().len() && rs.drop_first()[i].start_line <= n
                    <= #[trigger] rs.drop_first()[i].end_line;
            assert(rs[i + 1] == rs.drop_first()[i]);
        }
    }
}

/// Joining from `cur` on: non-empty ranges, separated, starting with
/// `cur`'s first line, covering the lines of `cur` and of `rest`.
proof fn lemma_merge_into(cur: Resolved, rest: Seq<Resolved>)
    requires
        cur.start_line <= cur.end_line,
        all_nonempty(rest),
        sorted_by_start(rest),
        forall|i: int| 0 <= i < rest.len() ==> cur.start_line <= (#[trigger] rest[i]).start_line,
    ensures
        merge_into(cur, rest).len() > 0,
        merge_into(cur, rest)[0].start_line == cur.start_line,
        forall|i: int|
            0 <= i < merge_into(cur, rest).len() ==> cur.start_line <= (#[trigger] merge_into(
                cur,
                rest,
            )[i]).start_line,
        all_nonempty(merge_into(cur, rest)),
        separated(merge_into(cur, rest)),
        forall|n: int|
            #[trigger] covers(merge_into(cur, rest), n) == ((cur.start_line <= n <= cur.end_line)
                || covers(rest, n)),
    decreases rest.len(),
{
    let m = merge_into(cur, rest);
    if rest.len() == 0 {
        assert(m == seq![cur]);
        assert forall|n: int| #[trigger] covers(m, n) == ((cur.start_line <= n <= cur.end_line)
            || covers(rest, n)) by {
            if cur.start_line <= n <= cur.end_line {
                assert(m[0] == cur);
            }
        }
    } else {
        let next = rest[0];
        let tail = rest.drop_first();
        assert(all_nonempty(tail)) by {
            assert forall|i: int| 0 <= i < tail.len() implies (#[trigger] tail[i]).start_line
                <= tail[i].end_line by {
                assert(tail[i] == rest[i + 1]);
            }
        }
        assert(sorted_by_start(tail)) by {
            assert forall|a: int, b: int| 0 <= a <= b < tail.len() implies tail[a].start_line
                <= tail[b].start_line by {
                assert(tail[a] == rest[a + 1] && tail[b] == rest[b + 1]);
            }
        }
        assert forall|i: int| 0 <= i < tail.len() implies next.start_line <= (
        #[trigger] tail[i]).start_line by {
            assert(tail[i] == rest[i + 1]);
        }
        assert(next.start_line <= next.end_line);
        lemma_covers_first(rest);
        if next.start_line <= cur.end_line + 1 {
            let end = if next.end_line > cur.end_line {
                next.end_line
            } else {
                cur.end_line
            };
            let c2 = Resolved { start_line: cur.start_line, end_line: end };
            assert forall|i: int| 0 <= i < tail.len() implies c2.start_line <= (
            #[trigger] tail[i]).start_line by {
                assert(tail[i] == rest[i + 1]);
            }
            lemma_merge_into(c2, tail);
            assert(m == merge_into(c2, tail));
        } else {
            let mm = merge_into(next, tail);
            lemma_merge_into(next, tail);
            assert(m == seq![cur] + mm);
            assert forall|i: int| 0 <= i < m.len() implies cur.start_line <= (
            #[trigger] m[i]).start_line by {
                if i > 0 {
                    assert(m[i] == mm[i - 1]);
                }
            }
            assert(all_nonempty(m)) by {
                assert forall|i: int| 0 <= i < m.len() implies (#[trigger] m[i]).start_line
                    <= m[i].end_line by {
                    if i > 0 {
                        assert(m[i] == mm[i - 1]);
                    }
                }
            }
            assert(separated(m)) by {
                assert forall|a: int, b: int| 0 <= a < b < m.len() implies m[a].end_line + 1
                    < m[b].start_line by {
                    assert(m[b] == mm[b - 1]);
                    if a > 0 {
                        assert(m[a] == mm[a - 1]);
                    } else {
                        assert(next.start_line <= mm[b - 1].start_line);
                    }
                }
            }
            lemma_covers_first(m);
            assert(m.drop_first() =~= mm);
        }
    }
}

/// Where a range goes among ranges ordered by first line: after those
/// starting no later, before the first starting later.
proof fn lemma_prefix_not_after(x: Resolved, rs: Seq<Resolved>)
    ensures
        prefix_not_after(x, rs) <= rs.len(),
        forall|m: int|
            0 <= m < prefix_not_after(x, rs) ==> (#[trigger] rs[m]).start_line <= x.start_line,
        prefix_not_after(x, rs) < rs.len() ==> rs[prefix_not_after(x, rs) as int].start_line
            > x.start_line,
    decreases rs.len(),
{
    if rs.len() > 0 && rs[0].start_line <= x.start_line {
        lemma_prefix_not_after(x, rs.drop_first());
        assert forall|m: int| 0 <= m < prefix_not_after(x, rs) implies (
        #[trigger] rs[m]).start_line <= x.start_line by {
            if m > 0 {
                assert(rs[m] == rs.drop_first()[m - 1]);
            }
        }
    }
}

/// Putting a range into a sequence adds the lines it covers.
proof fn lemma_covers_insert(s: Seq<Resolved>, p: int, x: Resolved)
    requires
        0 <= p <= s.len(),
    ensures
        forall|n: int|
            #[trigger] covers(s.insert(p, x), n) == (covers(s, n) || (x.start_line <= n
                <= x.end_line)),
        all_nonempty(s) && x.start_line <= x.end_line ==> all_nonempty(s.insert(p, x)),
{
    let r = s.insert(p, x);
    assert forall|n: int| #[trigger] covers(r, n) == (covers(s, n) || (x.start_line <= n
        <= x.end_line)) by {
        if covers(r, n) {
            let j = choose|j: int| 0 <= j < r.len() && r[j].start_line <= n <= #[trigger] r[j].end_line;
            if j < p {
                assert(r[j] == s[j]);
            } else if j > p {
                assert(r[j] == s[j - 1]);
            }
        }
        if covers(s, n) {
            let i = choose|i: int| 0 <= i < s.len() && s[i].start_line <= n <= #[trigger] s[i].end_line;
            if i < p {
                assert(r[i] == s[i]);
            } else {
                assert(r[i + 1] == s[i]);
            }
        }
        if x.start_line <= n <= x.end_line {
            assert(r[p] == x);
        }
    }
    if all_nonempty(s) && x.start_line <= x.end_line {
        assert forall|j: int| 0 <= j < r.len() implies (#[trigger] r[j]).start_line
            <= r[j].end_line by {
            if j < p {
                assert(r[j] == s[j]);
            } else if j > p {
                assert(r[j] == s[j - 1]);
            }
        }
    }
}

/// Inserting a range at its place keeps ranges ordered by first line.
proof fn lemma_insert_sorted(s: Seq<Resolved>, x: Resolved)
    requires
        sorted_by_start(s),
    ensures
        sorted_by_start(s.insert(prefix_not_after(x, s) as int, x)),
{
    lemma_prefix_not_after(x, s);
    let p = prefix_not_after(x, s) as int;
    let r = s.insert(p, x);
    assert forall|a: int, b: int| 0 <= a <= b < r.len() implies r[a].start_line
        <= r[b].start_line by {
        if b < p {
            assert(r[a] == s[a] && r[b] == s[b]);
        } else if b == p {
            if a < p {
                assert(r[a] == s[a]);
            }
        } else if a == p {
            assert(r[b] == s[b - 1]);
            assert(s[p].start_line > x.start_line);
            assert(s[p].start_line <= s[b - 1].start_line);
        } else if a < p {
            assert(r[a] == s[a] && r[b] == s[b - 1]);
        } else {
            assert(r[a] == s[a - 1] && r[b] == s[b - 1]);
        }
    }
}

/// Ordering by first line puts the ranges in order and keeps the lines
/// they cover.
proof fn lemma_by_start(rs: Seq<Resolved>)
    ensures
        by_start(rs).len() == rs.len(),
        sorted_by_start(by_start(rs)),
        all_nonempty(rs) ==> all_nonempty(by_start(rs)),
        forall|n: int| #[trigger] covers(by_start(rs), n) == covers(rs, n),
    decreases rs.len(),
{
    if rs.len() > 0 {
        let init = rs.drop_last();
        let x = rs.last();
        let s = by_start(init);
        lemma_by_start(init);
        lemma_prefix_not_after(x, s);
        let p = prefix_not_after(x, s) as int;
        assert(by_start(rs) == s.insert(p, x));
        lemma_insert_sorted(s, x);
        lemma_covers_insert(s, p, x);
        lemma_covers_insert(init, init.len() as int, x);
        assert(init.insert(init.len() as int, x) =~= rs);
        if all_nonempty(rs) {
            assert(all_nonempty(init)) by {
                assert forall|i: int| 0 <= i < init.len() implies (#[trigger] init[i]).start_line
                    <= init[i].end_line by {
                    assert(init[i] == rs[i]);
                }
            }
            assert(x == rs[rs.len() - 1]);
        }
    }
}

/// Merging ranges, in whatever order they come, gives non-empty ranges in
/// ascending order, none overlapping or touching the next, that cover
/// exactly the lines the given ranges cover; no ranges give none.
pub proof fn lemma_merge_ranges_law(rs: Seq<Resolved>)
    requires
        all_nonempty(rs),
    ensures
        all_nonempty(merged(by_start(rs))),
        separated(merged(by_start(rs))),
        forall|n: int| #[trigger] covers(merged(by_start(rs)), n) == covers(rs, n),
        rs.len() == 0 ==> merged(by_start(rs)).len() == 0,
{
    let b = by_start(rs);
    lemma_by_start(rs);
    if b.len() > 0 {
        let tail = b.drop_first();
        assert(all_nonempty(tail)) by {
            assert forall|i: int| 0 <= i < tail.len() implies (#[trigger] tail[i]).start_line
                <= tail[i].end_line by {
                assert(tail[i] == b[i + 1]);
            }
        }
        assert(sorted_by_start(tail)) by {
            assert forall|x: int, y: int| 0 <= x <= y < tail.len() implies tail[x].start_line
                <= tail[y].start_line by {
                assert(tail[x] == b[x + 1] && tail[y] == b[y + 1]);
            }
        }
        assert forall|i: int| 0 <= i < tail.len() implies b[0].start_line <= (
        #[trigger] tail[i]).start_line by {
            assert(tail[i] == b[i + 1]);
        }
        assert(b[0].start_line <= b[0].end_line);
        lemma_merge_into(b[0], tail);
        lemma_covers_first(b);
        assert(merged(b) == merge_into(b[0], tail));
        assert forall|n: int| #[trigger] covers(merged(b), n) == covers(rs, n) by {
            assert(covers(merge_into(b[0], tail), n) == ((b[0].start_line <= n <= b[0].end_line)
                || covers(tail, n)));
            assert(covers(b, n) == covers(rs, n));
        }
    } else {
        assert forall|n: int| #[trigger] covers(merged(b), n) == covers(rs, n) by {
            assert(covers(b, n) == covers(rs, n));
        }
    }
}

/// A range's place among ranges all starting no later than it is at their end.
proof fn lemma_prefix_not_after_all(x: Resolved, rs: Seq<Resolved>)
    requires
        forall|i: int| 0 <= i < rs.len() ==> (#[trigger] rs[i]).start_line <= x.start_line,
    ensures
        prefix_not_after(x, rs) == rs.len(),
    decreases rs.len(),
{
    if rs.len() > 0 {
        assert forall|i: int| 0 <= i < rs.drop_first().len() implies (
        #[trigger] rs.drop_first()[i]).start_line <= x.start_line by {
            assert(rs.drop_first()[i] == rs[i + 1]);
        }
        lemma_prefix_not_after_all(x, rs.drop_first());
    }
}

/// Ranges already in order of their first line are left as they are.
proof fn lemma_by_start_sorted(rs: Seq<Resolved>)
    requires
        sorted_by_start(rs),
    ensures
        by_start(rs) == rs,
    decreases rs.len(),
{
    if rs.len() > 0 {
        let init = rs.drop_last();
        assert(sorted_by_start(init));
        lemma_by_start_sorted(init);
        assert forall|i: int| 0 <= i < init.len() implies (#[trigger] init[i]).start_line
            <= rs.last().start_line by {
            assert(init[i] == rs[i]);
        }
        lemma_prefix_not_after_all(rs.last(), init);
        assert(init.insert(init.len() as int, rs.last()) =~= rs);
    }
}

/// Orders ranges by first line, keeping ranges with equal first lines in
/// their order.
fn sort_by_start(rs: Vec<Resolved>) -> (r: Vec<Resolved>)
    ensures
        r@ == by_start(rs@),
{
    let mut out: Vec<Resolved> = Vec::new();
    let mut i: usize = 0;
    assert(rs@.take(0) =~= Seq::<Resolved>::empty());
    while i < rs.len()
        invariant
            0 <= i <= rs.len(),
            out@ == by_start(rs@.take(i as int)),
        decreases rs.len() - i,
    {
        let x = rs[i];
        let mut p: usize = 0;
        assert(out@.skip(0) =~= out@);
        while p < out.len() && out[p].start_line <= x.start_line
            invariant
                0 <= p <= out.len(),
                prefix_not_after(x, out@) == p + prefix_not_after(x, out@.skip(p as int)),
            decreases out.len() - p,
        {
            assert(out@.skip(p as int).drop_first() =~= out@.skip(p + 1));
            p += 1;
        }
        if p == out.len() {
            assert(out@.skip(p as int) =~= Seq::<Resolved>::empty());
        }
        let ghost prefix = rs@.take(i + 1);
        assert(prefix.drop_last() =~= rs@.take(i as int));
        assert(prefix.last() == x);
        out.insert(p, x);
        i += 1;
    }
    assert(rs@.take(rs.len() as int) =~= rs@);
    out
}

/// Joins overlapping or adjacent ranges, in whatever order they come: they
/// are first ordered by their first line.
fn merge_ranges(rs: Vec<Resolved>) -> (r: Vec<Resolved>)
    ensures
        r@ == merged(by_start(rs@)),
{
    let rs = sort_by_start(rs);
    if rs.len() == 0 {
        return rs;
    }
    let mut out: Vec<Resolved> = Vec::new();
    let mut cur = rs[0];
    let mut i: usize = 1;
    assert(rs@.skip(1) =~= rs@.drop_first());
    while i < rs.len()
        invariant
            1 <= i <= rs.len(),
            out@ + merge_into(cur, rs@.skip(i as int)) == merged(rs@),
        decreases rs.len() - i,
    {
        let next = rs[i];
        let ghost rest = rs@.skip(i as int);
        assert(rest[0] == next);
        assert(rest.drop_first() =~= rs@.skip(i + 1));
        if next.start_line <= cur.end_line || next.start_line - cur.end_line == 1 {
            let end = if next.end_line > cur.end_line {
                next.end_line
            } else {
                cur.end_line
            };
            cur = Resolved { start_line: cur.start_line, end_line: end };
        } else {
            proof {
                assert(out@.push(cur) + merge_into(next, rs@.skip(i + 1)) =~= out@ + (seq![cur]
                    + merge_into(next, rs@.skip(i + 1))));
            }
            out.push(cur);
            cur = next;
        }
        i += 1;
    }
    assert(rs@.skip(rs.len() as int) =~= Seq::<Resolved>::empty());
    out.push(cur);
    out
}

/// Joining keeps every range within `1 ..= total`.
proof fn lemma_merge_into_within(cur: Resolved, rest: Seq<Resolved>, total: int)
    requires
        1 <= cur.start_line <= cur.end_line <= total,
        ranges_within(rest, total),
    ensures
        ranges_within(merge_into(cur, rest), total),
    decreases rest.len(),
{
    if rest.len() > 0 {
        let next = rest[0];
        assert(ranges_within(rest.drop_first(), total)) by {
            assert forall|i: int| 0 <= i < rest.drop_first().len() implies 1 <= (
            #[trigger] rest.drop_first()[i]).start_line <= rest.drop_first()[i].end_line
                <= total by {
                assert(rest.drop_first()[i] == rest[i + 1]);
            }
        }
        if next.start_line <= cur.end_line + 1 {
            let end = if next.end_line > cur.end_line {
                next.end_line
            } else {
                cur.end_line
            };
            lemma_merge_into_within(
                Resolved { start_line: cur.start_line, end_line: end },
                rest.drop_first(),
                total,
            );
        } else {
            lemma_merge_into_within(next, rest.drop_first(), total);
            let m = merge_into(next, rest.drop_first());
            assert forall|i: int| 0 <= i < (seq![cur] + m).len() implies 1 <= (#[trigger] (seq![cur]
                + m)[i]).start_line <= (seq![cur] + m)[i].end_line <= total by {
                if i > 0 {
                    assert((seq![cur] + m)[i] == m[i - 1]);
                }
            }
        }
    }
}

proof fn lemma_all_nums_step(rs: Seq<Resolved>, i: int)
    requires
        0 <= i < rs.len(),
    ensures
        all_nums(rs.take(i + 1)) == all_nums(rs.take(i)) + range_nums(rs[i]),
{
    assert(rs.take(i + 1).drop_last() =~= rs.take(i));
}

proof fn lemma_all_nums_prefix(rs: Seq<Resolved>, i: int)
    requires
        0 <= i <= rs.len(),
    ensures
        all_nums(rs.take(i)).len() <= all_nums(rs).len(),
        all_nums(rs.take(i)) == all_nums(rs).take(all_nums(rs.take(i)).len() as int),
    decreases rs.len() - i,
{
    if i < rs.len() {
        lemma_all_nums_prefix(rs, i + 1);
        lemma_all_nums_step(rs, i);
        let a = all_nums(rs.take(i));
        let b = all_nums(rs.take(i + 1));
        assert(b.take(a.len() as int) =~= a);
        assert(all_nums(rs).take(b.len() as int).take(a.len() as int) =~= all_nums(rs).take(
            a.len() as int,
        ));
    } else {
        assert(rs.take(i) =~= rs);
        assert(all_nums(rs).take(all_nums(rs).len() as int) =~= all_nums(rs));
    }
}

proof fn lemma_peek_text_push(lines: Seq<Seq<u8>>, nums: Seq<int>, n: int)
    ensures
        peek_text(lines, nums.push(n)) == peek_text(lines, nums) + peek_line(lines, n),
{
    let f = |k: int| peek_line(lines, k);
    assert(nums.push(n).map_values(f) =~= nums.map_values(f).push(f(n)));
    nums.map_values(f).lemma_flatten_push(f(n));
}

/// The ranges a peek shows, computed.
fn compute_ranges(content: &[u8], lines: &Vec<Vec<u8>>, range: &PeekRange) -> (r: Result<
    Vec<Resolved>,
    LocateError,
>)
    requires
        views(lines@) == plain_lines(content@),
        content@.len() < usize::MAX,
    ensures
        match r {
            Ok(v) => peek_ranges(*range, content@) == Ok::<Seq<Resolved>, LocateError>(v@)
                && ranges_within(v@, line_count(content@) as int),
            Err(e) => peek_ranges(*range, content@) == Err::<Seq<Resolved>, LocateError>(e),
        },
{
    let total = lines.len();
    assert(total == line_count(content@));
    match range {
        PeekRange::Lines { start, end } => {
            let loc = Locator::Lines { start: *start, end: *end };
            match resolve(&loc, content) {
                Ok(r) => {
                    proof {
                        lemma_resolved_in_bounds(loc, content@);
                    }
                    let v = vec![r];
                    assert(v@ =~= seq![r]);
                    Ok(v)
                },
                Err(e) => Err(e),
            }
        },
        PeekRange::MatchLine { regex, context } => {
            let ctx = *context;
            let ghost p = regex_flags(regex.pattern_view(), plain_lines(content@));
            let ghost f = |i: int| window(i + 1, ctx as int, total as int);
            let mut hits: Vec<Resolved> = Vec::new();
            let mut idx: usize = 0;
            proof {
                lemma_line_count_le_len(content@);
            }
            while idx < total
                invariant
                    total < usize::MAX,
                    total == lines.len(),
                    total == line_count(content@),
                    views(lines@) == plain_lines(content@),
                    p == regex_flags(regex.pattern_view(), plain_lines(content@)),
                    p.len() == total,
                    f == (|i: int| window(i + 1, ctx as int, total as int)),
                    0 <= idx <= total,
                    hits@ == true_indices(p.take(idx as int)).map_values(f),
                    sorted_by_start(hits@),
                    ranges_within(hits@, total as int),
                    forall|j: int|
                        0 <= j < hits@.len() ==> (#[trigger] hits@[j]).start_line <= window(
                            idx + 1,
                            ctx as int,
                            total as int,
                        ).start_line,
                decreases total - idx,
            {
                let hit = regex.matches_line(lines[idx].as_slice());
                proof {
                    assert(p[idx as int] == hit);
                    assert(p.take(idx + 1).drop_last() =~= p.take(idx as int));
                }
                if hit {
                    let n = idx + 1;
                    let lo = if n <= ctx || n - ctx < 1 {
                        1
                    } else {
                        n - ctx
                    };
                    let hi = if ctx < total - n {
                        n + ctx
                    } else {
                        total
                    };
                    let w = Resolved { start_line: lo, end_line: hi };
                    assert(w == f(idx as int));
                    hits.push(w);
                    proof {
                        assert(true_indices(p.take(idx + 1)) == true_indices(p.take(idx as int)).push(
                            idx as int,
                        ));
                        assert(hits@ =~= true_indices(p.take(idx + 1)).map_values(f));
                    }
                }
                assert(window(idx + 2, ctx as int, total as int).start_line >= window(
                    idx + 1,
                    ctx as int,
                    total as int,
                ).start_line);
                idx += 1;
            }
            assert(p.take(total as int) =~= p);
            if hits.len() == 0 {
                return Err(LocateError::MatchLineNotFound { occurrence: 1 });
            }
            let merged_hits = merge_ranges(hits);
            proof {
                lemma_by_start_sorted(hits@);
                let h = hits@;
                assert(ranges_within(h.drop_first(), total as int)) by {
                    assert forall|i: int| 0 <= i < h.drop_first().len() implies 1 <= (
                    #[trigger] h.drop_first()[i]).start_line <= h.drop_first()[i].end_line
                        <= total by {
                        assert(h.drop_first()[i] == h[i + 1]);
                    }
                }
                lemma_merge_into_within(h[0], h.drop_first(), total as int);
            }
            Ok(merged_hits)
        },
        PeekRange::All => {
            if total == 0 {
                let v: Vec<Resolved> = Vec::new();
                assert(v@ =~= Seq::<Resolved>::empty());
                Ok(v)
            } else {
                let v = vec![Resolved { start_line: 1, end_line: total }];
                assert(v@ =~= seq![Resolved { start_line: 1, end_line: total }]);
                Ok(v)
            }
        },
    }
}

/// Writes the lines that `opts` selects from `content` to `out`, stopping
/// at the cap; returns how many were written and whether some were left
/// out. Nothing is written when the selection fails.
pub fn run(content: &[u8], opts: &PeekOpts, out: &mut Vec<u8>) -> (r: Result<PeekResult, PeekError>)
    requires
        content@.len() < usize::MAX,
    ensures
        match peek_ranges(opts.range, content@) {
            Err(e) => r == Err::<PeekResult, PeekError>(PeekError::Locate(e)) && final(out)@ == old(
                out,
            )@,
            Ok(rs) => {
                let nums = all_nums(rs);
                let cap = line_cap(opts.max_lines);
                let k = if nums.len() < cap {
                    nums.len() as int
                } else {
                    cap
                };
                &&& r == Ok::<PeekResult, PeekError>(
                    PeekResult { lines_written: k as usize, truncated: nums.len() > cap },
                )
                &&& final(out)@ == old(out)@ + peek_text(plain_lines(content@), nums.take(k))
            },
        },
{
    let lines = split_lines(content);
    let ranges = match compute_ranges(content, &lines, &opts.range) {
        Ok(v) => v,
        Err(e) => {
            return Err(PeekError::Locate(e));
        },
    };
    let ghost pl = plain_lines(content@);
    let ghost nums = all_nums(ranges@);
    let ghost start = out@;
    let total = lines.len();
    let cap = match opts.max_lines {
        Some(m) => m,
        None => usize::MAX,
    };
    let mut written: usize = 0;
    let mut ri: usize = 0;
    assert(ranges@.take(0) =~= Seq::<Resolved>::empty());
    assert(nums.take(0) =~= Seq::<int>::empty());
    assert(Seq::<int>::empty().map_values(|n: int| peek_line(pl, n)) =~= Seq::<Seq<u8>>::empty());
    while ri < ranges.len()
        invariant
            start == old(out)@,
            peek_ranges(opts.range, content@) == Ok::<Seq<Resolved>, LocateError>(ranges@),
            pl == plain_lines(content@),
            views(lines@) == pl,
            total == lines.len(),
            content@.len() < usize::MAX,
            ranges_within(ranges@, total as int),
            nums == all_nums(ranges@),
            cap as int == line_cap(opts.max_lines),
            0 <= ri <= ranges.len(),
            written == all_nums(ranges@.take(ri as int)).len(),
            all_nums(ranges@.take(ri as int)) == nums.take(written as int),
            written <= cap,
            out@ == start + peek_text(pl, nums.take(written as int)),
        decreases ranges.len() - ri,
    {
        let r = ranges[ri];
        proof {
            assert(1 <= ranges@[ri as int].start_line <= ranges@[ri as int].end_line <= total);
            lemma_all_nums_step(ranges@, ri as int);
            lemma_all_nums_prefix(ranges@, ri + 1);
            lemma_line_count_le_len(content@);
        }
        let ghost before = all_nums(ranges@.take(ri as int));
        let mut n = r.start_line;
        while n <= r.end_line
            invariant
                start == old(out)@,
                peek_ranges(opts.range, content@) == Ok::<Seq<Resolved>, LocateError>(ranges@),
                pl == plain_lines(content@),
                views(lines@) == pl,
                total == lines.len(),
                total < usize::MAX,
                1 <= r.start_line <= r.end_line <= total,
                r == ranges@[ri as int],
                0 <= ri < ranges.len(),
                nums == all_nums(ranges@),
                cap as int == line_cap(opts.max_lines),
                all_nums(ranges@.take(ri + 1)) == before + range_nums(r),
                all_nums(ranges@.take(ri + 1)) == nums.take(all_nums(ranges@.take(ri + 1)).len() as int),
                all_nums(ranges@.take(ri + 1)).len() <= nums.len(),
                r.start_line <= n <= r.end_line + 1,
                written == before.len() + (n - r.start_line),
                before + range_nums(r).take(n - r.start_line) == nums.take(written as int),
                written <= cap,
                out@ == start + peek_text(pl, nums.take(written as int)),
            decreases r.end_line + 1 - n,
        {
            assert(range_nums(r)[n - r.start_line] == n);
            assert(nums[written as int] == n) by {
                let full = before + range_nums(r);
                assert(full[written as int] == n);
                assert(nums.take(full.len() as int)[written as int] == n);
            }
            if written >= cap {
                proof {
                    assert(nums.len() > cap);
                }
                return Ok(PeekResult { lines_written: written, truncated: true });
            }
            push_peek_line(out, n, lines[n - 1].as_slice());
            proof {
                assert(line_at(pl, n as int) == lines@[n - 1]@);
                assert(nums.take(written + 1) =~= nums.take(written as int).push(n as int));
                lemma_peek_text_push(pl, nums.take(written as int), n as int);
                assert(range_nums(r).take(n + 1 - r.start_line) =~= range_nums(r).take(
                    n - r.start_line,
                ).push(n as int));
                assert(before + range_nums(r).take(n + 1 - r.start_line) =~= (before + range_nums(
                    r,
                ).take(n - r.start_line)).push(n as int));
            }
            written += 1;
            n += 1;
        }
        assert(range_nums(r).take(n - r.start_line) =~= range_nums(r));
        ri += 1;
    }
    assert(ranges@.take(ranges.len() as int) =~= ranges@);
    assert(nums.take(written as int) =~= nums);
    Ok(PeekResult { lines_written: written, truncated: false })
}

} // verus!
