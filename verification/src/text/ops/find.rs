//! `find`: where a regex hits, as `path:line` or `path:line:col`.
//!
//! With a line regex a hit is a whole line and has no column; with a byte
//! pattern a hit is a match start, possibly spanning lines, reported with
//! its 1-based byte column in its line.

use vstd::prelude::*;
use vstd::string::StringSliceAdditionalSpecFns;
use vstd::utf8::encode_utf8;

use crate::text::chars::{decimal, push_decimal};
use crate::text::lines::{nl, plain_lines, push_all};
use crate::text::location::{regex_flags, split_lines, views};
use crate::text::pattern::{bytes_regex_match_starts, line_matches, ByteRegex, LineRegex};

verus! {

/// What to search with.
pub enum FindMode<'a> {
    /// Whole lines that match a regex; a hit has column 0.
    MatchLine(&'a LineRegex),
    /// Byte matches anywhere; a hit has the 1-based byte column of its start.
    Pattern(&'a ByteRegex),
}

/// Search options.
pub struct FindOpts<'a> {
    pub mode: FindMode<'a>,
    /// At most this many hits are written, over all files; `None` for no cap.
    pub max_matches: Option<usize>,
    /// Stop at the first hit of each file.
    pub first_only: bool,
}

/// A hit: 1-based line, and 1-based byte column (0 for whole-line hits).
#[derive(Debug, Clone, Copy, PartialEq, Eq, Structural)]
pub struct Hit {
    pub line: usize,
    pub col: usize,
}

/// Why writing hits failed.
#[derive(Debug, Clone, PartialEq, Eq)]
pub enum FindError {
    Io(String),
}

/// Indices of the `true` entries of `p`, in order.
pub open spec fn true_indices(p: Seq<bool>) -> Seq<int>
    decreases p.len(),
{
    if p.len() == 0 {
        Seq::empty()
    } else if p.last() {
        true_indices(p.drop_last()).push(p.len() - 1)
    } else {
        true_indices(p.drop_last())
    }
}

/// Number of `\n` among the first `off` bytes of `c`.
pub open spec fn nl_before(c: Seq<u8>, off: int) -> nat
    decreases off,
{
    if off <= 0 {
        0
    } else {
        nl_before(c, off - 1) + if c[off - 1] == nl() {
            1nat
        } else {
            0nat
        }
    }
}

/// Counting `\n` in a prefix of `a + b` that lies in `a` counts them in `a`.
pub proof fn lemma_nl_before_prefix(a: Seq<u8>, b: Seq<u8>, off: int)
    requires
        0 <= off <= a.len(),
    ensures
        nl_before(a + b, off) == nl_before(a, off),
    decreases off,
{
    if off > 0 {
        lemma_nl_before_prefix(a, b, off - 1);
        assert((a + b)[off - 1] == a[off - 1]);
    }
}

/// The `\n` of `a + b` are those of `a` and those of `b`.
pub proof fn lemma_nl_before_concat(a: Seq<u8>, b: Seq<u8>, j: int)
    requires
        0 <= j <= b.len(),
    ensures
        nl_before(a + b, a.len() + j) == nl_before(a, a.len() as int) + nl_before(b, j),
    decreases j,
{
    if j == 0 {
        lemma_nl_before_prefix(a, b, a.len() as int);
    } else {
        lemma_nl_before_concat(a, b, j - 1);
        assert((a + b)[a.len() + j - 1] == b[j - 1]);
    }
}


/// Offset where the line holding offset `off` starts.
pub open spec fn line_start_at(c: Seq<u8>, off: int) -> int
    decreases off,
{
    if off <= 0 {
        0
    } else if c[off - 1] == nl() {
        off
    } else {
        line_start_at(c, off - 1)
    }
}

/// The hit for a match starting at byte `off` of `c`.
pub open spec fn hit_at(c: Seq<u8>, off: int) -> Hit {
    Hit { line: (nl_before(c, off) + 1) as usize, col: (off - line_start_at(c, off) + 1) as usize }
}

/// At most the first hit when `first_only`.
pub open spec fn first_if(hits: Seq<Hit>, first_only: bool) -> Seq<Hit> {
    if first_only && hits.len() > 1 {
        hits.take(1)
    } else {
        hits
    }
}

/// The hits of a whole-line regex in `c`.
pub open spec fn line_hits(pattern: Seq<char>, c: Seq<u8>) -> Seq<Hit> {
    true_indices(regex_flags(pattern, plain_lines(c))).map_values(
        |i: int| Hit { line: (i + 1) as usize, col: 0 },
    )
}

/// The hits of a byte pattern in `c`.
pub open spec fn pattern_hits(pattern: Seq<char>, c: Seq<u8>) -> Seq<Hit> {
    bytes_regex_match_starts(pattern, c).map_values(|off: usize| hit_at(c, off as int))
}

/// What `scan` finds in `c`.
pub open spec fn scan_result(mode: FindMode, first_only: bool, c: Seq<u8>) -> Seq<Hit> {
    first_if(
        match mode {
            FindMode::MatchLine(re) => line_hits(re.pattern_view(), c),
            FindMode::Pattern(re) => pattern_hits(re.pattern_view(), c),
        },
        first_only,
    )
}

proof fn lemma_nl_before_le(c: Seq<u8>, off: int)
    requires
        0 <= off,
    ensures
        nl_before(c, off) <= off,
        0 <= line_start_at(c, off) <= off,
    decreases off,
{
    if off > 0 {
        lemma_nl_before_le(c, off - 1);
    }
}

/// Searches one buffer and returns its hits in order.
pub fn scan(content: &[u8], opts: &FindOpts) -> (r: Vec<Hit>)
    requires
        content@.len() < usize::MAX,
    ensures
        r@ == scan_result(opts.mode, opts.first_only, content@),
{
    let mut out: Vec<Hit> = Vec::new();
    match opts.mode {
        FindMode::MatchLine(re) => {
            let lines = split_lines(content);
            let ghost p = regex_flags(re.pattern_view(), plain_lines(content@));
            let ghost all = line_hits(re.pattern_view(), content@);
            let mut idx: usize = 0;
            while idx < lines.len()
                invariant
                    opts.mode == FindMode::MatchLine(re),
                    views(lines@) == plain_lines(content@),
                    p == regex_flags(re.pattern_view(), plain_lines(content@)),
                    all == true_indices(p).map_values(|i: int| Hit { line: (i + 1) as usize, col: 0 }),
                    p.len() == lines@.len(),
                    0 <= idx <= lines.len(),
                    out@ == true_indices(p.take(idx as int)).map_values(
                        |i: int| Hit { line: (i + 1) as usize, col: 0 },
                    ),
                    !opts.first_only || out@.len() == 0,
                decreases lines.len() - idx,
            {
                let hit = re.matches_line(lines[idx].as_slice());
                proof {
                    assert(p[idx as int] == hit);
                    assert(p.take(idx + 1).drop_last() =~= p.take(idx as int));
                }
                if hit {
                    out.push(Hit { line: idx + 1, col: 0 });
                    proof {
                        assert(true_indices(p.take(idx + 1)) == true_indices(p.take(idx as int)).push(idx as int));
                        assert(out@ =~= true_indices(p.take(idx + 1)).map_values(
                            |i: int| Hit { line: (i + 1) as usize, col: 0 },
                        ));
                    }
                    if opts.first_only {
                        proof {
                            lemma_true_indices_prefix(p, idx + 1);
                            assert(out@.len() == 1);
                            assert(all[0] == out@[0]);
                            assert(all.take(1) =~= out@);
                            if all.len() == 1 {
                                assert(all =~= out@);
                            }
                        }
                        return out;
                    }
                }
                idx += 1;
            }
            assert(p.take(lines.len() as int) =~= p);
            proof {
                if opts.first_only {
                    assert(all.len() == 0);
                }
            }
            out
        },
        FindMode::Pattern(re) => {
            let starts = re.match_starts(content);
            let ghost all = pattern_hits(re.pattern_view(), content@);
            let mut pos: usize = 0;
            let mut line: usize = 1;
            let mut line_start: usize = 0;
            let mut k: usize = 0;
            while k < starts.len()
                invariant
                    opts.mode == FindMode::Pattern(re),
                    content@.len() < usize::MAX,
                    starts@ == bytes_regex_match_starts(re.pattern_view(), content@),
                    forall|i: int| 0 <= i < starts@.len() ==> starts@[i] <= content@.len(),
                    all == starts@.map_values(|off: usize| hit_at(content@, off as int)),
                    0 <= k <= starts.len(),
                    pos <= content.len(),
                    line == nl_before(content@, pos as int) + 1,
                    line_start == line_start_at(content@, pos as int),
                    out@ == all.take(k as int),
                    !opts.first_only || out@.len() == 0,
                decreases starts.len() - k,
            {
                let off = starts[k];
                if off < pos {
                    pos = 0;
                    line = 1;
                    line_start = 0;
                }
                while pos < off
                    invariant
                        content@.len() < usize::MAX,
                        pos <= off <= content.len(),
                        line == nl_before(content@, pos as int) + 1,
                        line_start == line_start_at(content@, pos as int),
                    decreases off - pos,
                {
                    proof {
                        lemma_nl_before_le(content@, pos as int);
                    }
                    if content[pos] == 10u8 {
                        line = line + 1;
                        line_start = pos + 1;
                    }
                    pos = pos + 1;
                }
                proof {
                    lemma_nl_before_le(content@, off as int);
                }
                let h = Hit { line, col: off - line_start + 1 };
                assert(h == all[k as int]);
                out.push(h);
                assert(out@ =~= all.take(k + 1));
                if opts.first_only {
                    proof {
                        assert(k == 0);
                        assert(all.take(1) =~= out@);
                        if all.len() == 1 {
                            assert(all =~= out@);
                        }
                    }
                    return out;
                }
                k += 1;
            }
            assert(all.take(starts.len() as int) =~= all);
            out
        },
    }
}

/// The first hit of the true indices lies in any prefix that has one.
proof fn lemma_true_indices_prefix(p: Seq<bool>, n: int)
    requires
        0 <= n <= p.len(),
        true_indices(p.take(n)).len() > 0,
    ensures
        true_indices(p).len() > 0,
        true_indices(p)[0] == true_indices(p.take(n))[0],
    decreases p.len(),
{
    if n < p.len() {
        assert(p.drop_last().take(n) =~= p.take(n));
        lemma_true_indices_prefix(p.drop_last(), n);
    } else {
        assert(p.take(n) =~= p);
    }
}

/// One output line: `path:line`, or `path:line:col` when columns are on and
/// the hit has one.
pub open spec fn hit_text(path: Seq<u8>, h: Hit, use_col: bool) -> Seq<u8> {
    path + seq![58u8] + decimal(h.line as nat) + (if use_col && h.col > 0 {
        seq![58u8] + decimal(h.col as nat)
    } else {
        Seq::empty()
    }) + seq![nl()]
}

/// The hits of all files in order, each with the bytes of its path.
pub open spec fn flat_hits(files: Seq<(String, Vec<Hit>)>) -> Seq<(Seq<u8>, Hit)>
    decreases files.len(),
{
    if files.len() == 0 {
        Seq::empty()
    } else {
        let last = files.last();
        flat_hits(files.drop_last()) + last.1@.map_values(|h: Hit| (encode_utf8(last.0@), h))
    }
}

/// The text of a run of hits.
pub open spec fn hits_text(entries: Seq<(Seq<u8>, Hit)>, use_col: bool) -> Seq<u8> {
    entries.map_values(|e: (Seq<u8>, Hit)| hit_text(e.0, e.1, use_col)).flatten()
}

/// How many hits are written: all of them, or the cap when fewer (no cap
/// stands for `usize::MAX`).
pub open spec fn capped(n: nat, max_matches: Option<usize>) -> nat {
    let m = match max_matches {
        Some(m) => m,
        None => usize::MAX,
    };
    if m < n {
        m as nat
    } else {
        n
    }
}

proof fn lemma_hits_text_push(entries: Seq<(Seq<u8>, Hit)>, e: (Seq<u8>, Hit), use_col: bool)
    ensures
        hits_text(entries.push(e), use_col) == hits_text(entries, use_col) + hit_text(
            e.0,
            e.1,
            use_col,
        ),
{
    let f = |x: (Seq<u8>, Hit)| hit_text(x.0, x.1, use_col);
    assert(entries.push(e).map_values(f) =~= entries.map_values(f).push(f(e)));
    entries.map_values(f).lemma_flatten_push(f(e));
}

/// Appends the line for hit `h` in the file at `path`.
fn push_hit(out: &mut Vec<u8>, path: &String, h: Hit, use_col: bool)
    ensures
        final(out)@ == old(out)@ + hit_text(encode_utf8(path@), h, use_col),
{
    push_all(out, path.as_str().as_bytes());
    out.push(58u8);
    push_decimal(out, h.line);
    if use_col && h.col > 0 {
        out.push(58u8);
        push_decimal(out, h.col);
    }
    out.push(10u8);
    assert(out@ =~= old(out)@ + hit_text(encode_utf8(path@), h, use_col));
}

/// Writes the hits of each file, in file order then hit order, one per
/// line, and returns how many were written (at most `max_matches`).
pub fn write_hits(
    files_with_hits: &[(String, Vec<Hit>)],
    use_col: bool,
    max_matches: Option<usize>,
    out: &mut Vec<u8>,
) -> (r: Result<usize, FindError>)
    ensures
        ({
            let flat = flat_hits(files_with_hits@);
            let n = capped(flat.len(), max_matches);
            &&& r == Ok::<usize, FindError>(n as usize)
            &&& final(out)@ == old(out)@ + hits_text(flat.take(n as int), use_col)
        }),
{
    let cap = match max_matches {
        Some(m) => m,
        None => usize::MAX,
    };
    let ghost start = out@;
    let ghost flat = flat_hits(files_with_hits@);
    let mut written: usize = 0;
    let mut fi: usize = 0;
    assert(files_with_hits@.take(0) =~= Seq::<(String, Vec<Hit>)>::empty());
    while fi < files_with_hits.len()
        invariant
            start == old(out)@,
            flat == flat_hits(files_with_hits@),
            0 <= fi <= files_with_hits.len(),
            written == flat_hits(files_with_hits@.take(fi as int)).len(),
            written <= cap,
            cap == match max_matches {
                Some(m) => m,
                None => usize::MAX,
            },
            out@ == start + hits_text(flat_hits(files_with_hits@.take(fi as int)), use_col),
            flat_hits(files_with_hits@.take(fi as int)) == flat.take(written as int),
        decreases files_with_hits.len() - fi,
    {
        let path = &files_with_hits[fi].0;
        let hits = &files_with_hits[fi].1;
        let ghost before = flat_hits(files_with_hits@.take(fi as int));
        let ghost pb = encode_utf8(path@);
        proof {
            lemma_flat_hits_step(files_with_hits@, fi as int);
            lemma_flat_hits_prefix(files_with_hits@, fi + 1);
        }
        let mut hi: usize = 0;
        while hi < hits.len()
            invariant
                start == old(out)@,
                flat == flat_hits(files_with_hits@),
                0 <= fi < files_with_hits.len(),
                path == files_with_hits@[fi as int].0,
                hits == files_with_hits@[fi as int].1,
                pb == encode_utf8(path@),
                before == flat_hits(files_with_hits@.take(fi as int)),
                flat_hits(files_with_hits@.take(fi + 1)) == before + hits@.map_values(
                    |h: Hit| (pb, h),
                ),
                flat_hits(files_with_hits@.take(fi + 1)) == flat.take(
                    flat_hits(files_with_hits@.take(fi + 1)).len() as int,
                ),
                flat_hits(files_with_hits@.take(fi + 1)).len() <= flat.len(),
                0 <= hi <= hits.len(),
                written == before.len() + hi,
                written <= cap,
                cap == match max_matches {
                    Some(m) => m,
                    None => usize::MAX,
                },
                out@ == start + hits_text(flat.take(written as int), use_col),
            decreases hits.len() - hi,
        {
            let ghost cur = before + hits@.map_values(|h: Hit| (pb, h));
            assert(flat.take(written as int) =~= cur.take(written as int));
            if written >= cap {
                proof {
                    assert(flat.len() >= cur.len());
                    assert(written as int == cap);
                    assert(capped(flat.len(), max_matches) == written);
                }
                return Ok(written);
            }
            let h = hits[hi];
            push_hit(out, path, h, use_col);
            proof {
                assert(cur[written as int] == (pb, h));
                assert(flat[written as int] == (pb, h));
                assert(flat.take(written + 1) =~= flat.take(written as int).push((pb, h)));
                lemma_hits_text_push(flat.take(written as int), (pb, h), use_col);
            }
            written += 1;
            hi += 1;
        }
        assert(before + hits@.map_values(|h: Hit| (pb, h)) =~= flat.take(written as int));
        fi += 1;
    }
    assert(files_with_hits@.take(files_with_hits.len() as int) =~= files_with_hits@);
    assert(flat.take(written as int) =~= flat);
    proof {
        assert(capped(flat.len(), max_matches) == written);
    }
    Ok(written)
}

proof fn lemma_flat_hits_step(files: Seq<(String, Vec<Hit>)>, i: int)
    requires
        0 <= i < files.len(),
    ensures
        flat_hits(files.take(i + 1)) == flat_hits(files.take(i)) + files[i].1@.map_values(
            |h: Hit| (encode_utf8(files[i].0@), h),
        ),
{
    assert(files.take(i + 1).drop_last() =~= files.take(i));
    assert(files.take(i + 1).last() == files[i]);
}

proof fn lemma_flat_hits_prefix(files: Seq<(String, Vec<Hit>)>, i: int)
    requires
        0 <= i <= files.len(),
    ensures
        flat_hits(files.take(i)).len() <= flat_hits(files).len(),
        flat_hits(files.take(i)) == flat_hits(files).take(flat_hits(files.take(i)).len() as int),
    decreases files.len() - i,
{
    if i < files.len() {
        lemma_flat_hits_prefix(files, i + 1);
        lemma_flat_hits_step(files, i);
        let a = flat_hits(files.take(i));
        let b = flat_hits(files.take(i + 1));
        assert(b.take(a.len() as int) =~= a);
        assert(flat_hits(files).take(b.len() as int).take(a.len() as int) =~= flat_hits(files).take(
            a.len() as int,
        ));
    } else {
        assert(files.take(i) =~= files);
        assert(flat_hits(files).take(flat_hits(files).len() as int) =~= flat_hits(files));
    }
}

} // verus!
