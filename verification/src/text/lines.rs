//! The line model of a byte buffer.
//!
//! A buffer is cut after every `\n`; each piece is a *full line* and keeps its
//! `\n`. A final piece without `\n` is a line too, but an empty final piece is
//! not. So `"a\nb"` and `"a\nb\n"` both have two lines and the empty buffer has
//! none. Line numbers are 1-based; `\r` stays inside the line.

use vstd::prelude::*;

verus! {

/// The newline byte.
pub open spec fn nl() -> u8 {
    10u8
}

/// Index of the first `\n` in `c`, or `c.len()` when there is none.
pub open spec fn first_nl(c: Seq<u8>) -> int
    decreases c.len(),
{
    if c.len() == 0 {
        0
    } else if c[0] == nl() {
        0
    } else {
        1 + first_nl(c.drop_first())
    }
}

/// The full lines of `c`, each with its trailing `\n` where it has one.
pub open spec fn full_lines(c: Seq<u8>) -> Seq<Seq<u8>>
    decreases c.len(),
{
    if c.len() == 0 {
        seq![]
    } else {
        let i = first_nl(c);
        proof {
            lemma_first_nl(c);
        }
        if i < c.len() {
            seq![c.take(i + 1)] + full_lines(c.skip(i + 1))
        } else {
            seq![c]
        }
    }
}

/// Number of lines of `c`.
pub open spec fn line_count(c: Seq<u8>) -> nat {
    full_lines(c).len()
}

/// `l` ends with `\n`.
pub open spec fn ends_nl(l: Seq<u8>) -> bool {
    l.len() > 0 && l.last() == nl()
}

/// `l` without its trailing `\n` (if any).
pub open spec fn strip_nl(l: Seq<u8>) -> Seq<u8> {
    if ends_nl(l) {
        l.drop_last()
    } else {
        l
    }
}

/// The lines of `c` without their `\n`.
pub open spec fn plain_lines(c: Seq<u8>) -> Seq<Seq<u8>> {
    full_lines(c).map_values(|l: Seq<u8>| strip_nl(l))
}

/// A single full line: non-empty, and a `\n` can only be its last byte.
pub open spec fn line_ok(l: Seq<u8>) -> bool {
    &&& l.len() > 0
    &&& forall|j: int| 0 <= j < l.len() - 1 ==> l[j] != nl()
}

/// A sequence of full lines as a buffer decomposes: every line but the last
/// ends with `\n`.
pub open spec fn lines_ok(ls: Seq<Seq<u8>>) -> bool {
    &&& forall|k: int| 0 <= k < ls.len() ==> line_ok(#[trigger] ls[k])
    &&& forall|k: int| 0 <= k < ls.len() - 1 ==> ends_nl(#[trigger] ls[k])
}

/// `c` is empty or ends with `\n`: every line of it carries its `\n`.
pub open spec fn closed(c: Seq<u8>) -> bool {
    c.len() == 0 || c.last() == nl()
}

pub proof fn lemma_first_nl(c: Seq<u8>)
    ensures
        0 <= first_nl(c) <= c.len(),
        forall|j: int| 0 <= j < first_nl(c) ==> c[j] != nl(),
        first_nl(c) < c.len() ==> c[first_nl(c)] == nl(),
    decreases c.len(),
{
    if c.len() > 0 && c[0] != nl() {
        lemma_first_nl(c.drop_first());
        assert forall|j: int| 0 <= j < first_nl(c) implies c[j] != nl() by {
            if j > 0 {
                assert(c[j] == c.drop_first()[j - 1]);
            }
        }
    }
}

/// `first_nl` is determined by its characterization.
pub proof fn lemma_first_nl_is(c: Seq<u8>, i: int)
    requires
        0 <= i <= c.len(),
        forall|j: int| 0 <= j < i ==> c[j] != nl(),
        i < c.len() ==> c[i] == nl(),
    ensures
        first_nl(c) == i,
{
    lemma_first_nl(c);
    if first_nl(c) < i {
        assert(c[first_nl(c)] != nl());
    } else if first_nl(c) > i {
        assert(c[i] != nl());
    }
}

/// A buffer made of one full line is that line.
pub proof fn lemma_full_lines_single(l: Seq<u8>)
    requires
        line_ok(l),
    ensures
        full_lines(l) == seq![l],
{
    if ends_nl(l) {
        lemma_first_nl_is(l, l.len() - 1);
        assert(l.take(l.len() as int) =~= l);
        assert(l.skip(l.len() as int) =~= Seq::<u8>::empty());
        assert(full_lines(l.skip(l.len() as int)) =~= Seq::<Seq<u8>>::empty());
        assert(full_lines(l) =~= seq![l]);
    } else {
        assert forall|j: int| 0 <= j < l.len() implies l[j] != nl() by {
            if j == l.len() - 1 {
                assert(l[j] == l.last());
            }
        }
        lemma_first_nl_is(l, l.len() as int);
    }
}

/// Cutting a buffer after a `\n` cuts its lines there.
pub proof fn lemma_full_lines_concat(p: Seq<u8>, q: Seq<u8>)
    requires
        closed(p),
    ensures
        full_lines(p + q) == full_lines(p) + full_lines(q),
    decreases p.len(),
{
    if p.len() == 0 {
        assert(p + q =~= q);
        assert(full_lines(p) =~= Seq::<Seq<u8>>::empty());
        assert(full_lines(p) + full_lines(q) =~= full_lines(q));
    } else {
        let pq = p + q;
        lemma_first_nl(p);
        let i = first_nl(p);
        if i == p.len() {
            assert(p[p.len() - 1] == p.last());
        }
        assert(i < p.len());
        assert forall|j: int| 0 <= j < i implies pq[j] != nl() by {
            assert(pq[j] == p[j]);
        }
        assert(pq[i] == p[i]);
        lemma_first_nl_is(pq, i);
        assert(pq.take(i + 1) =~= p.take(i + 1));
        assert(pq.skip(i + 1) =~= p.skip(i + 1) + q);
        let ps = p.skip(i + 1);
        if ps.len() > 0 {
            assert(ps.last() == p.last());
        }
        lemma_full_lines_concat(ps, q);
        assert(full_lines(pq) =~= seq![p.take(i + 1)] + (full_lines(ps) + full_lines(q)));
        assert(full_lines(p) =~= seq![p.take(i + 1)] + full_lines(ps));
        assert(full_lines(pq) =~= full_lines(p) + full_lines(q));
    }
}

/// The lines of a buffer are well formed and put it back together.
pub proof fn lemma_full_lines_ok(c: Seq<u8>)
    ensures
        lines_ok(full_lines(c)),
        full_lines(c).flatten() == c,
    decreases c.len(),
{
    if c.len() == 0 {
        assert(full_lines(c).flatten() =~= c);
    } else {
        lemma_first_nl(c);
        let i = first_nl(c);
        if i < c.len() {
            let head = c.take(i + 1);
            let tail = c.skip(i + 1);
            lemma_full_lines_ok(tail);
            let fl = full_lines(c);
            assert(fl == seq![head] + full_lines(tail));
            assert(line_ok(head)) by {
                assert forall|j: int| 0 <= j < head.len() - 1 implies head[j] != nl() by {
                    assert(head[j] == c[j]);
                }
            }
            assert(ends_nl(head)) by {
                assert(head.last() == c[i]);
            }
            assert forall|k: int| 0 <= k < fl.len() implies line_ok(#[trigger] fl[k]) by {
                if k > 0 {
                    assert(fl[k] == full_lines(tail)[k - 1]);
                }
            }
            assert forall|k: int| 0 <= k < fl.len() - 1 implies ends_nl(#[trigger] fl[k]) by {
                if k > 0 {
                    assert(fl[k] == full_lines(tail)[k - 1]);
                }
            }
            assert(fl.drop_first() =~= full_lines(tail));
            assert(fl.flatten() == fl.first() + fl.drop_first().flatten());
            assert(head + tail =~= c);
        } else {
            let fl = full_lines(c);
            assert(fl =~= seq![c]);
            assert(line_ok(c)) by {
                assert forall|j: int| 0 <= j < c.len() - 1 implies c[j] != nl() by {}
            }
            fl.lemma_flatten_one_element();
        }
    }
}

/// Well-formed lines are exactly the lines of the buffer they make up.
pub proof fn lemma_full_lines_of_flatten(ls: Seq<Seq<u8>>)
    requires
        lines_ok(ls),
    ensures
        full_lines(ls.flatten()) == ls,
    decreases ls.len(),
{
    if ls.len() == 0 {
        assert(full_lines(ls.flatten()) =~= ls);
    } else {
        let rest = ls.drop_first();
        assert(lines_ok(rest)) by {
            assert forall|k: int| 0 <= k < rest.len() implies line_ok(#[trigger] rest[k]) by {
                assert(rest[k] == ls[k + 1]);
            }
            assert forall|k: int| 0 <= k < rest.len() - 1 implies ends_nl(#[trigger] rest[k]) by {
                assert(rest[k] == ls[k + 1]);
            }
        }
        lemma_full_lines_of_flatten(rest);
        assert(line_ok(ls[0]));
        lemma_full_lines_single(ls[0]);
        assert(ls.flatten() == ls[0] + rest.flatten());
        if rest.len() == 0 {
            assert(rest.flatten() =~= Seq::<u8>::empty());
            assert(ls[0] + rest.flatten() =~= ls[0]);
            assert(ls =~= seq![ls[0]]);
        } else {
            assert(ends_nl(ls[0]));
            lemma_full_lines_concat(ls[0], rest.flatten());
            assert(ls =~= seq![ls[0]] + rest);
        }
    }
}

/// Joining the lines of two slices of well-formed lines.
pub proof fn lemma_lines_ok_concat(a: Seq<Seq<u8>>, b: Seq<Seq<u8>>)
    requires
        lines_ok(a),
        lines_ok(b),
        a.len() > 0 ==> ends_nl(a.last()),
    ensures
        lines_ok(a + b),
{
    let ab = a + b;
    assert forall|k: int| 0 <= k < ab.len() implies line_ok(#[trigger] ab[k]) by {
        if k < a.len() {
            assert(ab[k] == a[k]);
        } else {
            assert(ab[k] == b[k - a.len()]);
        }
    }
    assert forall|k: int| 0 <= k < ab.len() - 1 implies ends_nl(#[trigger] ab[k]) by {
        if k < a.len() {
            assert(ab[k] == a[k]);
            if k == a.len() - 1 {
                assert(a[k] == a.last());
            }
        } else {
            assert(ab[k] == b[k - a.len()]);
        }
    }
}

/// A slice of well-formed lines is well formed.
pub proof fn lemma_lines_ok_subrange(ls: Seq<Seq<u8>>, i: int, j: int)
    requires
        lines_ok(ls),
        0 <= i <= j <= ls.len(),
    ensures
        lines_ok(ls.subrange(i, j)),
{
    let s = ls.subrange(i, j);
    assert forall|k: int| 0 <= k < s.len() implies line_ok(#[trigger] s[k]) by {
        assert(s[k] == ls[i + k]);
    }
    assert forall|k: int| 0 <= k < s.len() - 1 implies ends_nl(#[trigger] s[k]) by {
        assert(s[k] == ls[i + k]);
    }
}

/// In a closed buffer every line ends with `\n`.
pub proof fn lemma_closed_lines(c: Seq<u8>)
    requires
        closed(c),
    ensures
        forall|k: int| 0 <= k < full_lines(c).len() ==> ends_nl(#[trigger] full_lines(c)[k]),
{
    lemma_full_lines_ok(c);
    let fl = full_lines(c);
    if fl.len() > 0 {
        let k = fl.len() - 1;
        lemma_flatten_last(fl);
        assert(c.len() > 0);
        assert(fl[k].len() > 0);
    }
}

/// The last byte of a flattened sequence is the last byte of its last element.
pub proof fn lemma_flatten_last(ls: Seq<Seq<u8>>)
    requires
        ls.len() > 0,
        ls.last().len() > 0,
    ensures
        ls.flatten().len() > 0,
        ls.flatten().last() == ls.last().last(),
{
    ls.drop_last().lemma_flatten_push(ls.last());
    assert(ls.drop_last().push(ls.last()) =~= ls);
}


/// Every sequence in `ls` is one full line ending with `\n`.
pub open spec fn all_nl(ls: Seq<Seq<u8>>) -> bool {
    forall|k: int| 0 <= k < ls.len() ==> line_ok(#[trigger] ls[k]) && ends_nl(ls[k])
}

pub proof fn lemma_all_nl_concat(a: Seq<Seq<u8>>, b: Seq<Seq<u8>>)
    requires
        all_nl(a),
        all_nl(b),
    ensures
        all_nl(a + b),
{
    assert forall|k: int| 0 <= k < (a + b).len() implies line_ok(#[trigger] (a + b)[k]) && ends_nl(
        (a + b)[k],
    ) by {
        if k < a.len() {
            assert((a + b)[k] == a[k]);
        } else {
            assert((a + b)[k] == b[k - a.len()]);
        }
    }
}

pub proof fn lemma_all_nl_subrange(a: Seq<Seq<u8>>, i: int, j: int)
    requires
        all_nl(a),
        0 <= i <= j <= a.len(),
    ensures
        all_nl(a.subrange(i, j)),
{
    assert forall|k: int| 0 <= k < j - i implies line_ok(#[trigger] a.subrange(i, j)[k]) && ends_nl(
        a.subrange(i, j)[k],
    ) by {
        assert(a.subrange(i, j)[k] == a[i + k]);
    }
}

/// The lines of a closed buffer all end with `\n`.
pub proof fn lemma_closed_all_nl(c: Seq<u8>)
    requires
        closed(c),
    ensures
        all_nl(full_lines(c)),
{
    lemma_full_lines_ok(c);
    lemma_closed_lines(c);
}

/// A non-empty sequence of `\n`-terminated lines flattens to a closed buffer
/// whose lines they are.
pub proof fn lemma_flatten_all_nl(ls: Seq<Seq<u8>>)
    requires
        all_nl(ls),
    ensures
        closed(ls.flatten()),
        full_lines(ls.flatten()) == ls,
{
    lemma_full_lines_of_flatten(ls);
    if ls.len() > 0 {
        assert(line_ok(ls.last()) && ends_nl(ls.last()));
        lemma_flatten_last(ls);
    } else {
        assert(ls.flatten() =~= Seq::<u8>::empty());
    }
}

/// A buffer has at most as many lines as bytes.
pub proof fn lemma_line_count_le_len(c: Seq<u8>)
    ensures
        line_count(c) <= c.len(),
    decreases c.len(),
{
    if c.len() > 0 {
        lemma_first_nl(c);
        let i = first_nl(c);
        if i < c.len() {
            lemma_line_count_le_len(c.skip(i + 1));
        }
    }
}

/// The bytes of a `Result` holding a byte vector.
pub open spec fn bytes_result<E>(r: Result<Vec<u8>, E>) -> Result<Seq<u8>, E> {
    match r {
        Ok(v) => Ok(v@),
        Err(e) => Err(e),
    }
}

/// Bytes of lines `a+1 ..= b` of `c` (a 0-based half-open slice of its
/// full lines), each with its `\n` where it has one.
pub open spec fn lines_between(c: Seq<u8>, a: int, b: int) -> Seq<u8> {
    full_lines(c).subrange(a, b).flatten()
}

/// Where one full line sits in its buffer: `content[start..end]`, with its
/// `\n` when it has one.
#[derive(Clone, Copy, Debug)]
pub struct LineSpan {
    pub start: usize,
    pub end: usize,
}

/// `spans` are the full lines of `c`, in order.
pub open spec fn spans_match(c: Seq<u8>, spans: Seq<LineSpan>) -> bool {
    &&& spans.len() == full_lines(c).len()
    &&& forall|k: int|
        0 <= k < spans.len() ==> {
            &&& (#[trigger] spans[k]).start <= spans[k].end <= c.len()
            &&& c.subrange(spans[k].start as int, spans[k].end as int) == full_lines(c)[k]
        }
}

/// Cuts `c` into its full lines.
pub fn line_spans(c: &[u8]) -> (r: Vec<LineSpan>)
    ensures
        spans_match(c@, r@),
{
    let mut r: Vec<LineSpan> = Vec::new();
    let mut start: usize = 0;
    let mut i: usize = 0;
    assert(c@.take(0) =~= Seq::<u8>::empty());
    assert(full_lines(c@.take(0)) =~= Seq::<Seq<u8>>::empty());
    while i < c.len()
        invariant
            0 <= start <= i <= c.len(),
            closed(c@.take(start as int)),
            forall|j: int| start <= j < i ==> c@[j] != nl(),
            r.len() == full_lines(c@.take(start as int)).len(),
            forall|k: int|
                0 <= k < r.len() ==> {
                    &&& (#[trigger] r@[k]).start <= r@[k].end <= start
                    &&& c@.subrange(r@[k].start as int, r@[k].end as int) == full_lines(
                        c@.take(start as int),
                    )[k]
                },
        decreases c.len() - i,
    {
        if c[i] == 10u8 {
            proof {
                let p = c@.take(start as int);
                let seg = c@.subrange(start as int, i + 1);
                assert(c@.take(i + 1) =~= p + seg);
                assert(line_ok(seg)) by {
                    assert forall|j: int| 0 <= j < seg.len() - 1 implies seg[j] != nl() by {
                        assert(seg[j] == c@[start + j]);
                    }
                }
                lemma_full_lines_single(seg);
                lemma_full_lines_concat(p, seg);
                assert(closed(c@.take(i + 1))) by {
                    assert(c@.take(i + 1).last() == c@[i as int]);
                }
            }
            r.push(LineSpan { start, end: i + 1 });
            start = i + 1;
        }
        i += 1;
    }
    proof {
        let p = c@.take(start as int);
        let rest = c@.skip(start as int);
        assert(c@ =~= p + rest);
        lemma_full_lines_concat(p, rest);
        if rest.len() == 0 {
            assert(full_lines(rest) =~= Seq::<Seq<u8>>::empty());
            assert(full_lines(c@) =~= full_lines(p));
        } else {
            assert(line_ok(rest)) by {
                assert forall|j: int| 0 <= j < rest.len() - 1 implies rest[j] != nl() by {
                    assert(rest[j] == c@[start + j]);
                }
            }
            lemma_full_lines_single(rest);
        }
    }
    if start < c.len() {
        r.push(LineSpan { start, end: c.len() });
        proof {
            let rest = c@.skip(start as int);
            assert(c@.subrange(start as int, c.len() as int) =~= rest);
        }
    }
    r
}

/// Appends `c[a..b]` to `out`.
pub fn push_range(out: &mut Vec<u8>, c: &[u8], a: usize, b: usize)
    requires
        a <= b <= c.len(),
    ensures
        final(out)@ == old(out)@ + c@.subrange(a as int, b as int),
{
    let mut i = a;
    while i < b
        invariant
            a <= i <= b <= c.len(),
            out@ == old(out)@ + c@.subrange(a as int, i as int),
        decreases b - i,
    {
        out.push(c[i]);
        assert(c@.subrange(a as int, i + 1) =~= c@.subrange(a as int, i as int).push(c@[i as int]));
        i += 1;
    }
}

/// Appends all of `p` to `out`.
pub fn push_all(out: &mut Vec<u8>, p: &[u8])
    ensures
        final(out)@ == old(out)@ + p@,
{
    push_range(out, p, 0, p.len());
    assert(p@.subrange(0, p@.len() as int) =~= p@);
}

/// `\n` ends line `k` (0-based) of the buffer that `spans` cut.
pub fn span_has_nl(c: &[u8], spans: &Vec<LineSpan>, k: usize) -> (r: bool)
    requires
        spans_match(c@, spans@),
        k < spans.len(),
    ensures
        r == ends_nl(full_lines(c@)[k as int]),
{
    let sp = spans[k];
    proof {
        assert(spans@[k as int] == sp);
        lemma_full_lines_ok(c@);
        assert(line_ok(full_lines(c@)[k as int]));
    }
    let r = sp.end > sp.start && c[sp.end - 1] == 10u8;
    proof {
        let l = full_lines(c@)[k as int];
        if sp.end > sp.start {
            assert(l.last() == c@[sp.end - 1]);
        }
    }
    r
}

/// Appends full lines `a ..< b` (0-based) of `c` to `out`.
pub fn push_lines(out: &mut Vec<u8>, c: &[u8], spans: &Vec<LineSpan>, a: usize, b: usize)
    requires
        spans_match(c@, spans@),
        a <= b <= spans.len(),
    ensures
        final(out)@ == old(out)@ + lines_between(c@, a as int, b as int),
{
    let ghost fl = full_lines(c@);
    let mut k = a;
    assert(fl.subrange(a as int, a as int) =~= Seq::<Seq<u8>>::empty());
    assert(fl.subrange(a as int, a as int).flatten() =~= Seq::<u8>::empty());
    while k < b
        invariant
            spans_match(c@, spans@),
            fl == full_lines(c@),
            a <= k <= b <= spans.len(),
            out@ == old(out)@ + fl.subrange(a as int, k as int).flatten(),
        decreases b - k,
    {
        let sp = spans[k];
        assert(spans@[k as int] == sp);
        push_range(out, c, sp.start, sp.end);
        proof {
            assert(fl.subrange(a as int, k + 1) =~= fl.subrange(a as int, k as int).push(fl[k as int]));
            fl.subrange(a as int, k as int).lemma_flatten_push(fl[k as int]);
        }
        k += 1;
    }
}

} // verus!
