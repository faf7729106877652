//! `indent`: change the indentation at the start of each line of a range.
//!
//! - `Add(n)`: put `n` spaces in front of the line;
//! - `Remove(n)`: remove up to `n` leading spaces;
//! - `TabsToSpaces(u)`: each leading tab becomes `u` spaces;
//! - `SpacesToTabs(u)`: the leading spaces become one tab per `u` of them,
//!   the rest staying spaces.
//!
//! Only the start of a line is touched.

use vstd::prelude::*;

use crate::text::lines::{
    bytes_result, ends_nl, full_lines, line_count, line_ok, line_spans, lines_ok, nl,
    push_range, span_has_nl, spans_match, strip_nl, lemma_full_lines_ok, lemma_full_lines_of_flatten,
};

verus! {

/// An indentation change.
#[derive(Debug, Clone, Copy, PartialEq, Eq)]
pub enum IndentOp {
    Add(usize),
    Remove(usize),
    TabsToSpaces(usize),
    SpacesToTabs(usize),
}

/// Why an indentation change was refused.
#[derive(Debug, Clone, Copy, PartialEq, Eq)]
pub enum IndentError {
    OutOfBounds { start: usize, end: usize, total: usize },
    ZeroLine,
    InvalidRange { start: usize, end: usize },
    ZeroUnit,
}

pub open spec fn space() -> u8 {
    32u8
}

pub open spec fn tab() -> u8 {
    9u8
}

/// `n` copies of byte `b`.
pub open spec fn run_of(b: u8, n: nat) -> Seq<u8> {
    Seq::new(n, |_i: int| b)
}

/// `k` copies of `p`, one after the other.
pub open spec fn repeat(p: Seq<u8>, k: nat) -> Seq<u8>
    decreases k,
{
    if k == 0 {
        Seq::<u8>::empty()
    } else {
        repeat(p, (k - 1) as nat) + p
    }
}

/// Number of copies of `b` at the start of `l`.
pub open spec fn leading(l: Seq<u8>, b: u8) -> nat
    decreases l.len(),
{
    if l.len() > 0 && l[0] == b {
        1 + leading(l.drop_first(), b)
    } else {
        0
    }
}

/// The line `l` (without `\n`) once `op` has been applied to its start.
pub open spec fn indented_line(l: Seq<u8>, op: IndentOp) -> Seq<u8> {
    match op {
        IndentOp::Add(n) => run_of(space(), n as nat) + l,
        IndentOp::Remove(n) => {
            let m = leading(l, space());
            l.skip(if n < m {
                n as int
            } else {
                m as int
            })
        },
        IndentOp::TabsToSpaces(u) => {
            let k = leading(l, tab());
            repeat(run_of(space(), u as nat), k) + l.skip(k as int)
        },
        IndentOp::SpacesToTabs(u) => {
            let m = leading(l, space());
            run_of(tab(), m / (u as nat)) + run_of(space(), m % (u as nat)) + l.skip(m as int)
        },
    }
}

/// The line `l` (with its `\n` if any) once `op` has been applied, when it is
/// in the range.
pub open spec fn indented_full_line(l: Seq<u8>, op: IndentOp) -> Seq<u8> {
    indented_line(strip_nl(l), op) + if ends_nl(l) {
        seq![nl()]
    } else {
        Seq::<u8>::empty()
    }
}

/// The full lines after `op` has been applied to lines `s ..= e`.
pub open spec fn indented_lines(c: Seq<u8>, s: int, e: int, op: IndentOp) -> Seq<Seq<u8>> {
    let fl = full_lines(c);
    Seq::new(
        fl.len(),
        |k: int|
            if s - 1 <= k < e {
                indented_full_line(fl[k], op)
            } else {
                fl[k]
            },
    )
}

/// What `apply_indent` gives.
pub open spec fn apply_indent_result(c: Seq<u8>, s: usize, e: usize, op: IndentOp) -> Result<
    Seq<u8>,
    IndentError,
> {
    if s == 0 || e == 0 {
        Err(IndentError::ZeroLine)
    } else if e < s {
        Err(IndentError::InvalidRange { start: s, end: e })
    } else if e > line_count(c) {
        Err(IndentError::OutOfBounds { start: s, end: e, total: line_count(c) as usize })
    } else if op == IndentOp::TabsToSpaces(0) || op == IndentOp::SpacesToTabs(0) {
        Err(IndentError::ZeroUnit)
    } else {
        Ok(indented_lines(c, s as int, e as int, op).flatten())
    }
}

pub proof fn lemma_leading(l: Seq<u8>, b: u8)
    ensures
        leading(l, b) <= l.len(),
        forall|j: int| 0 <= j < leading(l, b) ==> l[j] == b,
        leading(l, b) < l.len() ==> l[leading(l, b) as int] != b,
    decreases l.len(),
{
    if l.len() > 0 && l[0] == b {
        lemma_leading(l.drop_first(), b);
        assert forall|j: int| 0 <= j < leading(l, b) implies l[j] == b by {
            if j > 0 {
                assert(l[j] == l.drop_first()[j - 1]);
            }
        }
    }
}

/// `leading` is determined by its characterization.
pub proof fn lemma_leading_is(l: Seq<u8>, b: u8, k: int)
    requires
        0 <= k <= l.len(),
        forall|j: int| 0 <= j < k ==> l[j] == b,
        k < l.len() ==> l[k] != b,
    ensures
        leading(l, b) == k,
{
    lemma_leading(l, b);
    if leading(l, b) < k {
        assert(l[leading(l, b) as int] == b);
    } else if leading(l, b) > k {
        assert(l[k] == b);
    }
}

/// Appends `n` copies of `b`.
fn push_run(out: &mut Vec<u8>, b: u8, n: usize)
    ensures
        final(out)@ == old(out)@ + run_of(b, n as nat),
{
    let mut i: usize = 0;
    while i < n
        invariant
            0 <= i <= n,
            out@ == old(out)@ + run_of(b, i as nat),
        decreases n - i,
    {
        out.push(b);
        assert(run_of(b, (i + 1) as nat) =~= run_of(b, i as nat).push(b));
        i += 1;
    }
}

/// Number of copies of `b` starting at `c[a]`, not going past `c[end]`.
fn count_leading(c: &[u8], a: usize, end: usize, b: u8) -> (r: usize)
    requires
        a <= end <= c.len(),
    ensures
        r == leading(c@.subrange(a as int, end as int), b),
        a + r <= end,
{
    let mut i = a;
    while i < end && c[i] == b
        invariant
            a <= i <= end <= c.len(),
            forall|j: int| a <= j < i ==> c@[j] == b,
        decreases end - i,
    {
        i += 1;
    }
    proof {
        let l = c@.subrange(a as int, end as int);
        assert forall|j: int| 0 <= j < i - a implies l[j] == b by {
            assert(l[j] == c@[a + j]);
        }
        if i < end {
            assert(l[i - a] == c@[i as int]);
        }
        lemma_leading_is(l, b, i - a);
    }
    i - a
}

/// Appends the line `c[a..end]` (without `\n`) once `op` has been applied.
fn push_indented_line(out: &mut Vec<u8>, c: &[u8], a: usize, end: usize, op: IndentOp)
    requires
        a <= end <= c.len(),
        op != IndentOp::TabsToSpaces(0),
        op != IndentOp::SpacesToTabs(0),
    ensures
        final(out)@ == old(out)@ + indented_line(c@.subrange(a as int, end as int), op),
{
    let ghost l = c@.subrange(a as int, end as int);
    match op {
        IndentOp::Add(n) => {
            push_run(out, 32u8, n);
            push_range(out, c, a, end);
        },
        IndentOp::Remove(n) => {
            let m = count_leading(c, a, end, 32u8);
            let k = if n < m {
                n
            } else {
                m
            };
            push_range(out, c, a + k, end);
            assert(c@.subrange(a + k, end as int) =~= l.skip(k as int));
        },
        IndentOp::TabsToSpaces(u) => {
            let k = count_leading(c, a, end, 9u8);
            let mut i: usize = 0;
            while i < k
                invariant
                    0 <= i <= k,
                    a + k <= end,
                    out@ == old(out)@ + repeat(run_of(space(), u as nat), i as nat),
                decreases k - i,
            {
                push_run(out, 32u8, u);
                i += 1;
            }
            push_range(out, c, a + k, end);
            assert(c@.subrange(a + k, end as int) =~= l.skip(k as int));
        },
        IndentOp::SpacesToTabs(u) => {
            let m = count_leading(c, a, end, 32u8);
            push_run(out, 9u8, m / u);
            push_run(out, 32u8, m % u);
            push_range(out, c, a + m, end);
            assert(c@.subrange(a + m, end as int) =~= l.skip(m as int));
        },
    }
}

/// Applies `op` to the start of each of lines `start_line ..= end_line`
/// (1-based) of `content`.
pub fn apply_indent(content: &[u8], start_line: usize, end_line: usize, op: IndentOp) -> (r:
    Result<Vec<u8>, IndentError>)
    ensures
        bytes_result(r) == apply_indent_result(content@, start_line, end_line, op),
{
    if start_line == 0 || end_line == 0 {
        return Err(IndentError::ZeroLine);
    }
    if end_line < start_line {
        return Err(IndentError::InvalidRange { start: start_line, end: end_line });
    }
    let spans = line_spans(content);
    let total = spans.len();
    if end_line > total {
        return Err(IndentError::OutOfBounds { start: start_line, end: end_line, total });
    }
    match op {
        IndentOp::TabsToSpaces(0) | IndentOp::SpacesToTabs(0) => {
            return Err(IndentError::ZeroUnit);
        },
        _ => {},
    }
    let ghost fl = full_lines(content@);
    let ghost nls = indented_lines(content@, start_line as int, end_line as int, op);
    let mut out: Vec<u8> = Vec::new();
    let mut k: usize = 0;
    assert(nls.subrange(0, 0).flatten() =~= Seq::<u8>::empty());
    while k < total
        invariant
            spans_match(content@, spans@),
            fl == full_lines(content@),
            total == spans.len() == fl.len() == nls.len(),
            nls == indented_lines(content@, start_line as int, end_line as int, op),
            op != IndentOp::TabsToSpaces(0),
            op != IndentOp::SpacesToTabs(0),
            0 <= k <= total,
            out@ == nls.subrange(0, k as int).flatten(),
        decreases total - k,
    {
        let sp = spans[k];
        assert(spans@[k as int] == sp);
        let ghost before = out@;
        if k + 1 >= start_line && k + 1 <= end_line {
            let has_nl = span_has_nl(content, &spans, k);
            let line_end = if has_nl {
                sp.end - 1
            } else {
                sp.end
            };
            push_indented_line(&mut out, content, sp.start, line_end, op);
            if has_nl {
                out.push(10u8);
            }
            proof {
                let l = fl[k as int];
                assert(l == content@.subrange(sp.start as int, sp.end as int));
                if has_nl {
                    assert(content@.subrange(sp.start as int, line_end as int) =~= l.drop_last());
                } else {
                    assert(content@.subrange(sp.start as int, line_end as int) =~= l);
                }
                assert(out@ =~= before + indented_full_line(l, op));
            }
        } else {
            push_range(&mut out, content, sp.start, sp.end);
        }
        proof {
            assert(nls.subrange(0, k + 1) =~= nls.subrange(0, k as int).push(nls[k as int]));
            nls.subrange(0, k as int).lemma_flatten_push(nls[k as int]);
        }
        k += 1;
    }
    assert(nls.subrange(0, total as int) =~= nls);
    Ok(out)
}


/// `repeat(p, k)` has `k` times the length of `p`, and is made of `b` when
/// `p` is.
proof fn lemma_repeat(p: Seq<u8>, k: nat, b: u8)
    requires
        forall|j: int| 0 <= j < p.len() ==> p[j] == b,
    ensures
        repeat(p, k).len() == k * p.len(),
        forall|j: int| 0 <= j < repeat(p, k).len() ==> repeat(p, k)[j] == b,
    decreases k,
{
    if k > 0 {
        lemma_repeat(p, (k - 1) as nat, b);
        let k1 = (k - 1) as nat;
        assert(k * p.len() == k1 * p.len() + p.len()) by (nonlinear_arith)
            requires
                k1 == k - 1,
        ;
        let r = repeat(p, k);
        let q = repeat(p, (k - 1) as nat);
        assert forall|j: int| 0 <= j < r.len() implies r[j] == b by {
            if j < q.len() {
                assert(r[j] == q[j]);
            } else {
                assert(r[j] == p[j - q.len()]);
            }
        }
    } else {
        assert(k * p.len() == 0) by (nonlinear_arith)
            requires
                k == 0,
        ;
    }
}

/// Removing `n` spaces after adding `n` spaces gives the line back.
pub proof fn lemma_add_then_remove_line(l: Seq<u8>, n: usize)
    ensures
        indented_line(indented_line(l, IndentOp::Add(n)), IndentOp::Remove(n)) == l,
{
    let t = indented_line(l, IndentOp::Add(n));
    lemma_leading(t, space());
    if leading(t, space()) < n {
        assert(t[leading(t, space()) as int] == space());
    }
    assert(t.skip(n as int) =~= l);
}

/// The leading tabs of `l` are followed by fewer than `u` spaces: turning
/// tabs into `u` spaces can then be undone.
pub open spec fn tabs_then_few_spaces(l: Seq<u8>, u: usize) -> bool {
    leading(l.skip(leading(l, tab()) as int), space()) < u
}

/// Folding spaces into tabs after expanding tabs into `u` spaces gives the
/// line back, when its leading tabs are followed by fewer than `u` spaces.
pub proof fn lemma_tabs_then_spaces_line(l: Seq<u8>, u: usize)
    requires
        u >= 1,
        tabs_then_few_spaces(l, u),
    ensures
        indented_line(indented_line(l, IndentOp::TabsToSpaces(u)), IndentOp::SpacesToTabs(u)) == l,
{
    let k = leading(l, tab());
    lemma_leading(l, tab());
    let r = l.skip(k as int);
    let m = leading(r, space());
    lemma_leading(r, space());
    let sp = run_of(space(), u as nat);
    let head = repeat(sp, k);
    lemma_repeat(sp, k, space());
    let t = head + r;
    assert(t == indented_line(l, IndentOp::TabsToSpaces(u)));
    let total: int = head.len() as int + m as int;
    assert forall|j: int| 0 <= j < total implies t[j] == space() by {
        if j < head.len() {
            assert(t[j] == head[j]);
        } else {
            assert(t[j] == r[j - head.len()]);
        }
    }
    if total < t.len() {
        assert(t[total] == r[m as int]);
    }
    lemma_leading_is(t, space(), total);
    vstd::arithmetic::mul::lemma_mul_is_commutative(k as int, u as int);
    vstd::arithmetic::div_mod::lemma_fundamental_div_mod_converse(
        total as int,
        u as int,
        k as int,
        m as int,
    );
    let back = indented_line(t, IndentOp::SpacesToTabs(u));
    assert(back == run_of(tab(), k) + run_of(space(), m) + t.skip(total as int));
    assert(back =~= l) by {
        assert forall|j: int| 0 <= j < l.len() implies back[j] == l[j] by {
            if j < k {
            } else if j < k + m {
                assert(l[j] == r[j - k]);
            } else {
                assert(back[j] == t[total + (j - k - m)]);
                assert(t[total + (j - k - m)] == r[m + (j - k - m)]);
                assert(l[j] == r[j - k]);
            }
        }
    }
}

/// `op` keeps a line free of `\n`, and keeps it non-empty when it adds
/// spaces or expands tabs.
proof fn lemma_indented_line_shape(l: Seq<u8>, op: IndentOp)
    requires
        forall|j: int| 0 <= j < l.len() ==> l[j] != nl(),
        op != IndentOp::TabsToSpaces(0),
        op != IndentOp::SpacesToTabs(0),
    ensures
        forall|j: int|
            0 <= j < indented_line(l, op).len() ==> #[trigger] indented_line(l, op)[j] != nl(),
        (op is Add || op is TabsToSpaces) && l.len() > 0 ==> indented_line(l, op).len() > 0,
{
    let t = indented_line(l, op);
    match op {
        IndentOp::Add(n) => {
            assert forall|j: int| 0 <= j < t.len() implies t[j] != nl() by {
                if j >= n {
                    assert(t[j] == l[j - n]);
                }
            }
        },
        IndentOp::Remove(n) => {
            lemma_leading(l, space());
            assert forall|j: int| 0 <= j < t.len() implies t[j] != nl() by {}
        },
        IndentOp::TabsToSpaces(u) => {
            let k = leading(l, tab());
            lemma_leading(l, tab());
            let head = repeat(run_of(space(), u as nat), k);
            lemma_repeat(run_of(space(), u as nat), k, space());
            assert forall|j: int| 0 <= j < t.len() implies t[j] != nl() by {
                if j < head.len() {
                    assert(t[j] == head[j]);
                } else {
                    assert(t[j] == l[k + j - head.len()]);
                }
            }
            if l.len() > 0 && k > 0 {
                vstd::arithmetic::mul::lemma_mul_strictly_positive(k as int, u as int);
            }
        },
        IndentOp::SpacesToTabs(u) => {
            lemma_leading(l, space());
            let m = leading(l, space());
            let a = run_of(tab(), m / (u as nat));
            let b = run_of(space(), m % (u as nat));
            assert forall|j: int| 0 <= j < t.len() implies t[j] != nl() by {
                if j < a.len() {
                } else if j < a.len() + b.len() {
                } else {
                    assert(t[j] == l[m + j - a.len() - b.len()]);
                }
            }
        },
    }
}

/// When `op` keeps every line of the range non-empty (or it has a `\n`),
/// the result's lines are the indented lines.
proof fn lemma_indented_full_lines(c: Seq<u8>, s: int, e: int, op: IndentOp)
    requires
        1 <= s <= e <= line_count(c),
        op != IndentOp::TabsToSpaces(0),
        op != IndentOp::SpacesToTabs(0),
        op is Add || op is TabsToSpaces,
    ensures
        full_lines(indented_lines(c, s, e, op).flatten()) == indented_lines(c, s, e, op),
{
    let fl = full_lines(c);
    let nls = indented_lines(c, s, e, op);
    lemma_full_lines_ok(c);
    assert forall|k: int| 0 <= k < nls.len() implies line_ok(#[trigger] nls[k]) && (ends_nl(nls[k])
        == ends_nl(fl[k])) by {
        let l = fl[k];
        assert(line_ok(l));
        if s - 1 <= k < e {
            let st = strip_nl(l);
            assert forall|j: int| 0 <= j < st.len() implies st[j] != nl() by {
                if ends_nl(l) {
                    assert(st[j] == l[j]);
                }
            }
            if !ends_nl(l) {
                assert(st.len() > 0);
            }
            lemma_indented_line_shape(st, op);
            let il = indented_line(st, op);
            let nk = nls[k];
            assert(nk == indented_full_line(l, op));
            assert forall|j: int| 0 <= j < nk.len() - 1 implies nk[j] != nl() by {
                assert(nk[j] == il[j]);
            }
            if ends_nl(l) {
                assert(nk.last() == nl());
            } else {
                assert(nk =~= il);
                if il.len() > 0 {
                    assert(nk.last() == il[il.len() - 1]);
                }
            }
        }
    }
    assert(lines_ok(nls));
    lemma_full_lines_of_flatten(nls);
}

/// Indenting lines `s ..= e` by `n` spaces and then removing `n` spaces from
/// them gives the buffer back, for every buffer and range in bounds.
pub proof fn lemma_indent_add_then_remove(c: Seq<u8>, s: usize, e: usize, n: usize)
    requires
        1 <= s <= e <= line_count(c),
    ensures
        apply_indent_result(c, s, e, IndentOp::Add(n)) is Ok,
        line_count(apply_indent_result(c, s, e, IndentOp::Add(n))->Ok_0) == line_count(c),
        apply_indent_result(apply_indent_result(c, s, e, IndentOp::Add(n))->Ok_0, s, e, IndentOp::Remove(n))
            == Ok::<Seq<u8>, IndentError>(c),
{
    let fl = full_lines(c);
    let nls = indented_lines(c, s as int, e as int, IndentOp::Add(n));
    let c1 = nls.flatten();
    lemma_indented_full_lines(c, s as int, e as int, IndentOp::Add(n));
    let back = indented_lines(c1, s as int, e as int, IndentOp::Remove(n));
    assert forall|k: int| 0 <= k < fl.len() implies back[k] == fl[k] by {
        if s - 1 <= k < e {
            let l = fl[k];
            let il = indented_line(strip_nl(l), IndentOp::Add(n));
            lemma_add_then_remove_line(strip_nl(l), n);
            if ends_nl(l) {
                assert(strip_nl(nls[k]) =~= il);
                assert(l =~= strip_nl(l) + seq![nl()]);
            } else {
                assert(strip_nl(nls[k]) =~= il);
                assert(l =~= strip_nl(l) + Seq::<u8>::empty());
            }
        }
    }
    assert(back =~= fl);
    lemma_full_lines_ok(c);
}

/// Turning tabs into `u` spaces on lines `s ..= e` and then folding spaces
/// back into tabs gives the buffer back, when on each line of the range the
/// leading tabs are followed by fewer than `u` spaces.
pub proof fn lemma_indent_tabs_then_spaces(c: Seq<u8>, s: usize, e: usize, u: usize)
    requires
        1 <= s <= e <= line_count(c),
        u >= 1,
        forall|k: int|
            s - 1 <= k < e ==> tabs_then_few_spaces(strip_nl(#[trigger] full_lines(c)[k]), u),
    ensures
        apply_indent_result(c, s, e, IndentOp::TabsToSpaces(u)) is Ok,
        line_count(apply_indent_result(c, s, e, IndentOp::TabsToSpaces(u))->Ok_0) == line_count(c),
        apply_indent_result(
            apply_indent_result(c, s, e, IndentOp::TabsToSpaces(u))->Ok_0,
            s,
            e,
            IndentOp::SpacesToTabs(u),
        ) == Ok::<Seq<u8>, IndentError>(c),
{
    let fl = full_lines(c);
    lemma_full_lines_ok(c);
    let op = IndentOp::TabsToSpaces(u);
    let nls = indented_lines(c, s as int, e as int, op);
    let c1 = nls.flatten();
    lemma_indented_full_lines(c, s as int, e as int, op);
    let back = indented_lines(c1, s as int, e as int, IndentOp::SpacesToTabs(u));
    assert forall|k: int| 0 <= k < fl.len() implies back[k] == fl[k] by {
        if s - 1 <= k < e {
            let l = fl[k];
            let il = indented_line(strip_nl(l), op);
            lemma_tabs_then_spaces_line(strip_nl(l), u);
            if ends_nl(l) {
                assert(strip_nl(nls[k]) =~= il);
                assert(l =~= strip_nl(l) + seq![nl()]);
            } else {
                assert(line_ok(l));
                assert forall|j: int| 0 <= j < l.len() implies l[j] != nl() by {
                    if j == l.len() - 1 {
                        assert(l[j] == l.last());
                    }
                }
                lemma_indented_line_shape(l, op);
                assert(il.len() > 0);
                assert(il.last() == il[il.len() - 1]);
                assert(nls[k] =~= il);
                assert(strip_nl(nls[k]) =~= il);
                assert(l =~= strip_nl(l) + Seq::<u8>::empty());
            }
        }
    }
    assert(back =~= fl);
}

} // verus!
