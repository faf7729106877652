//! What holds of every run of a file's operations, stated over
//! [`op_result`] and [`file_result`], the meaning of every run by a
//! manifest or by a single command:
//! - `revert` undoes: an operation run forward and then run again with the
//!   same arguments and `revert` gives the file back (one law per kind);
//! - the order in which a file's operations are listed does not matter when
//!   no two of them start at the same line.

use vstd::prelude::*;

use crate::apply::commit::{
    descending_order, file_result, first_below, fold_ops, goes_before, holds_forward_text,
    indent_op_of, indent_op_result, insert_op_result, inserted_span, move_op_result, op_result,
    position_of, sort_key, sort_keys,
};
use crate::apply::{IndentKind, MovePosition, Op, OpContent, Target, Was};
use crate::text::lines::{
    all_nl, closed, ends_nl, full_lines, lemma_closed_all_nl, lemma_flatten_last,
    lemma_full_lines_of_flatten, lemma_full_lines_ok, lemma_lines_ok_concat,
    lemma_lines_ok_subrange, line_count, line_ok, lines_ok, nl, plain_lines, strip_nl,
};
use crate::text::location::{lemma_split_lines_rejoin, range_bytes, resolve_result, Locator, Resolved};
use crate::text::ops::find::{lemma_nl_before_concat, lemma_nl_before_prefix, nl_before};
use crate::text::ops::indent::{
    lemma_indent_add_then_remove, lemma_indent_tabs_then_spaces, tabs_then_few_spaces, IndentOp,
};
use crate::text::ops::insert::{
    insert_at_result, insert_index, lemma_insert_then_delete, normalized, Position,
};
use crate::text::ops::move_op::{lemma_move_round_trip, move_lines_result, reverse_params_result};
use crate::text::ops::replace::{range_payload, replace_range_result, replaced_range, ReplaceError};

verus! {

/// A line range in bounds resolves to itself.
proof fn lemma_lines_resolve(c: Seq<u8>, s: usize, e: usize)
    requires
        1 <= s <= e <= line_count(c),
    ensures
        resolve_result(Locator::Lines { start: s, end: e }, c) == Ok::<Resolved, crate::text::location::LocateError>(
            Resolved { start_line: s, end_line: e },
        ),
{
}

/// Moving a block and then running the same move with `revert` gives the
/// file back: for every file whose lines all end with `\n` and every move of
/// lines `s ..= e` to a line outside them, except a move that leaves the
/// block where it is (`before` the line right after it, or `after` the
/// line right before it).
pub proof fn lemma_move_revert_restores(
    target: Target,
    c: Seq<u8>,
    s: usize,
    e: usize,
    t: usize,
    position: MovePosition,
    file: Result<Vec<u8>, String>,
)
    requires
        closed(c),
        1 <= s <= e <= line_count(c),
        1 <= t <= line_count(c),
        !(s <= t <= e),
        !(position == MovePosition::Before && t == e + 1),
        !(position == MovePosition::After && t + 1 == s),
    ensures
        ({
            let from = Locator::Lines { start: s, end: e };
            let fwd = Op::Move { target, from, to_line: t, position, revert: false };
            let back = Op::Move { target, from, to_line: t, position, revert: true };
            &&& op_result(fwd, c, file) is Ok
            &&& op_result(back, op_result(fwd, c, file)->Ok_0, file) == Ok::<
                Seq<u8>,
                crate::apply::commit::OpError,
            >(c)
        }),
{
    reveal(op_result);
    let pos = position_of(position);
    lemma_move_round_trip(c, s, e, t, pos);
    lemma_lines_resolve(c, s, e);
    let c1 = move_lines_result(c, s, e, t, pos)->Ok_0;
    lemma_lines_resolve(c1, s, e);
    let from = Locator::Lines { start: s, end: e };
    assert(move_op_result(c, from, t, position, false) == Ok::<Seq<u8>, crate::apply::commit::OpError>(c1));
    let q = reverse_params_result(s, e, t, pos)->Ok_0;
    assert(move_op_result(c1, from, t, position, true) == Ok::<Seq<u8>, crate::apply::commit::OpError>(c));
}

/// Indenting lines `s ..= e` by `n ≥ 0` spaces and then running the same
/// change with `revert` (which removes `n` spaces) gives the file back, for
/// every file and range in bounds.
pub proof fn lemma_indent_revert_restores(
    target: Target,
    c: Seq<u8>,
    s: usize,
    e: usize,
    n: i64,
    file: Result<Vec<u8>, String>,
)
    requires
        1 <= s <= e <= line_count(c),
        n >= 0,
    ensures
        ({
            let locator = Locator::Lines { start: s, end: e };
            let fwd = Op::Indent { target, locator, kind: IndentKind::Adjust(n), revert: false };
            let back = Op::Indent { target, locator, kind: IndentKind::Adjust(n), revert: true };
            &&& op_result(fwd, c, file) is Ok
            &&& op_result(back, op_result(fwd, c, file)->Ok_0, file) == Ok::<
                Seq<u8>,
                crate::apply::commit::OpError,
            >(c)
            &&& indent_op_result(c, locator, IndentKind::Adjust(n), false) is Ok
            &&& indent_op_result(
                indent_op_result(c, locator, IndentKind::Adjust(n), false)->Ok_0,
                locator,
                IndentKind::Adjust(n),
                true,
            ) == Ok::<Seq<u8>, crate::apply::commit::OpError>(c)
        }),
{
    reveal(op_result);
    let k = IndentKind::Adjust(n);
    let m = indent_op_of(k, false)->Add_0;
    assert(indent_op_of(k, false) == IndentOp::Add(m));
    assert(indent_op_of(k, true) == IndentOp::Remove(m));
    lemma_indent_add_then_remove(c, s, e, m);
    lemma_lines_resolve(c, s, e);
    let c1 = crate::text::ops::indent::apply_indent_result(c, s, e, IndentOp::Add(m))->Ok_0;
    lemma_lines_resolve(c1, s, e);
    let locator = Locator::Lines { start: s, end: e };
    assert(indent_op_result(c, locator, k, false) == Ok::<Seq<u8>, crate::apply::commit::OpError>(c1));
}

/// Turning tabs into `u ≥ 1` spaces on lines `s ..= e` and then running the
/// same change with `revert` (which folds spaces into tabs) gives the file
/// back, when on each line of the range the leading tabs are followed by
/// fewer than `u` spaces (else the fold also takes those spaces).
pub proof fn lemma_tabs_revert_restores(
    target: Target,
    c: Seq<u8>,
    s: usize,
    e: usize,
    u: usize,
    file: Result<Vec<u8>, String>,
)
    requires
        1 <= s <= e <= line_count(c),
        u >= 1,
        forall|k: int|
            s - 1 <= k < e ==> tabs_then_few_spaces(strip_nl(#[trigger] full_lines(c)[k]), u),
    ensures
        ({
            let locator = Locator::Lines { start: s, end: e };
            let fwd = Op::Indent { target, locator, kind: IndentKind::TabsToSpaces(u), revert: false };
            let back = Op::Indent { target, locator, kind: IndentKind::TabsToSpaces(u), revert: true };
            &&& op_result(fwd, c, file) is Ok
            &&& op_result(back, op_result(fwd, c, file)->Ok_0, file) == Ok::<
                Seq<u8>,
                crate::apply::commit::OpError,
            >(c)
        }),
{
    reveal(op_result);
    lemma_indent_tabs_then_spaces(c, s, e, u);
    lemma_lines_resolve(c, s, e);
    let c1 = crate::text::ops::indent::apply_indent_result(c, s, e, IndentOp::TabsToSpaces(u))->Ok_0;
    lemma_lines_resolve(c1, s, e);
}

/// A line that ends with `\n` has exactly one.
proof fn lemma_nl_before_line(l: Seq<u8>, off: int)
    requires
        line_ok(l),
        0 <= off < l.len(),
    ensures
        nl_before(l, off) == 0,
    decreases off,
{
    if off > 0 {
        lemma_nl_before_line(l, off - 1);
    }
}

/// A buffer of `\n`-terminated lines has one `\n` per line.
proof fn lemma_nl_count_lines(ls: Seq<Seq<u8>>)
    requires
        all_nl(ls),
    ensures
        nl_before(ls.flatten(), ls.flatten().len() as int) == ls.len(),
    decreases ls.len(),
{
    if ls.len() == 0 {
        assert(ls.flatten() =~= Seq::<u8>::empty());
    } else {
        let init = ls.drop_last();
        let l = ls.last();
        assert(all_nl(init)) by {
            assert forall|k: int| 0 <= k < init.len() implies line_ok(#[trigger] init[k]) && ends_nl(
                init[k],
            ) by {
                assert(init[k] == ls[k]);
            }
        }
        lemma_nl_count_lines(init);
        init.lemma_flatten_push(l);
        assert(init.push(l) =~= ls);
        assert(line_ok(ls[ls.len() - 1]) && ends_nl(ls[ls.len() - 1]));
        lemma_nl_before_concat(init.flatten(), l, l.len() as int);
        lemma_nl_before_line(l, l.len() - 1);
        assert(l[l.len() - 1] == nl());
    }
}

/// A non-empty inserted text becomes as many lines as it has `\n`, plus one
/// when it does not end with `\n`.
pub proof fn lemma_inserted_line_count(p: Seq<u8>)
    requires
        p.len() > 0,
    ensures
        line_count(normalized(p)) == nl_before(p, p.len() as int) + if p.last() == nl() {
            0nat
        } else {
            1nat
        },
{
    let q = normalized(p);
    lemma_split_lines_rejoin(q);
    assert(plain_lines(q).len() == line_count(q));
    if p.last() != nl() {
        assert(q =~= p + seq![nl()]);
        lemma_nl_before_prefix(p, seq![nl()], p.len() as int);
        assert(q[p.len() as int] == nl());
    }
}

/// Inserting a non-empty payload at line `a` of a buffer whose lines all
/// end with `\n`, and then deleting the `k` lines from the first inserted
/// one on, where `k` counts the payload's `\n` plus one when it does not
/// end with `\n`, gives the buffer back.
pub proof fn lemma_insert_then_delete_counted(c: Seq<u8>, a: usize, pos: Position, p: Seq<u8>)
    requires
        closed(c),
        1 <= a <= line_count(c),
        p.len() > 0,
        c.len() + normalized(p).len() <= usize::MAX,
    ensures
        ({
            let k = nl_before(p, p.len() as int) + if p.last() == nl() {
                0nat
            } else {
                1nat
            };
            let lo: int = if pos == Position::After {
                a + 1
            } else {
                a as int
            };
            &&& insert_at_result(c, a, pos, p) is Ok
            &&& replace_range_result(
                insert_at_result(c, a, pos, p)->Ok_0,
                lo as usize,
                (lo + k - 1) as usize,
                Seq::<u8>::empty(),
            ) == Ok::<Seq<u8>, ReplaceError>(c)
        }),
{
    lemma_insert_then_delete(c, a, pos, p);
    lemma_inserted_line_count(p);
}

/// Inserting a non-empty text after (or before) line `a` and then running
/// the same insertion with `revert` (which deletes the lines the text
/// became) gives the file back, for every file whose lines all end with
/// `\n` and every anchor line in it (the file with the text in it has a
/// length, so it fits in a `usize`).
pub proof fn lemma_insert_revert_restores(
    target: Target,
    c: Seq<u8>,
    a: usize,
    text: Vec<u8>,
    position: MovePosition,
    file: Result<Vec<u8>, String>,
)
    requires
        closed(c),
        1 <= a <= line_count(c),
        text@.len() > 0,
        c.len() + normalized(text@).len() <= usize::MAX,
    ensures
        ({
            let locator = Locator::Lines { start: a, end: a };
            let content = OpContent::Text(text);
            let fwd = Op::Insert { target, locator, content, position, revert: false };
            let back = Op::Insert { target, locator, content, position, revert: true };
            &&& op_result(fwd, c, file) is Ok
            &&& op_result(back, op_result(fwd, c, file)->Ok_0, file) == Ok::<
                Seq<u8>,
                crate::apply::commit::OpError,
            >(c)
        }),
{
    reveal(op_result);
    let p = text@;
    let pos = position_of(position);
    lemma_insert_then_delete(c, a, pos, p);
    let locator = Locator::Lines { start: a, end: a };
    let content = OpContent::Text(text);
    lemma_lines_resolve(c, a, a);
    let c1 = crate::text::ops::insert::inserted(c, a as int, pos, p);
    assert(insert_op_result(c, locator, content, position, false, file) == Ok::<
        Seq<u8>,
        crate::apply::commit::OpError,
    >(c1));
    let np = normalized(p);
    let k = line_count(np);
    lemma_lines_resolve(c1, a, a);
    assert(closed(np)) by {
        if p.last() != nl() {
            assert(np.last() == nl());
        }
    }
    lemma_closed_all_nl(np);
    lemma_full_lines_ok(np);
    lemma_nl_count_lines(full_lines(np));
    assert(nl_before(np, np.len() as int) == k);
    let i = insert_index(a as int, pos);
    let span = inserted_span(a as int, k as int, pos);
    assert(span == (i + 1, i + k));
    crate::text::lines::lemma_line_count_le_len(c);
    assert(np.len() <= p.len() + 1);
    crate::text::lines::lemma_line_count_le_len(np);
}

/// Ending a text that lacks a final `\n` with one keeps its line count.
proof fn lemma_push_nl_line_count(t: Seq<u8>)
    requires
        t.len() > 0,
        t.last() != nl(),
    ensures
        line_count(t.push(nl())) == line_count(t),
{
    let ls = full_lines(t);
    lemma_full_lines_ok(t);
    assert(ls.len() > 0) by {
        if ls.len() == 0 {
            assert(ls.flatten() =~= Seq::<u8>::empty());
        }
    }
    let last = ls.last();
    assert(line_ok(ls[ls.len() - 1]));
    lemma_flatten_last(ls);
    let l2 = last.push(nl());
    let ls2 = ls.update(ls.len() - 1, l2);
    assert(line_ok(l2)) by {
        assert forall|j: int| 0 <= j < l2.len() - 1 implies l2[j] != nl() by {
            if j == last.len() - 1 {
                assert(last[j] == last.last());
            }
        }
    }
    assert(lines_ok(ls2)) by {
        assert forall|k: int| 0 <= k < ls2.len() implies line_ok(#[trigger] ls2[k]) by {
            if k < ls.len() - 1 {
                assert(ls2[k] == ls[k]);
            }
        }
        assert forall|k: int| 0 <= k < ls2.len() - 1 implies ends_nl(#[trigger] ls2[k]) by {
            assert(ls2[k] == ls[k]);
        }
    }
    let init = ls.drop_last();
    init.lemma_flatten_push(last);
    init.lemma_flatten_push(l2);
    assert(init.push(last) =~= ls);
    assert(init.push(l2) =~= ls2);
    assert(ls2.flatten() =~= t.push(nl()));
    lemma_full_lines_of_flatten(ls2);
}

/// Writing a text of `e - s + 1` lines over lines `s ..= e` keeps the
/// other lines, and lines `s ..= e` of the result are the text as written.
proof fn lemma_replaced_lines(c: Seq<u8>, s: usize, e: usize, t: Seq<u8>)
    requires
        1 <= s <= e <= line_count(c),
        line_count(t) == e - s + 1,
    ensures
        ({
            let fl = full_lines(c);
            let q = range_payload(t, ends_nl(fl[e - 1]));
            let c1 = replaced_range(c, s as int, e as int, t);
            &&& t.len() > 0
            &&& full_lines(c1) == fl.subrange(0, s - 1) + full_lines(q) + fl.subrange(
                e as int,
                fl.len() as int,
            )
            &&& line_count(c1) == line_count(c)
            &&& range_bytes(c1, s as int, e as int) == q
            &&& ends_nl(full_lines(c1)[e - 1]) == (q.last() == nl())
        }),
{
    let fl = full_lines(c);
    let n = fl.len() as int;
    lemma_full_lines_ok(c);
    assert(t.len() > 0) by {
        if t.len() == 0 {
            assert(full_lines(t) =~= Seq::<Seq<u8>>::empty());
        }
    }
    let tail = ends_nl(fl[e - 1]);
    let q = range_payload(t, tail);
    if q != t {
        lemma_push_nl_line_count(t);
    }
    let ql = full_lines(q);
    lemma_full_lines_ok(q);
    assert(ql.len() == e - s + 1);
    let left = fl.subrange(0, s - 1);
    let right = fl.subrange(e as int, n);
    lemma_lines_ok_subrange(fl, 0, s - 1);
    lemma_lines_ok_subrange(fl, e as int, n);
    if left.len() > 0 {
        assert(left.last() == fl[s - 2]);
    }
    lemma_lines_ok_concat(left, ql);
    lemma_flatten_last(ql);
    assert(ql.last() == ql[ql.len() - 1]);
    assert(line_ok(ql[ql.len() - 1]));
    if right.len() > 0 {
        assert(ends_nl(fl[e - 1]));
        assert(q.last() == nl());
        assert(ends_nl(ql.last()));
        assert((left + ql).last() == ql.last());
    }
    if right.len() > 0 {
        lemma_lines_ok_concat(left + ql, right);
    } else {
        assert(left + ql + right =~= left + ql);
    }
    let ls = left + ql + right;
    vstd::seq_lib::lemma_flatten_concat(left, ql);
    vstd::seq_lib::lemma_flatten_concat(left + ql, right);
    let c1 = replaced_range(c, s as int, e as int, t);
    assert(c1 == ls.flatten());
    lemma_full_lines_of_flatten(ls);
    assert(ls.subrange(s - 1, e as int) =~= ql);
    assert(ls[e - 1] == ql.last());
}

/// Writing the former bytes of lines `s ..= e` back over a text that took
/// their place gives the file back (unless the last line lacked `\n` and
/// the text ends with one).
proof fn lemma_write_back(c: Seq<u8>, s: usize, e: usize, t: Seq<u8>)
    requires
        1 <= s <= e <= line_count(c),
        line_count(t) == e - s + 1,
        closed(c) || e < line_count(c) || t.last() != nl(),
    ensures
        replace_range_result(replaced_range(c, s as int, e as int, t), s, e, range_bytes(c, s as int, e as int))
            == Ok::<Seq<u8>, crate::text::ops::replace::ReplaceError>(c),
{
    let fl = full_lines(c);
    let n = fl.len() as int;
    lemma_full_lines_ok(c);
    lemma_replaced_lines(c, s, e, t);
    let q = range_payload(t, ends_nl(fl[e - 1]));
    let c1 = replaced_range(c, s as int, e as int, t);
    let ls = full_lines(c1);
    let left = fl.subrange(0, s - 1);
    let right = fl.subrange(e as int, n);
    let mid = fl.subrange(s - 1, e as int);
    assert(mid.last() == fl[e - 1]);
    assert(line_ok(fl[e - 1]));
    lemma_flatten_last(mid);
    let w = mid.flatten();
    assert(range_bytes(c, s as int, e as int) == w);
    assert(range_payload(w, ends_nl(ls[e - 1])) == w) by {
        if !ends_nl(fl[e - 1]) {
            assert(e == n);
            assert(!closed(c)) by {
                if closed(c) {
                    crate::text::lines::lemma_closed_lines(c);
                }
            }
            assert(q == t);
        }
    }
    assert(ls.subrange(0, s - 1) =~= left);
    assert(ls.subrange(e as int, n) =~= right);
    vstd::seq_lib::lemma_flatten_concat(left, mid);
    vstd::seq_lib::lemma_flatten_concat(left + mid, right);
    assert(left + mid + right =~= fl);
}

/// Replacing lines `s ..= e` by a text after checking they hold `was`, and
/// then running the same replacement with `revert` (which checks the range
/// holds the text and writes `was` back), gives the file back: for every
/// range in bounds whose bytes are `was` and every text of exactly
/// `e - s + 1` lines, except when the range ends with a last line that lacks
/// `\n` and the text ends with `\n` (the write keeps that `\n`).
pub proof fn lemma_replace_revert_restores(
    target: Target,
    c: Seq<u8>,
    s: usize,
    e: usize,
    text: Vec<u8>,
    was: Vec<u8>,
    file: Result<Vec<u8>, String>,
)
    requires
        1 <= s <= e <= line_count(c),
        was@ == range_bytes(c, s as int, e as int),
        line_count(text@) == e - s + 1,
        closed(c) || e < line_count(c) || text@.last() != nl(),
    ensures
        ({
            let locator = Locator::Lines { start: s, end: e };
            let content = OpContent::Text(text);
            let w = Some(Was::Bytes(was));
            let fwd = Op::Replace { target, locator, content, was: w, revert: false };
            let back = Op::Replace { target, locator, content, was: w, revert: true };
            &&& op_result(fwd, c, file) is Ok
            &&& op_result(back, op_result(fwd, c, file)->Ok_0, file) == Ok::<
                Seq<u8>,
                crate::apply::commit::OpError,
            >(c)
        }),
{
    reveal(op_result);
    let t = text@;
    lemma_replaced_lines(c, s, e, t);
    lemma_write_back(c, s, e, t);
    let c1 = replaced_range(c, s as int, e as int, t);
    lemma_lines_resolve(c, s, e);
    lemma_lines_resolve(c1, s, e);
    let q = range_payload(t, ends_nl(full_lines(c)[e - 1]));
    assert(holds_forward_text(q, t));
}

/// Where an index goes into an order: past every key at least `v`, onto
/// the first key below it.
proof fn lemma_first_below(o: Seq<usize>, keys: Seq<usize>, v: usize, from: int)
    requires
        0 <= from <= o.len(),
        forall|a: int| 0 <= a < o.len() ==> o[a] < keys.len(),
    ensures
        from <= first_below(o, keys, v, from) <= o.len(),
        forall|a: int| from <= a < first_below(o, keys, v, from) ==> keys[o[a] as int] >= v,
        first_below(o, keys, v, from) < o.len() ==> keys[o[first_below(o, keys, v, from)] as int] < v,
    decreases o.len() - from,
{
    if from < o.len() && keys[o[from] as int] >= v {
        lemma_first_below(o, keys, v, from + 1);
    }
}

/// The order [`descending_order`] builds lists each of the first `n`
/// indices once, higher keys first and equal keys in their given order.
proof fn lemma_descending_order(keys: Seq<usize>, n: nat)
    requires
        n <= keys.len(),
        keys.len() <= usize::MAX,
    ensures
        descending_order(keys, n).len() == n,
        forall|a: int| 0 <= a < n ==> descending_order(keys, n)[a] < n,
        forall|a: int, b: int|
            0 <= a < b < n ==> descending_order(keys, n)[a] != descending_order(keys, n)[b],
        forall|a: int, b: int|
            0 <= a < b < n ==> goes_before(
                keys,
                descending_order(keys, n)[a] as int,
                descending_order(keys, n)[b] as int,
            ),
    decreases n,
{
    if n > 0 {
        let m = (n - 1) as nat;
        lemma_descending_order(keys, m);
        let o = descending_order(keys, m);
        let v = keys[m as int];
        lemma_first_below(o, keys, v, 0);
        let j = first_below(o, keys, v, 0);
        let r = o.insert(j, m as usize);
        assert(r == descending_order(keys, n));
        assert forall|a: int| 0 <= a < n implies r[a] < n by {
            if a < j {
                assert(r[a] == o[a]);
            } else if a > j {
                assert(r[a] == o[a - 1]);
            }
        }
        assert forall|a: int, b: int| 0 <= a < b < n implies r[a] != r[b] by {
            if a < j && b < j {
                assert(r[a] == o[a] && r[b] == o[b]);
            } else if a < j && b == j {
                assert(r[a] == o[a]);
            } else if a < j && b > j {
                assert(r[a] == o[a] && r[b] == o[b - 1]);
            } else if a == j {
                assert(r[b] == o[b - 1]);
            } else {
                assert(r[a] == o[a - 1] && r[b] == o[b - 1]);
            }
        }
        assert forall|a: int, b: int| 0 <= a < b < n implies goes_before(
            keys,
            r[a] as int,
            r[b] as int,
        ) by {
            if a < j && b < j {
                assert(r[a] == o[a] && r[b] == o[b]);
            } else if a < j && b == j {
                assert(r[a] == o[a]);
            } else if a < j && b > j {
                assert(r[a] == o[a] && r[b] == o[b - 1]);
            } else if a == j {
                assert(r[b] == o[b - 1]);
                assert(keys[o[j] as int] < v);
                if b - 1 > j {
                    assert(goes_before(keys, o[j] as int, o[b - 1] as int));
                }
            } else {
                assert(r[a] == o[a - 1] && r[b] == o[b - 1]);
            }
        }
    }
}

/// A sequence of `n` distinct indices below `n` lists every index below `n`.
proof fn lemma_lists_every_index(o: Seq<usize>, i: int)
    requires
        forall|a: int| 0 <= a < o.len() ==> o[a] < o.len(),
        forall|a: int, b: int| 0 <= a < b < o.len() ==> o[a] != o[b],
        0 <= i < o.len(),
    ensures
        exists|a: int| 0 <= a < o.len() && o[a] == i,
{
    let oi = o.map_values(|x: usize| x as int);
    assert(oi.no_duplicates()) by {
        assert forall|a: int, b: int| 0 <= a < oi.len() && 0 <= b < oi.len() && a != b implies oi[a]
            != oi[b] by {
            if a < b {
                assert(o[a] != o[b]);
            } else {
                assert(o[b] != o[a]);
            }
        }
    }
    oi.unique_seq_to_set();
    let full = vstd::set_lib::set_int_range(0, o.len() as int);
    vstd::set_lib::lemma_int_range(0, o.len() as int);
    assert(oi.to_set().subset_of(full)) by {
        assert forall|x: int| oi.to_set().contains(x) implies full.contains(x) by {
            let a = choose|a: int| 0 <= a < oi.len() && oi[a] == x;
            assert(o[a] < o.len());
        }
    }
    vstd::set_lib::lemma_subset_equality(oi.to_set(), full);
    assert(full.contains(i));
    assert(oi.to_set().contains(i));
    let a = choose|a: int| 0 <= a < oi.len() && oi[a] == i;
    assert(o[a] == i);
}

/// Two orders that list every index once, higher (distinct) keys first,
/// agree on their first `k` places.
proof fn lemma_orders_agree(o1: Seq<usize>, o2: Seq<usize>, keys: Seq<usize>, k: int)
    requires
        o1.len() == keys.len(),
        o2.len() == keys.len(),
        0 <= k <= o1.len(),
        forall|a: int| 0 <= a < o1.len() ==> o1[a] < keys.len(),
        forall|a: int| 0 <= a < o2.len() ==> o2[a] < keys.len(),
        forall|a: int, b: int| 0 <= a < b < o1.len() ==> o1[a] != o1[b],
        forall|a: int, b: int| 0 <= a < b < o2.len() ==> o2[a] != o2[b],
        forall|a: int, b: int| 0 <= a < b < o1.len() ==> keys[o1[a] as int] > keys[o1[b] as int],
        forall|a: int, b: int| 0 <= a < b < o2.len() ==> keys[o2[a] as int] > keys[o2[b] as int],
    ensures
        forall|a: int| 0 <= a < k ==> o1[a] == o2[a],
    decreases k,
{
    if k > 0 {
        let j = k - 1;
        lemma_orders_agree(o1, o2, keys, j);
        lemma_lists_every_index(o1, o2[j] as int);
        lemma_lists_every_index(o2, o1[j] as int);
        let q = choose|a: int| 0 <= a < o1.len() && o1[a] == o2[j];
        let p = choose|a: int| 0 <= a < o2.len() && o2[a] == o1[j];
        if p < j {
            assert(o1[p] == o2[p]);
        }
        if q < j {
            assert(o1[q] == o2[q]);
        }
        if p > j && q > j {
            assert(keys[o2[j] as int] > keys[o2[p] as int]);
            assert(keys[o1[j] as int] > keys[o1[q] as int]);
        }
    }
}

/// With distinct keys there is one order that lists every index once,
/// higher keys first.
proof fn lemma_one_descending_order(o1: Seq<usize>, o2: Seq<usize>, keys: Seq<usize>)
    requires
        o1.len() == keys.len(),
        o2.len() == keys.len(),
        forall|a: int| 0 <= a < o1.len() ==> o1[a] < keys.len(),
        forall|a: int| 0 <= a < o2.len() ==> o2[a] < keys.len(),
        forall|a: int, b: int| 0 <= a < b < o1.len() ==> o1[a] != o1[b],
        forall|a: int, b: int| 0 <= a < b < o2.len() ==> o2[a] != o2[b],
        forall|a: int, b: int| 0 <= a < b < o1.len() ==> keys[o1[a] as int] > keys[o1[b] as int],
        forall|a: int, b: int| 0 <= a < b < o2.len() ==> keys[o2[a] as int] > keys[o2[b] as int],
    ensures
        o1 == o2,
{
    lemma_orders_agree(o1, o2, keys, o1.len() as int);
    assert(o1 =~= o2);
}

/// Runs over orders that name the same operations in the same places give
/// the same result.
proof fn lemma_fold_same(
    ops1: Seq<Op>,
    files1: Seq<Result<Vec<u8>, String>>,
    o1: Seq<usize>,
    ops2: Seq<Op>,
    files2: Seq<Result<Vec<u8>, String>>,
    o2: Seq<usize>,
    bytes: Seq<u8>,
)
    requires
        o1.len() == o2.len(),
        forall|k: int|
            0 <= k < o1.len() ==> ops1[o1[k] as int] == ops2[o2[k] as int] && files1[o1[k] as int]
                == files2[o2[k] as int],
    ensures
        fold_ops(ops1, files1, o1, bytes) == fold_ops(ops2, files2, o2, bytes),
    decreases o1.len(),
{
    if o1.len() > 0 {
        lemma_fold_same(ops1, files1, o1.drop_last(), ops2, files2, o2.drop_last(), bytes);
        assert(o1.last() == o1[o1.len() - 1] && o2.last() == o2[o2.len() - 1]);
    }
}

/// A file's operations give the same result whatever order they are listed
/// in, when no two of them start at the same line (operations are run from
/// the bottom of the file up; byte patterns and locators that do not
/// resolve count as starting past every line).
pub proof fn lemma_file_result_any_order(
    ops: Seq<Op>,
    files: Seq<Result<Vec<u8>, String>>,
    perm: Seq<usize>,
    bytes: Seq<u8>,
)
    requires
        ops.len() <= usize::MAX,
        files.len() == ops.len(),
        perm.len() == ops.len(),
        forall|a: int| 0 <= a < perm.len() ==> perm[a] < ops.len(),
        forall|a: int, b: int| 0 <= a < b < perm.len() ==> perm[a] != perm[b],
        forall|i: int, j: int|
            0 <= i < j < ops.len() ==> sort_key(ops[i], bytes) != sort_key(ops[j], bytes),
    ensures
        file_result(ops, files, bytes) == file_result(
            Seq::new(ops.len(), |k: int| ops[perm[k] as int]),
            Seq::new(ops.len(), |k: int| files[perm[k] as int]),
            bytes,
        ),
{
    let n = ops.len();
    let ops2 = Seq::new(n, |k: int| ops[perm[k] as int]);
    let files2 = Seq::new(n, |k: int| files[perm[k] as int]);
    let keys = sort_keys(ops, bytes);
    let keys2 = sort_keys(ops2, bytes);
    assert forall|k: int| 0 <= k < n implies keys2[k] == keys[perm[k] as int] by {}
    let o = descending_order(keys, n);
    let o2 = descending_order(keys2, n);
    lemma_descending_order(keys, n);
    lemma_descending_order(keys2, n);
    assert forall|a: int, b: int| 0 <= a < b < n implies keys[o[a] as int] > keys[o[b] as int] by {
        assert(goes_before(keys, o[a] as int, o[b] as int));
        if keys[o[a] as int] == keys[o[b] as int] {
            if o[a] < o[b] {
                assert(sort_key(ops[o[a] as int], bytes) != sort_key(ops[o[b] as int], bytes));
            } else {
                assert(sort_key(ops[o[b] as int], bytes) != sort_key(ops[o[a] as int], bytes));
            }
        }
    }
    let m = Seq::new(n, |k: int| perm[o2[k] as int]);
    assert forall|a: int| 0 <= a < n implies m[a] < keys.len() by {
        assert(o2[a] < n);
    }
    assert forall|a: int, b: int| 0 <= a < b < n implies m[a] != m[b] by {
        assert(o2[a] != o2[b]);
        if o2[a] < o2[b] {
            assert(perm[o2[a] as int] != perm[o2[b] as int]);
        } else {
            assert(perm[o2[b] as int] != perm[o2[a] as int]);
        }
    }
    assert forall|a: int, b: int| 0 <= a < b < n implies keys[m[a] as int] > keys[m[b] as int] by {
        assert(goes_before(keys2, o2[a] as int, o2[b] as int));
        assert(keys2[o2[a] as int] == keys[m[a] as int]);
        assert(keys2[o2[b] as int] == keys[m[b] as int]);
        if keys[m[a] as int] == keys[m[b] as int] {
            if m[a] < m[b] {
                assert(sort_key(ops[m[a] as int], bytes) != sort_key(ops[m[b] as int], bytes));
            } else {
                assert(sort_key(ops[m[b] as int], bytes) != sort_key(ops[m[a] as int], bytes));
            }
        }
    }
    lemma_one_descending_order(o, m, keys);
    lemma_fold_same(ops, files, o, ops2, files2, o2, bytes);
}

} // verus!
