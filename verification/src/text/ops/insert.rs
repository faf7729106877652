//! `insert`: insert a payload before or after one line.
//!
//! A payload that does not end with `\n` gets one, so that what is inserted
//! is whole lines.

use vstd::prelude::*;

use crate::text::lines::{
    all_nl, bytes_result, closed, full_lines, line_count, line_spans, lines_between, nl,
    push_all, push_lines, lemma_all_nl_concat, lemma_all_nl_subrange, lemma_closed_all_nl,
    lemma_flatten_all_nl, lemma_full_lines_ok,
};
use crate::text::ops::replace::{replace_range_result, replaced_range, ReplaceError};
use crate::text::location::range_bytes;

verus! {

/// Where to insert relative to the anchor line.
#[derive(Debug, Clone, Copy, PartialEq, Eq)]
pub enum Position {
    Before,
    After,
}

/// Why an insertion was refused.
#[derive(Debug, Clone, Copy, PartialEq, Eq)]
pub enum InsertError {
    OutOfBounds { line: usize, total: usize },
    ZeroLine,
}

/// The payload as inserted: a `\n` is added when a non-empty payload lacks one.
pub open spec fn normalized(p: Seq<u8>) -> Seq<u8> {
    if p.len() > 0 && p.last() != nl() {
        p.push(nl())
    } else {
        p
    }
}

/// Index (0-based, among the full lines) at which an insertion lands.
pub open spec fn insert_index(a: int, pos: Position) -> int {
    match pos {
        Position::Before => a - 1,
        Position::After => a,
    }
}

/// `c` with `p` inserted at anchor line `a` (1-based, in bounds).
pub open spec fn inserted(c: Seq<u8>, a: int, pos: Position, p: Seq<u8>) -> Seq<u8> {
    if line_count(c) == 0 {
        normalized(p)
    } else {
        let idx = insert_index(a, pos);
        lines_between(c, 0, idx) + normalized(p) + lines_between(c, idx, line_count(c) as int)
    }
}

/// What `insert_at` gives.
pub open spec fn insert_at_result(c: Seq<u8>, a: usize, pos: Position, p: Seq<u8>) -> Result<
    Seq<u8>,
    InsertError,
> {
    if a == 0 {
        Err(InsertError::ZeroLine)
    } else if line_count(c) == 0 && a != 1 {
        Err(InsertError::OutOfBounds { line: a, total: 0 })
    } else if a > line_count(c) && line_count(c) > 0 {
        Err(InsertError::OutOfBounds { line: a, total: line_count(c) as usize })
    } else {
        Ok(inserted(c, a as int, pos, p))
    }
}

/// The payload with a `\n` added when it is non-empty and lacks one.
pub fn normalize(payload: &[u8]) -> (r: Vec<u8>)
    ensures
        r@ == normalized(payload@),
{
    let mut v: Vec<u8> = Vec::new();
    push_all(&mut v, payload);
    if payload.len() > 0 && payload[payload.len() - 1] != 10u8 {
        v.push(10u8);
    }
    proof {
        if payload@.len() > 0 {
            assert(payload@.last() == payload@[payload@.len() - 1]);
        }
        assert(v@ =~= normalized(payload@));
    }
    v
}

/// Inserts `payload` before or after line `anchor_line` (1-based) of
/// `content`. In an empty buffer, line 1 (either side) is the start.
pub fn insert_at(content: &[u8], anchor_line: usize, position: Position, payload: &[u8]) -> (r:
    Result<Vec<u8>, InsertError>)
    ensures
        bytes_result(r) == insert_at_result(content@, anchor_line, position, payload@),
{
    if anchor_line == 0 {
        return Err(InsertError::ZeroLine);
    }
    let spans = line_spans(content);
    let total = spans.len();
    if total == 0 {
        if anchor_line != 1 {
            return Err(InsertError::OutOfBounds { line: anchor_line, total });
        }
        return Ok(normalize(payload));
    }
    if anchor_line > total {
        return Err(InsertError::OutOfBounds { line: anchor_line, total });
    }
    let idx = match position {
        Position::Before => anchor_line - 1,
        Position::After => anchor_line,
    };
    let mut out: Vec<u8> = Vec::new();
    push_lines(&mut out, content, &spans, 0, idx);
    let norm = normalize(payload);
    push_all(&mut out, &norm);
    push_lines(&mut out, content, &spans, idx, total);
    Ok(out)
}


/// Inserting a non-empty payload into a buffer whose lines all end with `\n`
/// and then deleting the lines it became gives the buffer back (the buffer
/// with the payload in it has a length, so it fits in a `usize`).
pub proof fn lemma_insert_then_delete(c: Seq<u8>, a: usize, pos: Position, p: Seq<u8>)
    requires
        closed(c),
        1 <= a <= line_count(c),
        p.len() > 0,
        c.len() + normalized(p).len() <= usize::MAX,
    ensures
        ({
            let k = line_count(normalized(p));
            let i = insert_index(a as int, pos);
            &&& insert_at_result(c, a, pos, p) == Ok::<Seq<u8>, InsertError>(inserted(c, a as int, pos, p))
            &&& k >= 1
            &&& line_count(inserted(c, a as int, pos, p)) == line_count(c) + k
            &&& range_bytes(inserted(c, a as int, pos, p), i + 1, i + k) == normalized(p)
            &&& replace_range_result(inserted(c, a as int, pos, p), (i + 1) as usize, (i + k) as usize, Seq::<u8>::empty())
                == Ok::<Seq<u8>, ReplaceError>(c)
        }),
{
    let fl = full_lines(c);
    let n = fl.len() as int;
    let np = normalized(p);
    assert(np.last() == nl()) by {
        if p.last() != nl() {
            assert(np.last() == nl());
        }
    }
    assert(closed(np));
    lemma_closed_all_nl(c);
    lemma_closed_all_nl(np);
    let pl = full_lines(np);
    lemma_full_lines_ok(np);
    assert(pl.len() >= 1) by {
        if pl.len() == 0 {
            assert(pl.flatten() =~= Seq::<u8>::empty());
        }
    }
    let k = pl.len() as int;
    let i = insert_index(a as int, pos);
    let left = fl.subrange(0, i);
    let right = fl.subrange(i, n);
    lemma_all_nl_subrange(fl, 0, i);
    lemma_all_nl_subrange(fl, i, n);
    lemma_all_nl_concat(left, pl);
    lemma_all_nl_concat(left + pl, right);
    let q = left + pl + right;
    vstd::seq_lib::lemma_flatten_concat(left, pl);
    vstd::seq_lib::lemma_flatten_concat(left + pl, right);
    let ins = inserted(c, a as int, pos, p);
    assert(ins == q.flatten());
    lemma_flatten_all_nl(q);
    assert(full_lines(ins) == q);
    vstd::seq_lib::lemma_flatten_concat(left, right);
    assert(left + right =~= fl);
    lemma_full_lines_ok(c);
    assert(ins == left.flatten() + np + right.flatten());
    assert(ins.len() == c.len() + np.len());
    crate::text::lines::lemma_line_count_le_len(ins);
    assert(q.subrange(i, i + k) =~= pl);
    assert(range_bytes(ins, i + 1, i + k) == pl.flatten());
    let out = replaced_range(ins, i + 1, i + k, Seq::<u8>::empty());
    assert(q.subrange(0, i) =~= left);
    assert(q.subrange(i + k, q.len() as int) =~= right);
    vstd::seq_lib::lemma_flatten_concat(left, right);
    assert(left + right =~= fl);
    lemma_full_lines_ok(c);
    assert(out =~= c);
}

} // verus!
