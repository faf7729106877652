//! `move`: move a block of lines before or after another line.
//!
//! The block `from_start ..= from_end` is cut out (with its line ends) and
//! inserted, as by `insert`, at the target line, whose number is shifted when
//! it lay after the block.

use vstd::prelude::*;

use crate::text::lines::{
    all_nl, bytes_result, closed, ends_nl, full_lines, line_count, lines_between,
    lemma_all_nl_concat, lemma_all_nl_subrange, lemma_closed_all_nl, lemma_flatten_all_nl,
    lemma_flatten_last, lemma_full_lines_of_flatten, lemma_full_lines_ok,
};
use crate::text::location::extract_line_range_with_newline;
use crate::text::ops::insert::{
    Position, insert_at, insert_at_result, insert_index, inserted, normalized,
};
use crate::text::ops::replace::{replace_range, replace_range_result, replaced_range};

verus! {

/// Why a move was refused.
#[derive(Debug, Clone, PartialEq, Eq)]
pub enum MoveError {
    InvalidSource { from_start: usize, from_end: usize, total: usize },
    TargetInsideSource { from_start: usize, from_end: usize, to: usize },
    /// The move leaves the block where it is (target just before the block
    /// with `After`, or just after it with `Before`), so it has no reverse.
    NoDisplacement { from_start: usize, from_end: usize, to: usize },
    ZeroLine,
    Internal(String),
}

/// Target line once the block `s ..= e` has been cut out.
pub open spec fn adjusted_target(s: int, e: int, t: int) -> int {
    if t < s {
        t
    } else {
        t - (e - s + 1)
    }
}

/// `c` with lines `s ..= e` moved to `pos` of line `t` (all in bounds, `t`
/// outside the block): the block is cut and inserted at the shifted target.
pub open spec fn moved(c: Seq<u8>, s: int, e: int, t: int, pos: Position) -> Seq<u8> {
    inserted(
        replaced_range(c, s, e, Seq::<u8>::empty()),
        adjusted_target(s, e, t),
        pos,
        lines_between(c, s - 1, e),
    )
}

/// What `move_lines` gives.
pub open spec fn move_lines_result(c: Seq<u8>, s: usize, e: usize, t: usize, pos: Position) -> Result<
    Seq<u8>,
    MoveError,
> {
    let n = line_count(c);
    if s == 0 || e == 0 || t == 0 {
        Err(MoveError::ZeroLine)
    } else if e < s {
        Err(MoveError::InvalidSource { from_start: s, from_end: e, total: 0 })
    } else if e > n {
        Err(MoveError::InvalidSource { from_start: s, from_end: e, total: n as usize })
    } else if t > n {
        Err(MoveError::InvalidSource { from_start: t, from_end: t, total: n as usize })
    } else if s <= t <= e {
        Err(MoveError::TargetInsideSource { from_start: s, from_end: e, to: t })
    } else {
        Ok(moved(c, s as int, e as int, t as int, pos))
    }
}

/// In a closed buffer, a move is a rearrangement of its lines: the block is
/// taken out and put back at the insertion index among the other lines.
proof fn lemma_moved_lines(c: Seq<u8>, s: int, e: int, t: int, pos: Position)
    requires
        closed(c),
        1 <= s <= e <= line_count(c),
        1 <= t <= line_count(c),
        !(s <= t <= e),
    ensures
        ({
            let fl = full_lines(c);
            let block = fl.subrange(s - 1, e);
            let rest = fl.subrange(0, s - 1) + fl.subrange(e, fl.len() as int);
            let idx = insert_index(adjusted_target(s, e, t), pos);
            &&& 0 <= idx <= rest.len()
            &&& moved(c, s, e, t, pos) == (rest.subrange(0, idx) + block + rest.subrange(
                idx,
                rest.len() as int,
            )).flatten()
        }),
{
    let fl = full_lines(c);
    let n = fl.len() as int;
    let block = fl.subrange(s - 1, e);
    let left = fl.subrange(0, s - 1);
    let right = fl.subrange(e, n);
    let rest = left + right;
    lemma_closed_all_nl(c);
    lemma_all_nl_subrange(fl, s - 1, e);
    lemma_all_nl_subrange(fl, 0, s - 1);
    lemma_all_nl_subrange(fl, e, n);
    lemma_all_nl_concat(left, right);
    let after = replaced_range(c, s, e, Seq::<u8>::empty());
    vstd::seq_lib::lemma_flatten_concat(left, right);
    assert(after =~= rest.flatten());
    lemma_flatten_all_nl(rest);
    assert(line_count(after) == n - (e - s + 1));
    let payload = lines_between(c, s - 1, e);
    assert(payload == block.flatten());
    lemma_flatten_last(block);
    assert(block.last() == block[block.len() - 1]);
    assert(ends_nl(block.last()));
    assert(normalized(payload) == payload);
    let adj = adjusted_target(s, e, t);
    let idx = insert_index(adj, pos);
    assert(0 <= idx <= rest.len());
    let a = rest.subrange(0, idx);
    let b = rest.subrange(idx, rest.len() as int);
    assert(rest.subrange(0, idx) =~= full_lines(after).subrange(0, idx));
    assert(moved(c, s, e, t, pos) == a.flatten() + payload + b.flatten());
    vstd::seq_lib::lemma_flatten_concat(a, block);
    vstd::seq_lib::lemma_flatten_concat(a + block, b);
}

/// Parameters of the move that undoes `move from_start..=from_end to_line
/// position`: the block's lines after the move, and the target that puts it
/// back where it was. A move that displaces nothing has none.
pub open spec fn reverse_params_result(s: usize, e: usize, t: usize, pos: Position) -> Result<
    (usize, usize, usize, Position),
    MoveError,
> {
    if s == 0 || e == 0 || t == 0 {
        Err(MoveError::ZeroLine)
    } else if e < s {
        Err(MoveError::InvalidSource { from_start: s, from_end: e, total: 0 })
    } else if s <= t <= e {
        Err(MoveError::TargetInsideSource { from_start: s, from_end: e, to: t })
    } else if (pos == Position::After && t + 1 == s) || (pos == Position::Before && t == e + 1) {
        Err(MoveError::NoDisplacement { from_start: s, from_end: e, to: t })
    } else {
        let len = e - s + 1;
        if t < s {
            let lo: int = if pos == Position::Before {
                t as int
            } else {
                t + 1
            };
            Ok((lo as usize, (lo + len - 1) as usize, (s - 1 + len) as usize, Position::After))
        } else {
            let lo: int = if pos == Position::Before {
                t - len
            } else {
                t - len + 1
            };
            Ok((lo as usize, (lo + len - 1) as usize, s, Position::Before))
        }
    }
}

/// Moves lines `from_start ..= from_end` (1-based) of `content` to
/// `position` of line `to_line`.
pub fn move_lines(
    content: &[u8],
    from_start: usize,
    from_end: usize,
    to_line: usize,
    position: Position,
) -> (r: Result<Vec<u8>, MoveError>)
    ensures
        bytes_result(r) == move_lines_result(content@, from_start, from_end, to_line, position),
{
    if from_start == 0 || from_end == 0 || to_line == 0 {
        return Err(MoveError::ZeroLine);
    }
    if from_end < from_start {
        return Err(MoveError::InvalidSource { from_start, from_end, total: 0 });
    }
    let total = crate::text::lines::line_spans(content).len();
    if from_end > total {
        return Err(MoveError::InvalidSource { from_start, from_end, total });
    }
    if to_line > total {
        return Err(MoveError::InvalidSource { from_start: to_line, from_end: to_line, total });
    }
    if to_line >= from_start && to_line <= from_end {
        return Err(MoveError::TargetInsideSource { from_start, from_end, to: to_line });
    }
    let payload = extract_line_range_with_newline(content, from_start, from_end);
    let after_remove = match replace_range(content, from_start, from_end, &[]) {
        Ok(v) => v,
        Err(_) => {
            return Err(MoveError::Internal(String::new()));
        },
    };
    let span = from_end - from_start + 1;
    let adjusted_to = if to_line < from_start {
        to_line
    } else {
        to_line - span
    };
    proof {
        lemma_removed_line_count(content@, from_start as int, from_end as int);
    }
    match insert_at(&after_remove, adjusted_to, position, &payload) {
        Ok(v) => Ok(v),
        Err(_) => Err(MoveError::Internal(String::new())),
    }
}

/// Cutting lines `s ..= e` leaves the other lines.
proof fn lemma_removed_line_count(c: Seq<u8>, s: int, e: int)
    requires
        1 <= s <= e <= line_count(c),
    ensures
        line_count(replaced_range(c, s, e, Seq::<u8>::empty())) == line_count(c) - (e - s + 1),
{
    let fl = full_lines(c);
    let n = fl.len() as int;
    let left = fl.subrange(0, s - 1);
    let right = fl.subrange(e, n);
    lemma_full_lines_ok(c);
    crate::text::lines::lemma_lines_ok_subrange(fl, 0, s - 1);
    crate::text::lines::lemma_lines_ok_subrange(fl, e, n);
    if left.len() > 0 {
        assert(left.last() == fl[s - 2]);
    }
    crate::text::lines::lemma_lines_ok_concat(left, right);
    vstd::seq_lib::lemma_flatten_concat(left, right);
    let after = replaced_range(c, s, e, Seq::<u8>::empty());
    assert(after =~= (left + right).flatten());
    lemma_full_lines_of_flatten(left + right);
}

/// The parameters of the move that undoes a move (see
/// [`reverse_params_result`]).
pub fn reverse_params(from_start: usize, from_end: usize, to_line: usize, pos: Position) -> (r:
    Result<(usize, usize, usize, Position), MoveError>)
    ensures
        r == reverse_params_result(from_start, from_end, to_line, pos),
{
    if from_start == 0 || from_end == 0 || to_line == 0 {
        return Err(MoveError::ZeroLine);
    }
    if from_end < from_start {
        return Err(MoveError::InvalidSource { from_start, from_end, total: 0 });
    }
    if to_line >= from_start && to_line <= from_end {
        return Err(MoveError::TargetInsideSource { from_start, from_end, to: to_line });
    }
    let no_displacement = match pos {
        Position::After => to_line < from_start && to_line + 1 == from_start,
        Position::Before => to_line > from_end && to_line - 1 == from_end,
    };
    if no_displacement {
        return Err(MoveError::NoDisplacement { from_start, from_end, to: to_line });
    }
    let len = from_end - from_start + 1;
    if to_line < from_start {
        let block_lo = match pos {
            Position::Before => to_line,
            Position::After => to_line + 1,
        };
        let block_hi = block_lo - 1 + len;
        Ok((block_lo, block_hi, from_start - 1 + len, Position::After))
    } else {
        let block_lo = match pos {
            Position::Before => to_line - len,
            Position::After => to_line - len + 1,
        };
        let block_hi = block_lo - 1 + len;
        Ok((block_lo, block_hi, from_end - len + 1, Position::Before))
    }
}


/// The lines of a buffer after the block `s ..= e` (1-based) has been put at
/// index `idx` among the other lines.
pub open spec fn arranged(fl: Seq<Seq<u8>>, s: int, e: int, idx: int) -> Seq<Seq<u8>> {
    let rest = fl.subrange(0, s - 1) + fl.subrange(e, fl.len() as int);
    rest.subrange(0, idx) + fl.subrange(s - 1, e) + rest.subrange(idx, rest.len() as int)
}

/// A move in a closed buffer gives a closed buffer whose lines are the
/// rearranged lines.
proof fn lemma_moved_closed(c: Seq<u8>, s: int, e: int, t: int, pos: Position)
    requires
        closed(c),
        1 <= s <= e <= line_count(c),
        1 <= t <= line_count(c),
        !(s <= t <= e),
    ensures
        ({
            let r = arranged(full_lines(c), s, e, insert_index(adjusted_target(s, e, t), pos));
            &&& moved(c, s, e, t, pos) == r.flatten()
            &&& closed(moved(c, s, e, t, pos))
            &&& full_lines(moved(c, s, e, t, pos)) == r
        }),
{
    let fl = full_lines(c);
    let n = fl.len() as int;
    let block = fl.subrange(s - 1, e);
    let rest = fl.subrange(0, s - 1) + fl.subrange(e, n);
    let idx = insert_index(adjusted_target(s, e, t), pos);
    lemma_moved_lines(c, s, e, t, pos);
    let r = rest.subrange(0, idx) + block + rest.subrange(idx, rest.len() as int);
    assert(r == arranged(fl, s, e, idx));
    lemma_closed_all_nl(c);
    lemma_all_nl_subrange(fl, s - 1, e);
    lemma_all_nl_subrange(fl, 0, s - 1);
    lemma_all_nl_subrange(fl, e, n);
    lemma_all_nl_concat(fl.subrange(0, s - 1), fl.subrange(e, n));
    lemma_all_nl_subrange(rest, 0, idx);
    lemma_all_nl_subrange(rest, idx, rest.len() as int);
    lemma_all_nl_concat(rest.subrange(0, idx), block);
    lemma_all_nl_concat(rest.subrange(0, idx) + block, rest.subrange(idx, rest.len() as int));
    lemma_flatten_all_nl(r);
}

/// Putting the block back from where it was put restores the lines.
proof fn lemma_arranged_back(fl: Seq<Seq<u8>>, s: int, e: int, idx: int)
    requires
        1 <= s <= e <= fl.len(),
        0 <= idx <= fl.len() - (e - s + 1),
    ensures
        arranged(arranged(fl, s, e, idx), idx + 1, idx + (e - s + 1), s - 1) == fl,
{
    let len = e - s + 1;
    let r = arranged(fl, s, e, idx);
    let rest = fl.subrange(0, s - 1) + fl.subrange(e, fl.len() as int);
    let rest2 = r.subrange(0, idx) + r.subrange(idx + len, r.len() as int);
    assert(rest2 =~= rest);
    assert(r.subrange(idx, idx + len) =~= fl.subrange(s - 1, e));
    assert(arranged(r, idx + 1, idx + len, s - 1) =~= fl);
}

/// Moving a block and then making the move that [`reverse_params`] gives
/// restores the buffer. This holds for every buffer whose lines all end with
/// `\n` and every valid move, except a move that leaves the block where it is
/// (`before` the line right after it, or `after` the line right before it),
/// whose reverse is refused as [`MoveError::NoDisplacement`].
pub proof fn lemma_move_round_trip(c: Seq<u8>, s: usize, e: usize, t: usize, pos: Position)
    requires
        closed(c),
        1 <= s <= e <= line_count(c),
        1 <= t <= line_count(c),
        !(s <= t <= e),
        !(pos == Position::Before && t == e + 1),
        !(pos == Position::After && t + 1 == s),
    ensures
        move_lines_result(c, s, e, t, pos) is Ok,
        line_count(move_lines_result(c, s, e, t, pos)->Ok_0) == line_count(c),
        reverse_params_result(s, e, t, pos) is Ok,
        ({
            let (s2, e2, t2, p2) = reverse_params_result(s, e, t, pos)->Ok_0;
            move_lines_result(move_lines_result(c, s, e, t, pos)->Ok_0, s2, e2, t2, p2) == Ok::<
                Seq<u8>,
                MoveError,
            >(c)
        }),
{
    let fl = full_lines(c);
    let n = fl.len() as int;
    let len = e - s + 1;
    let idx = insert_index(adjusted_target(s as int, e as int, t as int), pos);
    lemma_moved_closed(c, s as int, e as int, t as int, pos);
    let c1 = moved(c, s as int, e as int, t as int, pos);
    assert(line_count(c1) == n);
    let (s2, e2, t2, p2) = reverse_params_result(s, e, t, pos)->Ok_0;
    assert(s2 - 1 == idx && e2 == idx + len);
    assert(insert_index(adjusted_target(s2 as int, e2 as int, t2 as int), p2) == s - 1);
    lemma_moved_closed(c1, s2 as int, e2 as int, t2 as int, p2);
    lemma_arranged_back(fl, s as int, e as int, idx);
    lemma_full_lines_ok(c);
}

} // verus!
