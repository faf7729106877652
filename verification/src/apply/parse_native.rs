//! The native manifest format: one operation per line.
//!
//! `<op> <file | --files-from list> [revert] <locator> [modifiers] [content]`;
//! `#` starts a comment line and blank lines are skipped. A line is first
//! cut into tokens:
//! - `"..."` is a quoted token with the escapes `\n` `\t` `\r` `\\` `\"`
//!   (any other `\x` stays as it is); `"A".."B"` (optionally followed by `i`)
//!   is a literal between-anchor pair;
//! - `=/RE/N`, `~/A/..~/B/i` and `s/PAT/REPL/FLAGS` are atoms that spaces
//!   inside them do not cut;
//! - anything else runs to the next space or tab, a quoted part inside it
//!   joining the token.

use vstd::prelude::*;
use vstd::string::StringSliceAdditionalSpecFns;
use vstd::utf8::{decode_utf8, valid_utf8};

use crate::apply::{ContentView, IndentKind, MovePosition, Op, OpContent, OpView, Target, TargetView, Was, WasView};
use crate::apply::commit::split_at_nl;
use crate::text::chars::{
    trim_start, char_is_ws, is_ws,
    chars_between, chars_of, find_chars, find_seq, has_prefix, has_suffix, index_of, index_of_char,
    last_index_of, last_index_of_char, parse_i64, parse_i64_spec, parse_usize, parse_usize_spec,
    starts_with, ends_with, string_from_utf8, string_of,
};
use crate::text::location::{Count, Locator, LocatorView};
use crate::text::pattern::{bytes_regex_accepts, line_regex_accepts, ByteRegex, LineRegex};

verus! {

/// A literal between-anchor pair: start bytes, end bytes, and whether the
/// anchor lines are kept (`i` suffix).
#[derive(Debug, Clone, PartialEq, Eq)]
pub struct BetweenLiteral {
    pub start: Vec<u8>,
    pub end: Vec<u8>,
    pub inclusive: bool,
}

/// A token: its bytes (escapes resolved in quoted parts), whether it was a
/// quoted string, and the anchor pair when it was `"A".."B"` (its bytes are
/// then empty).
#[derive(Debug, Clone, PartialEq, Eq)]
pub struct Token {
    pub bytes: Vec<u8>,
    pub quoted: bool,
    pub between_literal: Option<BetweenLiteral>,
}

/// A token as values: bytes, quoted, and the anchor pair.
pub type TokenView = (Seq<u8>, bool, Option<(Seq<u8>, Seq<u8>, bool)>);

impl View for Token {
    type V = TokenView;

    open spec fn view(&self) -> TokenView {
        (
            self.bytes@,
            self.quoted,
            match self.between_literal {
                Some(b) => Some((b.start@, b.end@, b.inclusive)),
                None => None,
            },
        )
    }
}

/// Space or tab.
pub open spec fn is_blank(b: u8) -> bool {
    b == 32u8 || b == 9u8
}

/// What an escape `\e` in a quoted string stands for.
pub open spec fn unescaped(e: u8) -> Seq<u8> {
    if e == 110u8 {
        seq![10u8]
    } else if e == 116u8 {
        seq![9u8]
    } else if e == 114u8 {
        seq![13u8]
    } else if e == 92u8 {
        seq![92u8]
    } else if e == 34u8 {
        seq![34u8]
    } else {
        seq![92u8, e]
    }
}

/// The rest of a quoted string that starts at `i` (just after its opening
/// quote): its bytes with escapes resolved and the position after the
/// closing quote; `None` when it is not closed.
pub open spec fn quoted_from(b: Seq<u8>, i: int) -> Option<(Seq<u8>, int)>
    decreases b.len() - i,
{
    if i < 0 || i >= b.len() {
        None
    } else if b[i] == 34u8 {
        Some((Seq::empty(), i + 1))
    } else if b[i] == 92u8 && i + 1 < b.len() {
        match quoted_from(b, i + 2) {
            Some(r) => Some((unescaped(b[i + 1]) + r.0, r.1)),
            None => None,
        }
    } else {
        match quoted_from(b, i + 1) {
            Some(r) => Some((seq![b[i]] + r.0, r.1)),
            None => None,
        }
    }
}

/// A quoted string ends after where it starts.
pub proof fn lemma_quoted_advances(b: Seq<u8>, i: int)
    requires
        quoted_from(b, i) is Some,
    ensures
        i < quoted_from(b, i)->Some_0.1 <= b.len(),
    decreases b.len() - i,
{
    if b[i] != 34u8 {
        if b[i] == 92u8 && i + 1 < b.len() {
            lemma_quoted_advances(b, i + 2);
        } else {
            lemma_quoted_advances(b, i + 1);
        }
    }
}

/// Position after a regex body that starts at `i`: just after its first
/// unescaped `/`, or the end of the line.
pub open spec fn body_end(b: Seq<u8>, i: int) -> int
    decreases b.len() - i,
{
    if i >= b.len() {
        if i > b.len() {
            i
        } else {
            b.len() as int
        }
    } else if b[i] == 92u8 && i + 1 < b.len() {
        body_end(b, i + 2)
    } else if b[i] == 47u8 {
        i + 1
    } else {
        body_end(b, i + 1)
    }
}

/// A regex body ends at or after where it starts, within the line.
pub proof fn lemma_body_end(b: Seq<u8>, i: int)
    requires
        0 <= i <= b.len(),
    ensures
        i <= body_end(b, i) <= b.len(),
    decreases b.len() - i,
{
    if i < b.len() {
        if b[i] == 92u8 && i + 1 < b.len() {
            lemma_body_end(b, i + 2);
        } else if b[i] != 47u8 {
            lemma_body_end(b, i + 1);
        }
    }
}

/// An ASCII digit byte.
pub open spec fn is_digit_byte(c: u8) -> bool {
    48u8 <= c <= 57u8
}

/// Position after the digits from `i` on.
pub open spec fn digits_end(b: Seq<u8>, i: int) -> int
    decreases b.len() - i,
{
    if i < b.len() && i >= 0 && is_digit_byte(b[i]) {
        digits_end(b, i + 1)
    } else {
        i
    }
}

/// Position after the `g` and digit flags from `i` on.
pub open spec fn flags_end(b: Seq<u8>, i: int) -> int
    decreases b.len() - i,
{
    if i < b.len() && i >= 0 && (b[i] == 103u8 || is_digit_byte(b[i])) {
        flags_end(b, i + 1)
    } else {
        i
    }
}

pub proof fn lemma_digits_end(b: Seq<u8>, i: int)
    requires
        0 <= i <= b.len(),
    ensures
        i <= digits_end(b, i) <= b.len(),
        i <= flags_end(b, i) <= b.len(),
    decreases b.len() - i,
{
    if i < b.len() {
        lemma_digits_end(b, i + 1);
    }
}

/// End of the atom `=/RE/N` that starts at `i`.
pub open spec fn match_line_atom_end(b: Seq<u8>, i: int) -> int {
    digits_end(b, body_end(b, i + 2))
}

/// End of the atom `~/A/..~/B/i` that starts at `i`; `None` when the
/// `..~/` between the two regexes is missing.
pub open spec fn between_re_atom_end(b: Seq<u8>, i: int) -> Option<int> {
    let m = body_end(b, i + 2);
    if m + 4 > b.len() || b.subrange(m, m + 4) != seq![46u8, 46u8, 126u8, 47u8] {
        None
    } else {
        let e = body_end(b, m + 4);
        if e < b.len() && b[e] == 105u8 {
            Some(e + 1)
        } else {
            Some(e)
        }
    }
}

/// End of the atom `s/PAT/REPL/FLAGS` that starts at `i`.
pub open spec fn subst_atom_end(b: Seq<u8>, i: int) -> int {
    flags_end(b, body_end(b, body_end(b, i + 2)))
}

/// The rest of an unquoted token from `i`: its bytes (quoted parts joined,
/// their escapes resolved) and where it ends; `None` for an unclosed quote.
pub open spec fn bare_from(b: Seq<u8>, i: int) -> Option<(Seq<u8>, int)>
    decreases b.len() - i,
{
    if i < 0 || i >= b.len() || is_blank(b[i]) {
        Some((Seq::empty(), i))
    } else if b[i] == 34u8 {
        match quoted_from(b, i + 1) {
            Some(q) => {
                proof {
                    lemma_quoted_advances(b, i + 1);
                }
                match bare_from(b, q.1) {
                    Some(r) => Some((q.0 + r.0, r.1)),
                    None => None,
                }
            },
            None => None,
        }
    } else {
        match bare_from(b, i + 1) {
            Some(r) => Some((seq![b[i]] + r.0, r.1)),
            None => None,
        }
    }
}

/// An unquoted token ends at or after where it starts, within the line.
pub proof fn lemma_bare_advances(b: Seq<u8>, i: int)
    requires
        0 <= i <= b.len(),
        bare_from(b, i) is Some,
    ensures
        i <= bare_from(b, i)->Some_0.1 <= b.len(),
        i < b.len() && !is_blank(b[i]) ==> i < bare_from(b, i)->Some_0.1,
    decreases b.len() - i,
{
    if i < b.len() && !is_blank(b[i]) {
        if b[i] == 34u8 {
            lemma_quoted_advances(b, i + 1);
            lemma_bare_advances(b, quoted_from(b, i + 1)->Some_0.1);
        } else {
            lemma_bare_advances(b, i + 1);
        }
    }
}

/// Position of the first non-blank byte from `i` on.
pub open spec fn skip_blanks(b: Seq<u8>, i: int) -> int
    decreases b.len() - i,
{
    if 0 <= i < b.len() && is_blank(b[i]) {
        skip_blanks(b, i + 1)
    } else {
        i
    }
}

pub proof fn lemma_skip_blanks(b: Seq<u8>, i: int)
    requires
        0 <= i <= b.len(),
    ensures
        i <= skip_blanks(b, i) <= b.len(),
        skip_blanks(b, i) < b.len() ==> !is_blank(b[skip_blanks(b, i)]),
        forall|k: int| i <= k < skip_blanks(b, i) ==> is_blank(b[k]),
    decreases b.len() - i,
{
    if i < b.len() && is_blank(b[i]) {
        lemma_skip_blanks(b, i + 1);
    }
}

/// Why a line could not be cut into tokens.
#[derive(Debug, Clone, Copy, PartialEq, Eq, Structural)]
pub enum LexError {
    /// A quoted string runs to the end of the line.
    UnclosedQuote,
    /// A between-regex atom lacks the `..~/` after its first regex.
    MissingBetweenSeparator,
}

/// `t` followed by the tokens of `rest`.
pub open spec fn prepend(t: TokenView, rest: Result<Seq<TokenView>, LexError>) -> Result<
    Seq<TokenView>,
    LexError,
> {
    match rest {
        Ok(r) => Ok(seq![t] + r),
        Err(e) => Err(e),
    }
}

/// A plain (unquoted) token.
pub open spec fn plain(bytes: Seq<u8>) -> TokenView {
    (bytes, false, None)
}

/// After `"A".."B"`, an `i` right before a blank or the end marks the pair
/// inclusive: whether it does, and where the token ends.
pub open spec fn inclusive_suffix(b: Seq<u8>, e: int) -> (bool, int) {
    if e < b.len() && b[e] == 105u8 && (e + 1 == b.len() || is_blank(b[e + 1])) {
        (true, e + 1)
    } else {
        (false, e)
    }
}

/// The tokens of `b` from `i` on, or why it has none.
pub open spec fn lex(b: Seq<u8>, i: int) -> Result<Seq<TokenView>, LexError>
    decreases b.len() - i,
{
    if i < 0 || i > b.len() {
        Err(LexError::UnclosedQuote)
    } else {
        let s = skip_blanks(b, i);
        proof {
            lemma_skip_blanks(b, i);
        }
        if s >= b.len() {
            Ok(Seq::empty())
        } else if b[s] == 34u8 {
            match quoted_from(b, s + 1) {
                None => Err(LexError::UnclosedQuote),
                Some(q) => {
                    proof {
                        lemma_quoted_advances(b, s + 1);
                    }
                    let af = q.1;
                    if af + 1 < b.len() && b[af] == 46u8 && b[af + 1] == 46u8 && af + 2 < b.len()
                        && b[af + 2] == 34u8 {
                        match quoted_from(b, af + 3) {
                            None => Err(LexError::UnclosedQuote),
                            Some(q2) => {
                                proof {
                                    lemma_quoted_advances(b, af + 3);
                                }
                                let inc = inclusive_suffix(b, q2.1);
                                prepend((Seq::empty(), false, Some((q.0, q2.0, inc.0))), lex(b, inc.1))
                            },
                        }
                    } else {
                        prepend((q.0, true, None), lex(b, af))
                    }
                },
            }
        } else if b[s] == 61u8 && s + 1 < b.len() && b[s + 1] == 47u8 {
            let e = match_line_atom_end(b, s);
            proof {
                lemma_body_end(b, s + 2);
                lemma_digits_end(b, body_end(b, s + 2));
            }
            prepend(plain(b.subrange(s, e)), lex(b, e))
        } else if b[s] == 126u8 && s + 1 < b.len() && b[s + 1] == 47u8 {
            match between_re_atom_end(b, s) {
                None => Err(LexError::MissingBetweenSeparator),
                Some(e) => {
                    proof {
                        lemma_body_end(b, s + 2);
                        lemma_body_end(b, body_end(b, s + 2) + 4);
                    }
                    prepend(plain(b.subrange(s, e)), lex(b, e))
                },
            }
        } else if b[s] == 115u8 && s + 1 < b.len() && b[s + 1] == 47u8 {
            let e = subst_atom_end(b, s);
            proof {
                lemma_body_end(b, s + 2);
                lemma_body_end(b, body_end(b, s + 2));
                lemma_digits_end(b, body_end(b, body_end(b, s + 2)));
            }
            prepend(plain(b.subrange(s, e)), lex(b, e))
        } else {
            match bare_from(b, s) {
                None => Err(LexError::UnclosedQuote),
                Some(r) => {
                    proof {
                        lemma_bare_advances(b, s);
                    }
                    prepend(plain(r.0), lex(b, r.1))
                },
            }
        }
    }
}

/// Appends what the escape `\e` stands for.
fn push_unescaped(buf: &mut Vec<u8>, e: u8)
    ensures
        final(buf)@ == old(buf)@ + unescaped(e),
{
    if e == 110u8 {
        buf.push(10u8);
    } else if e == 116u8 {
        buf.push(9u8);
    } else if e == 114u8 {
        buf.push(13u8);
    } else if e == 92u8 {
        buf.push(92u8);
    } else if e == 34u8 {
        buf.push(34u8);
    } else {
        buf.push(92u8);
        buf.push(e);
    }
    assert(buf@ =~= old(buf)@ + unescaped(e));
}

/// Scans the quoted string whose opening quote is at `start`: its bytes
/// and the position after its closing quote.
fn scan_quoted(bytes: &[u8], start: usize) -> (r: Result<(Vec<u8>, usize), LexError>)
    requires
        start < bytes.len(),
    ensures
        match r {
            Ok((v, j)) => quoted_from(bytes@, start + 1) == Some((v@, j as int)),
            Err(e) => quoted_from(bytes@, start + 1) is None && e == LexError::UnclosedQuote,
        },
{
    let ghost b = bytes@;
    let n = bytes.len();
    let mut i = start + 1;
    let mut buf: Vec<u8> = Vec::new();
    assert(buf@ + Seq::<u8>::empty() =~= Seq::<u8>::empty());
    while i < n
        invariant
            b == bytes@,
            n == bytes.len(),
            start + 1 <= i <= n,
            quoted_from(b, start + 1) == match quoted_from(b, i as int) {
                Some(r) => Some((buf@ + r.0, r.1)),
                None => None::<(Seq<u8>, int)>,
            },
        decreases n - i,
    {
        let c = bytes[i];
        if c == 34u8 {
            assert(buf@ + Seq::<u8>::empty() =~= buf@);
            return Ok((buf, i + 1));
        }
        if c == 92u8 && i + 1 < n {
            let ghost before = buf@;
            push_unescaped(&mut buf, bytes[i + 1]);
            proof {
                match quoted_from(b, i + 2) {
                    Some(r) => {
                        assert(before + (unescaped(b[i + 1]) + r.0) =~= buf@ + r.0);
                    },
                    None => {},
                }
            }
            i += 2;
        } else {
            let ghost before = buf@;
            buf.push(c);
            proof {
                match quoted_from(b, i + 1) {
                    Some(r) => {
                        assert(before + (seq![c] + r.0) =~= buf@ + r.0);
                    },
                    None => {},
                }
            }
            i += 1;
        }
    }
    Err(LexError::UnclosedQuote)
}

/// Position after the regex body that starts at `i`.
fn regex_body_end(bytes: &[u8], i: usize) -> (r: usize)
    requires
        i <= bytes.len(),
    ensures
        r == body_end(bytes@, i as int),
{
    let n = bytes.len();
    let mut j = i;
    while j < n
        invariant
            i <= j <= n,
            n == bytes.len(),
            body_end(bytes@, j as int) == body_end(bytes@, i as int),
        decreases n - j,
    {
        if bytes[j] == 92u8 && j + 1 < n {
            j += 2;
        } else if bytes[j] == 47u8 {
            return j + 1;
        } else {
            j += 1;
        }
    }
    j
}

/// Position after the digits (with `flags`, also `g`) from `i` on.
fn run_end(bytes: &[u8], i: usize, flags: bool) -> (r: usize)
    requires
        i <= bytes.len(),
    ensures
        r == if flags {
            flags_end(bytes@, i as int)
        } else {
            digits_end(bytes@, i as int)
        },
{
    let mut j = i;
    while j < bytes.len() && ((48u8 <= bytes[j] && bytes[j] <= 57u8) || (flags && bytes[j] == 103u8))
        invariant
            i <= j <= bytes.len(),
            flags ==> flags_end(bytes@, j as int) == flags_end(bytes@, i as int),
            !flags ==> digits_end(bytes@, j as int) == digits_end(bytes@, i as int),
        decreases bytes.len() - j,
    {
        j += 1;
    }
    j
}

/// The bytes `b[a..e]`.
fn bytes_between(bytes: &[u8], a: usize, e: usize) -> (r: Vec<u8>)
    requires
        a <= e <= bytes.len(),
    ensures
        r@ == bytes@.subrange(a as int, e as int),
{
    vstd::slice::slice_to_vec(vstd::slice::slice_subrange(bytes, a, e))
}

/// Scans the unquoted token that starts at `i`.
fn scan_bare(bytes: &[u8], i: usize) -> (r: Result<(Vec<u8>, usize), LexError>)
    requires
        i <= bytes.len(),
    ensures
        match r {
            Ok((v, j)) => bare_from(bytes@, i as int) == Some((v@, j as int)),
            Err(e) => bare_from(bytes@, i as int) is None && e == LexError::UnclosedQuote,
        },
{
    let ghost b = bytes@;
    let n = bytes.len();
    let mut j = i;
    let mut buf: Vec<u8> = Vec::new();
    assert(buf@ + Seq::<u8>::empty() =~= Seq::<u8>::empty());
    while j < n && bytes[j] != 32u8 && bytes[j] != 9u8
        invariant
            b == bytes@,
            n == bytes.len(),
            i <= j <= n,
            bare_from(b, i as int) == match bare_from(b, j as int) {
                Some(r) => Some((buf@ + r.0, r.1)),
                None => None::<(Seq<u8>, int)>,
            },
        decreases n - j,
    {
        if bytes[j] == 34u8 {
            let (q, next) = match scan_quoted(bytes, j) {
                Ok(x) => x,
                Err(e) => {
                    return Err(e);
                },
            };
            proof {
                lemma_quoted_advances(b, j + 1);
            }
            let ghost before = buf@;
            let mut qq = q;
            buf.append(&mut qq);
            proof {
                match bare_from(b, next as int) {
                    Some(r) => {
                        assert(before + (q@ + r.0) =~= buf@ + r.0);
                    },
                    None => {},
                }
            }
            j = next;
        } else {
            let ghost before = buf@;
            buf.push(bytes[j]);
            proof {
                match bare_from(b, j + 1) {
                    Some(r) => {
                        assert(before + (seq![b[j as int]] + r.0) =~= buf@ + r.0);
                    },
                    None => {},
                }
            }
            j += 1;
        }
    }
    assert(buf@ + Seq::<u8>::empty() =~= buf@);
    Ok((buf, j))
}

/// The tokens of `b` read as views.
pub open spec fn token_views(v: Seq<Token>) -> Seq<TokenView> {
    v.map_values(|t: Token| t@)
}

/// Scans the token that starts at the non-blank position `s`.
fn next_token(bytes: &[u8], s: usize) -> (r: Result<(Token, usize), LexError>)
    requires
        s < bytes.len(),
        !is_blank(bytes@[s as int]),
    ensures
        match r {
            Ok((tok, next)) => s < next <= bytes.len() && lex(bytes@, s as int) == prepend(
                tok@,
                lex(bytes@, next as int),
            ),
            Err(e) => lex(bytes@, s as int) == Err::<Seq<TokenView>, LexError>(e),
        },
{
    let ghost b = bytes@;
    let n = bytes.len();
    let i = s;
    assert(skip_blanks(b, s as int) == s);
    let c = bytes[i];
    if c == 34u8 {
        let (first, after_first) = match scan_quoted(bytes, i) {
            Ok(x) => x,
            Err(e) => {
                return Err(e);
            },
        };
        proof {
            lemma_quoted_advances(b, s + 1);
        }
        if after_first < n && n - after_first > 2 && bytes[after_first] == 46u8 && bytes[after_first
            + 1] == 46u8 && bytes[after_first + 2] == 34u8 {
            let (second, after_second) = match scan_quoted(bytes, after_first + 2) {
                Ok(x) => x,
                Err(e) => {
                    return Err(e);
                },
            };
            proof {
                lemma_quoted_advances(b, after_first + 3);
            }
            let mut end_idx = after_second;
            let mut inclusive = false;
            if end_idx < n && bytes[end_idx] == 105u8 {
                let nx = end_idx + 1;
                if nx == n || bytes[nx] == 32u8 || bytes[nx] == 9u8 {
                    inclusive = true;
                    end_idx = nx;
                }
            }
            let tok = Token {
                bytes: Vec::new(),
                quoted: false,
                between_literal: Some(BetweenLiteral { start: first, end: second, inclusive }),
            };
            assert(tok@ == (Seq::<u8>::empty(), false, Some((first@, second@, inclusive))));
            return Ok((tok, end_idx));
        }
        let tok = Token { bytes: first, quoted: true, between_literal: None };
        return Ok((tok, after_first));
    }
    if c == 61u8 && i + 1 < n && bytes[i + 1] == 47u8 {
        proof {
            lemma_body_end(b, s + 2);
        }
        let m = regex_body_end(bytes, i + 2);
        proof {
            lemma_digits_end(b, m as int);
        }
        let e = run_end(bytes, m, false);
        let tok = Token { bytes: bytes_between(bytes, i, e), quoted: false, between_literal: None };
        return Ok((tok, e));
    }
    if c == 126u8 && i + 1 < n && bytes[i + 1] == 47u8 {
        proof {
            lemma_body_end(b, s + 2);
        }
        let m = regex_body_end(bytes, i + 2);
        if n - m < 4 || bytes[m] != 46u8 || bytes[m + 1] != 46u8 || bytes[m + 2] != 126u8
            || bytes[m + 3] != 47u8 {
            proof {
                if m + 4 <= n {
                    assert(b.subrange(m as int, m + 4)[0] == b[m as int]);
                    assert(b.subrange(m as int, m + 4)[1] == b[m + 1]);
                    assert(b.subrange(m as int, m + 4)[2] == b[m + 2]);
                    assert(b.subrange(m as int, m + 4)[3] == b[m + 3]);
                }
            }
            return Err(LexError::MissingBetweenSeparator);
        }
        assert(b.subrange(m as int, m + 4) =~= seq![46u8, 46u8, 126u8, 47u8]);
        proof {
            lemma_body_end(b, m + 4);
        }
        let mut e = regex_body_end(bytes, m + 4);
        if e < n && bytes[e] == 105u8 {
            e = e + 1;
        }
        let tok = Token { bytes: bytes_between(bytes, i, e), quoted: false, between_literal: None };
        return Ok((tok, e));
    }
    if c == 115u8 && i + 1 < n && bytes[i + 1] == 47u8 {
        proof {
            lemma_body_end(b, s + 2);
        }
        let m1 = regex_body_end(bytes, i + 2);
        proof {
            lemma_body_end(b, m1 as int);
        }
        let m2 = regex_body_end(bytes, m1);
        proof {
            lemma_digits_end(b, m2 as int);
        }
        let e = run_end(bytes, m2, true);
        let tok = Token { bytes: bytes_between(bytes, i, e), quoted: false, between_literal: None };
        return Ok((tok, e));
    }
    let (buf, e) = match scan_bare(bytes, i) {
        Ok(x) => x,
        Err(e) => {
            return Err(e);
        },
    };
    proof {
        lemma_bare_advances(b, s as int);
    }
    let tok = Token { bytes: buf, quoted: false, between_literal: None };
    Ok((tok, e))
}

/// Cuts a manifest line into tokens (see [`lex`]).
pub fn tokenize(line: &str) -> (r: Result<Vec<Token>, LexError>)
    ensures
        match r {
            Ok(v) => lex(line.spec_bytes(), 0) == Ok::<Seq<TokenView>, LexError>(token_views(v@)),
            Err(e) => lex(line.spec_bytes(), 0) == Err::<Seq<TokenView>, LexError>(e),
        },
{
    let bytes = line.as_bytes();
    let ghost b = bytes@;
    let n = bytes.len();
    let mut out: Vec<Token> = Vec::new();
    let mut i: usize = 0;
    assert(token_views(out@) + Seq::<TokenView>::empty() =~= Seq::<TokenView>::empty());
    loop
        invariant
            b == bytes@,
            b == line.spec_bytes(),
            n == bytes.len(),
            i <= n,
            lex(b, 0) == match lex(b, i as int) {
                Ok(r) => Ok(token_views(out@) + r),
                Err(e) => Err::<Seq<TokenView>, LexError>(e),
            },
        decreases n - i,
    {
        let ghost i0 = i;
        while i < n && (bytes[i] == 32u8 || bytes[i] == 9u8)
            invariant
                i0 <= i <= n,
                n == bytes.len(),
                skip_blanks(b, i as int) == skip_blanks(b, i0 as int),
                b == bytes@,
            decreases n - i,
        {
            i += 1;
        }
        proof {
            lemma_skip_blanks(b, i0 as int);
        }
        if i >= n {
            assert(token_views(out@) + Seq::<TokenView>::empty() =~= token_views(out@));
            return Ok(out);
        }
        let (tok, next) = match next_token(bytes, i) {
            Ok(x) => x,
            Err(e) => {
                return Err(e);
            },
        };
        proof {
            lemma_skip_blanks(b, i as int);
            assert(lex(b, i0 as int) == lex(b, i as int));
            match lex(b, next as int) {
                Ok(r) => {
                    assert(token_views(out@.push(tok)) + r =~= token_views(out@) + (seq![tok@] + r));
                },
                Err(_) => {},
            }
        }
        out.push(tok);
        i = next;
    }
}

/// Why a manifest line does not describe an operation.
#[derive(Debug, Clone, Copy, PartialEq, Eq, Structural)]
pub enum NativeError {
    Lex(LexError),
    EmptyLine,
    OpNameQuoted,
    OpNameNotUtf8,
    MissingTarget,
    FilesFromNeedsPath,
    PathNotUtf8,
    MissingLocator,
    QuotedLocator,
    LocatorNotUtf8,
    InvalidRegex,
    InvalidStartRegex,
    InvalidEndRegex,
    InvalidPattern,
    InvalidStartLine,
    InvalidEndLine,
    UnrecognizedLocator,
    MissingClosingSlash,
    InvalidOccurrence,
    MissingBetweenSeparator,
    SubstTooShort,
    SubstMissingSlashes,
    InvalidSubstFlags,
    ZeroSubstCount,
    InvalidIndentAmount,
    InvalidTabWidth,
    UnexpectedExtraToken,
    ReplaceNeedsRepl,
    ReplaceNeedsContent,
    PatternNeedsRepl,
    ReplWithoutPattern,
    InsertNeedsContent,
    InsertRepl,
    MoveNeedsTarget,
    IndentNeedsKind,
    UnknownOp,
}

/// `=/RE/N` without its `=/`: the regex and the occurrence (at least 1;
/// 1 when absent).
pub open spec fn split_occ(rest: Seq<char>) -> Result<(Seq<char>, usize), NativeError> {
    let last = last_index_of(rest, '/');
    if last < 0 {
        Err(NativeError::MissingClosingSlash)
    } else {
        let pat = rest.subrange(0, last);
        let tail = rest.subrange(last + 1, rest.len() as int);
        if tail.len() == 0 {
            Ok((pat, 1))
        } else {
            match parse_usize_spec(tail) {
                None => Err(NativeError::InvalidOccurrence),
                Some(n) => Ok((pat, if n < 1 {
                    1
                } else {
                    n
                })),
            }
        }
    }
}

/// Splits `=/RE/N` (given without `=/`) into regex and occurrence.
fn split_regex_with_occ(rest: &[char]) -> (r: Result<(String, usize), NativeError>)
    ensures
        match r {
            Ok((p, n)) => split_occ(rest@) == Ok::<(Seq<char>, usize), NativeError>((p@, n)),
            Err(e) => split_occ(rest@) == Err::<(Seq<char>, usize), NativeError>(e),
        },
{
    let last = match last_index_of_char(rest, '/') {
        Some(l) => l,
        None => {
            return Err(NativeError::MissingClosingSlash);
        },
    };
    proof {
        crate::text::chars::lemma_last_index_of(rest@, '/');
    }
    assert(last < rest@.len());
    let pat = chars_between(rest, 0, last);
    let tail = chars_between(rest, last + 1, rest.len());
    if tail.len() == 0 {
        return Ok((string_of(pat.as_slice()), 1));
    }
    match parse_usize(tail.as_slice()) {
        None => Err(NativeError::InvalidOccurrence),
        Some(n) => Ok((string_of(pat.as_slice()), if n < 1 {
            1
        } else {
            n
        })),
    }
}

/// `~/A/..~/B/` or `~/A/..~/B/i`: the two regexes and whether the anchors
/// are kept.
pub open spec fn between_re_parts(s: Seq<char>) -> Result<(Seq<char>, Seq<char>, bool), NativeError> {
    let rest = s.subrange(2, s.len() as int);
    let mid = find_seq(rest, "/..~/"@);
    if mid < 0 {
        Err(NativeError::MissingBetweenSeparator)
    } else {
        let a = rest.subrange(0, mid);
        let after = rest.subrange(mid + 5, rest.len() as int);
        if has_suffix(after, "/i"@) {
            Ok((a, after.subrange(0, after.len() - 2), true))
        } else if has_suffix(after, "/"@) {
            Ok((a, after.subrange(0, after.len() - 1), false))
        } else {
            Err(NativeError::MissingClosingSlash)
        }
    }
}

/// Splits a `~/A/..~/B/[i]` token.
fn parse_between_re_token(s: &[char]) -> (r: Result<(String, String, bool), NativeError>)
    requires
        s@.len() >= 2,
    ensures
        match r {
            Ok((a, b, i)) => between_re_parts(s@) == Ok::<(Seq<char>, Seq<char>, bool), NativeError>(
                (a@, b@, i),
            ),
            Err(e) => between_re_parts(s@) == Err::<(Seq<char>, Seq<char>, bool), NativeError>(e),
        },
{
    let rest = chars_between(s, 2, s.len());
    let mid = match find_chars(rest.as_slice(), "/..~/") {
        Some(m) => m,
        None => {
            return Err(NativeError::MissingBetweenSeparator);
        },
    };
    proof {
        reveal_strlit("/..~/");
        crate::text::chars::lemma_find_seq(rest@, "/..~/"@);
    }
    let a = chars_between(rest.as_slice(), 0, mid);
    let after = chars_between(rest.as_slice(), mid + 5, rest.len());
    if ends_with(after.as_slice(), "/i") {
        proof {
            reveal_strlit("/i");
        }
        let b = chars_between(after.as_slice(), 0, after.len() - 2);
        return Ok((string_of(a.as_slice()), string_of(b.as_slice()), true));
    }
    if ends_with(after.as_slice(), "/") {
        proof {
            reveal_strlit("/");
        }
        let b = chars_between(after.as_slice(), 0, after.len() - 1);
        return Ok((string_of(a.as_slice()), string_of(b.as_slice()), false));
    }
    Err(NativeError::MissingClosingSlash)
}

/// Positions of the first unescaped `/`s of `s` from `i` on, added to
/// `found` until it holds three.
pub open spec fn subst_slashes(s: Seq<char>, i: int, found: Seq<int>) -> Seq<int>
    decreases s.len() - i,
{
    if i < 0 || i >= s.len() || found.len() >= 3 {
        found
    } else if s[i] == '\\' && i + 1 < s.len() {
        subst_slashes(s, i + 2, found)
    } else if s[i] == '/' {
        subst_slashes(s, i + 1, found.push(i))
    } else {
        subst_slashes(s, i + 1, found)
    }
}

/// `s` with each `\/` made `/`; other backslashes stay.
pub open spec fn unescape_slashes(s: Seq<char>) -> Seq<char>
    decreases s.len(),
{
    if s.len() == 0 {
        Seq::empty()
    } else if s[0] == '\\' && s.len() > 1 && s[1] == '/' {
        seq!['/'] + unescape_slashes(s.subrange(2, s.len() as int))
    } else {
        seq![s[0]] + unescape_slashes(s.drop_first())
    }
}

/// The count flags of `s/PAT/REPL/FLAGS`: none or `g` for all, `N >= 1`
/// for the first N.
pub open spec fn subst_count(flags: Seq<char>) -> Result<Count, NativeError> {
    if flags.len() == 0 || flags == "g"@ {
        Ok(Count::All)
    } else {
        match parse_usize_spec(flags) {
            None => Err(NativeError::InvalidSubstFlags),
            Some(n) => if n == 0 {
                Err(NativeError::ZeroSubstCount)
            } else {
                Ok(Count::First(n))
            },
        }
    }
}

/// The pieces of `s/PAT/REPL/FLAGS`: pattern, count and replacement.
pub open spec fn subst_parts(bytes: Seq<u8>, s: Seq<char>) -> Result<
    (Seq<char>, Count, Seq<char>),
    NativeError,
> {
    if bytes.len() < 4 {
        Err(NativeError::SubstTooShort)
    } else {
        let sl = subst_slashes(s, 2, Seq::empty());
        if sl.len() < 2 {
            Err(NativeError::SubstMissingSlashes)
        } else {
            let pat = unescape_slashes(s.subrange(2, sl[0]));
            let repl = unescape_slashes(s.subrange(sl[0] + 1, sl[1]));
            match subst_count(s.subrange(sl[1] + 1, s.len() as int)) {
                Err(e) => Err(e),
                Ok(c) => if bytes_regex_accepts(pat) {
                    Ok((pat, c, repl))
                } else {
                    Err(NativeError::InvalidPattern)
                },
            }
        }
    }
}

proof fn lemma_subst_slashes(s: Seq<char>, i: int, found: Seq<int>)
    requires
        i >= 2,
        forall|k: int| 0 <= k < found.len() ==> 2 <= #[trigger] found[k] < i && found[k] < s.len(),
        forall|a: int, b: int| 0 <= a < b < found.len() ==> found[a] < found[b],
    ensures
        found.len() <= subst_slashes(s, i, found).len(),
        subst_slashes(s, i, found).take(found.len() as int) == found,
        forall|k: int|
            0 <= k < subst_slashes(s, i, found).len() ==> 2 <= #[trigger] subst_slashes(s, i, found)[k]
                < s.len(),
        forall|a: int, b: int|
            0 <= a < b < subst_slashes(s, i, found).len() ==> subst_slashes(s, i, found)[a]
                < subst_slashes(s, i, found)[b],
    decreases s.len() - i,
{
    if !(i < 0 || i >= s.len() || found.len() >= 3) {
        if s[i] == '\\' && i + 1 < s.len() {
            lemma_subst_slashes(s, i + 2, found);
        } else if s[i] == '/' {
            lemma_subst_slashes(s, i + 1, found.push(i));
            assert(found.push(i).take(found.len() as int) =~= found);
            let r = subst_slashes(s, i + 1, found.push(i));
            assert(r.take(found.len() as int) =~= r.take((found.len() + 1) as int).take(found.len() as int));
        } else {
            lemma_subst_slashes(s, i + 1, found);
        }
    } else {
        assert(found.take(found.len() as int) =~= found);
    }
}

/// Removes the backslash of each `\/`.
fn unescape_subst(s: &[char]) -> (r: Vec<char>)
    ensures
        r@ == unescape_slashes(s@),
{
    let mut out: Vec<char> = Vec::new();
    let mut i: usize = 0;
    assert(s@.subrange(0, s@.len() as int) =~= s@);
    while i < s.len()
        invariant
            0 <= i <= s.len(),
            unescape_slashes(s@) == out@ + unescape_slashes(s@.subrange(i as int, s@.len() as int)),
        decreases s.len() - i,
    {
        let ghost rest = s@.subrange(i as int, s@.len() as int);
        if s[i] == '\\' && i + 1 < s.len() && s[i + 1] == '/' {
            out.push('/');
            assert(rest.subrange(2, rest.len() as int) =~= s@.subrange(i + 2, s@.len() as int));
            assert(out@ + unescape_slashes(s@.subrange(i + 2, s@.len() as int)) =~= out@.drop_last()
                + (seq!['/'] + unescape_slashes(rest.subrange(2, rest.len() as int))));
            i += 2;
        } else {
            out.push(s[i]);
            assert(rest.drop_first() =~= s@.subrange(i + 1, s@.len() as int));
            assert(out@ + unescape_slashes(s@.subrange(i + 1, s@.len() as int)) =~= out@.drop_last()
                + (seq![s@[i as int]] + unescape_slashes(rest.drop_first())));
            i += 1;
        }
    }
    assert(out@ + unescape_slashes(s@.subrange(s@.len() as int, s@.len() as int)) =~= out@);
    out
}

/// Reads the count flags of `s/PAT/REPL/FLAGS`.
fn parse_subst_flags(flags: &[char]) -> (r: Result<Count, NativeError>)
    ensures
        r == subst_count(flags@),
{
    if flags.len() == 0 || (flags.len() == 1 && flags[0] == 'g') {
        proof {
            reveal_strlit("g");
            if flags.len() == 1 && flags[0] == 'g' {
                assert(flags@ =~= "g"@);
            }
        }
        return Ok(Count::All);
    }
    proof {
        reveal_strlit("g");
        if flags@ == "g"@ {
            assert(flags@[0] == 'g');
        }
    }
    match parse_usize(flags) {
        None => Err(NativeError::InvalidSubstFlags),
        Some(n) => if n == 0 {
            Err(NativeError::ZeroSubstCount)
        } else {
            Ok(Count::First(n))
        },
    }
}

/// Reads a `s/PAT/REPL/FLAGS` token: the pattern locator and the
/// replacement.
fn parse_subst_locator(tbytes: &[u8], s: &[char]) -> (r: Result<(Locator, String), NativeError>)
    requires
        s@.len() >= 2,
    ensures
        match r {
            Ok((loc, repl)) => subst_parts(tbytes@, s@) is Ok && {
                let p = subst_parts(tbytes@, s@)->Ok_0;
                loc@ == LocatorView::Pattern(p.0, p.1) && repl@ == p.2
            },
            Err(e) => subst_parts(tbytes@, s@) == Err::<(Seq<char>, Count, Seq<char>), NativeError>(e),
        },
{
    if tbytes.len() < 4 {
        return Err(NativeError::SubstTooShort);
    }
    let mut slashes: Vec<usize> = Vec::new();
    let mut i: usize = 2;
    assert(slashes@.map_values(|x: usize| x as int) =~= Seq::<int>::empty());
    while i < s.len() && slashes.len() < 3
        invariant
            2 <= i,
            subst_slashes(s@, i as int, slashes@.map_values(|x: usize| x as int)) == subst_slashes(
                s@,
                2,
                Seq::empty(),
            ),
            forall|k: int| 0 <= k < slashes@.len() ==> 2 <= #[trigger] slashes@[k] < i && slashes@[k] < s@.len(),
            slashes@.len() <= 3,
        decreases s.len() - i,
    {
        let ghost f = slashes@.map_values(|x: usize| x as int);
        if s[i] == '\\' && i + 1 < s.len() {
            i += 2;
        } else {
            if s[i] == '/' {
                slashes.push(i);
                assert(slashes@.map_values(|x: usize| x as int) =~= f.push(i as int));
            }
            i += 1;
        }
    }
    let ghost f = slashes@.map_values(|x: usize| x as int);
    assert(subst_slashes(s@, i as int, f) == f);
    assert(f =~= subst_slashes(s@, 2, Seq::empty()));
    if slashes.len() < 2 {
        return Err(NativeError::SubstMissingSlashes);
    }
    let a = slashes[0];
    let b = slashes[1];
    proof {
        lemma_subst_slashes(s@, 2, Seq::empty());
        assert(f[0] == a && f[1] == b);
    }
    let pat_raw = chars_between(s, 2, a);
    let pat = unescape_subst(pat_raw.as_slice());
    let repl_raw = chars_between(s, a + 1, b);
    let repl = unescape_subst(repl_raw.as_slice());
    let flags = chars_between(s, b + 1, s.len());
    let count = match parse_subst_flags(flags.as_slice()) {
        Ok(c) => c,
        Err(e) => {
            return Err(e);
        },
    };
    let pat_s = string_of(pat.as_slice());
    match ByteRegex::new(pat_s.as_str()) {
        None => Err(NativeError::InvalidPattern),
        Some(re) => Ok((Locator::Pattern { regex: re, count }, string_of(repl.as_slice()))),
    }
}

/// Content named by `@rest` (given without its `@`): `@-` the manifest's
/// standard input, `@@` a literal `@`, anything else a file.
pub open spec fn at_content(rest: Seq<char>) -> ContentView {
    if rest == "-"@ {
        ContentView::Stdin
    } else if rest == "@"@ {
        ContentView::Text(seq![64u8])
    } else {
        ContentView::File(rest)
    }
}

/// Reads `@<path>` / `@-` / `@@` (given without the first `@`).
fn parse_at_token(rest: &[char]) -> (r: OpContent)
    ensures
        r@ == at_content(rest@),
{
    proof {
        reveal_strlit("-");
        reveal_strlit("@");
    }
    if rest.len() == 1 && rest[0] == '-' {
        assert(rest@ =~= "-"@);
        return OpContent::Stdin;
    }
    if rest.len() == 1 && rest[0] == '@' {
        assert(rest@ =~= "@"@);
        let v = vec![64u8];
        assert(v@ =~= seq![64u8]);
        return OpContent::Text(v);
    }
    proof {
        if rest@ == "-"@ {
            assert(rest@[0] == '-');
        }
        if rest@ == "@"@ {
            assert(rest@[0] == '@');
        }
    }
    OpContent::File(string_of(rest))
}

/// A token read as literal content: an empty quoted string deletes.
pub open spec fn inline_content(t: TokenView) -> ContentView {
    if t.1 && t.0.len() == 0 {
        ContentView::Empty
    } else {
        ContentView::Text(t.0)
    }
}

/// Reads a token as literal content.
fn parse_inline_content(t: &Token) -> (r: OpContent)
    ensures
        r@ == inline_content(t@),
{
    if t.quoted && t.bytes.len() == 0 {
        OpContent::Empty
    } else {
        OpContent::Text(crate::apply::copy_bytes(&t.bytes))
    }
}

/// What a locator token names, with the replacement of `s/PAT/REPL/`.
pub open spec fn locator_of(t: TokenView) -> Result<(LocatorView, Option<Seq<char>>), NativeError> {
    match t.2 {
        Some(bl) => Ok((LocatorView::Between(bl.0, bl.1, 1, 1, bl.2), None)),
        None => if t.1 {
            Err(NativeError::QuotedLocator)
        } else if !valid_utf8(t.0) {
            Err(NativeError::LocatorNotUtf8)
        } else {
            let s = decode_utf8(t.0);
            if has_prefix(s, "s/"@) {
                match subst_parts(t.0, s) {
                    Err(e) => Err(e),
                    Ok(p) => Ok((LocatorView::Pattern(p.0, p.1), Some(p.2))),
                }
            } else if has_prefix(s, "=/"@) {
                match split_occ(s.subrange(2, s.len() as int)) {
                    Err(e) => Err(e),
                    Ok(po) => if line_regex_accepts(po.0) {
                        Ok((LocatorView::MatchLine(po.0, po.1), None))
                    } else {
                        Err(NativeError::InvalidRegex)
                    },
                }
            } else if has_prefix(s, "~/"@) {
                match between_re_parts(s) {
                    Err(e) => Err(e),
                    Ok(p) => if !line_regex_accepts(p.0) {
                        Err(NativeError::InvalidStartRegex)
                    } else if !line_regex_accepts(p.1) {
                        Err(NativeError::InvalidEndRegex)
                    } else {
                        Ok((LocatorView::BetweenRe(p.0, p.1, 1, 1, p.2), None))
                    },
                }
            } else {
                let d = index_of(s, '-');
                if d >= 0 {
                    match parse_usize_spec(s.subrange(0, d)) {
                        None => Err(NativeError::InvalidStartLine),
                        Some(a) => match parse_usize_spec(s.subrange(d + 1, s.len() as int)) {
                            None => Err(NativeError::InvalidEndLine),
                            Some(b) => Ok((LocatorView::Lines(a, b), None)),
                        },
                    }
                } else {
                    match parse_usize_spec(s) {
                        Some(n) => Ok((LocatorView::Lines(n, n), None)),
                        None => Err(NativeError::UnrecognizedLocator),
                    }
                }
            }
        },
    }
}

/// The characters of a token's bytes, when they are UTF-8.
fn token_text(bytes: &Vec<u8>) -> (r: Option<Vec<char>>)
    ensures
        match r {
            Some(cs) => valid_utf8(bytes@) && cs@ == decode_utf8(bytes@),
            None => !valid_utf8(bytes@),
        },
{
    match string_from_utf8(bytes.as_slice()) {
        Some(s) => Some(chars_of(s.as_str())),
        None => None,
    }
}

/// A literal between token `"A".."B"` names the lines from the first line
/// holding `A` to the first line after it holding `B`: both occurrences
/// are 1, and nothing else is taken from the token. A manifest's between
/// locators (literal or regex) always take the first start anchor and the
/// first end anchor after it.
pub proof fn lemma_between_literal_takes_first_markers(t: TokenView)
    ensures
        t.2 matches Some(bl) ==> (locator_of(t) matches Ok((LocatorView::Between(a, b, so, eo, inc), None))
            && a == bl.0 && b == bl.1 && so == 1 && eo == 1 && inc == bl.2),
        locator_of(t) matches Ok((LocatorView::Between(_, _, so, eo, _), _)) ==> so == 1 && eo == 1,
        locator_of(t) matches Ok((LocatorView::BetweenRe(_, _, so, eo, _), _)) ==> so == 1 && eo
            == 1,
{
}

/// Reads the locator token `tokens[i]`; returns the locator, the
/// replacement of `s/PAT/REPL/`, and the index after the token.
fn parse_locator(tokens: &[Token], i: usize) -> (r: Result<(Locator, Option<String>, usize), NativeError>)
    requires
        i < tokens.len(),
    ensures
        match r {
            Ok((loc, repl, next)) => next == i + 1 && locator_of(tokens@[i as int]@) == Ok::<
                (LocatorView, Option<Seq<char>>),
                NativeError,
            >((
                loc@,
                match repl {
                    Some(x) => Some(x@),
                    None => None,
                },
            )),
            Err(e) => locator_of(tokens@[i as int]@) == Err::<
                (LocatorView, Option<Seq<char>>),
                NativeError,
            >(e),
        },
        tokens@[i as int].between_literal matches Some(bl) ==> (r matches Ok(
            (Locator::Between { start, end, start_occ, end_occ, inclusive }, None, _),
        ) && start@ == bl.start@ && end@ == bl.end@ && start_occ == 1 && end_occ == 1
            && inclusive == bl.inclusive),
        r matches Ok((Locator::Between { start_occ, end_occ, .. }, _, _)) ==> start_occ == 1
            && end_occ == 1,
        r matches Ok((Locator::BetweenRe { start_occ, end_occ, .. }, _, _)) ==> start_occ == 1
            && end_occ == 1,
{
    let t = &tokens[i];
    if let Some(bl) = &t.between_literal {
        let loc = Locator::Between {
            start: crate::apply::copy_bytes(&bl.start),
            end: crate::apply::copy_bytes(&bl.end),
            start_occ: 1,
            end_occ: 1,
            inclusive: bl.inclusive,
        };
        return Ok((loc, None, i + 1));
    }
    if t.quoted {
        return Err(NativeError::QuotedLocator);
    }
    let s = match token_text(&t.bytes) {
        Some(cs) => cs,
        None => {
            return Err(NativeError::LocatorNotUtf8);
        },
    };
    if starts_with(s.as_slice(), "s/") {
        proof {
            reveal_strlit("s/");
        }
        return match parse_subst_locator(t.bytes.as_slice(), s.as_slice()) {
            Ok((loc, repl)) => Ok((loc, Some(repl), i + 1)),
            Err(e) => Err(e),
        };
    }
    if starts_with(s.as_slice(), "=/") {
        proof {
            reveal_strlit("=/");
        }
        let rest = chars_between(s.as_slice(), 2, s.len());
        let (pat, occ) = match split_regex_with_occ(rest.as_slice()) {
            Ok(x) => x,
            Err(e) => {
                return Err(e);
            },
        };
        return match LineRegex::new(pat.as_str()) {
            Some(re) => Ok((Locator::MatchLine { regex: re, occurrence: occ }, None, i + 1)),
            None => Err(NativeError::InvalidRegex),
        };
    }
    if starts_with(s.as_slice(), "~/") {
        proof {
            reveal_strlit("~/");
        }
        let (a, b, inclusive) = match parse_between_re_token(s.as_slice()) {
            Ok(x) => x,
            Err(e) => {
                return Err(e);
            },
        };
        let sre = match LineRegex::new(a.as_str()) {
            Some(re) => re,
            None => {
                return Err(NativeError::InvalidStartRegex);
            },
        };
        let ere = match LineRegex::new(b.as_str()) {
            Some(re) => re,
            None => {
                return Err(NativeError::InvalidEndRegex);
            },
        };
        return Ok((
            Locator::BetweenRe { start: sre, end: ere, start_occ: 1, end_occ: 1, inclusive },
            None,
            i + 1,
        ));
    }
    match index_of_char(s.as_slice(), '-') {
        Some(d) => {
            proof {
                crate::text::chars::lemma_index_of(s@, '-');
            }
            let a_part = chars_between(s.as_slice(), 0, d);
            let b_part = chars_between(s.as_slice(), d + 1, s.len());
            let a = match parse_usize(a_part.as_slice()) {
                Some(a) => a,
                None => {
                    return Err(NativeError::InvalidStartLine);
                },
            };
            let b = match parse_usize(b_part.as_slice()) {
                Some(b) => b,
                None => {
                    return Err(NativeError::InvalidEndLine);
                },
            };
            Ok((Locator::Lines { start: a, end: b }, None, i + 1))
        },
        None => match parse_usize(s.as_slice()) {
            Some(n) => Ok((Locator::Lines { start: n, end: n }, None, i + 1)),
            None => Err(NativeError::UnrecognizedLocator),
        },
    }
}

/// The bytes of `--files-from`.
pub open spec fn files_from_flag() -> Seq<u8> {
    seq![45u8, 45u8, 102u8, 105u8, 108u8, 101u8, 115u8, 45u8, 102u8, 114u8, 111u8, 109u8]
}

/// The bytes of `revert`.
pub open spec fn revert_word() -> Seq<u8> {
    seq![114u8, 101u8, 118u8, 101u8, 114u8, 116u8]
}

/// The target named at token `i`: a file, or `--files-from` and the list
/// file; with the index after it.
pub open spec fn target_of(tokens: Seq<TokenView>, i: int) -> Result<(TargetView, int), NativeError> {
    let t = tokens[i];
    if !t.1 && t.0 == files_from_flag() {
        if i + 1 >= tokens.len() {
            Err(NativeError::FilesFromNeedsPath)
        } else if !valid_utf8(tokens[i + 1].0) {
            Err(NativeError::PathNotUtf8)
        } else {
            Ok((TargetView::FilesFrom(decode_utf8(tokens[i + 1].0)), i + 2))
        }
    } else if !valid_utf8(t.0) {
        Err(NativeError::PathNotUtf8)
    } else {
        Ok((TargetView::File(decode_utf8(t.0)), i + 1))
    }
}

/// Whether a token is the bare word whose bytes are `w`.
fn is_word(t: &Token, w: &Vec<u8>) -> (r: bool)
    ensures
        r == (!t@.1 && t@.0 == w@),
{
    !t.quoted && crate::apply::commit::bytes_equal(t.bytes.as_slice(), w.as_slice())
}

/// Reads the target at token `i`.
fn parse_target(tokens: &[Token], i: usize) -> (r: Result<(Target, usize), NativeError>)
    requires
        i < tokens.len(),
    ensures
        match r {
            Ok((t, next)) => target_of(token_views(tokens@), i as int) == Ok::<(TargetView, int), NativeError>(
                (t@, next as int),
            ),
            Err(e) => target_of(token_views(tokens@), i as int) == Err::<(TargetView, int), NativeError>(e),
        },
{
    let flag = vec![45u8, 45u8, 102u8, 105u8, 108u8, 101u8, 115u8, 45u8, 102u8, 114u8, 111u8, 109u8];
    assert(flag@ =~= files_from_flag());
    let t = &tokens[i];
    assert(token_views(tokens@)[i as int] == t@);
    if is_word(t, &flag) {
        if i + 1 >= tokens.len() {
            return Err(NativeError::FilesFromNeedsPath);
        }
        assert(token_views(tokens@)[i + 1] == tokens@[i + 1]@);
        return match string_from_utf8(tokens[i + 1].bytes.as_slice()) {
            Some(p) => Ok((Target::FilesFrom(p), i + 2)),
            None => Err(NativeError::PathNotUtf8),
        };
    }
    match string_from_utf8(t.bytes.as_slice()) {
        Some(p) => Ok((Target::File(p), i + 1)),
        None => Err(NativeError::PathNotUtf8),
    }
}

/// What the tokens after the locator have set so far.
pub struct Mods {
    pub position: MovePosition,
    pub indent: Option<IndentKind>,
    pub to_line: Option<usize>,
    pub content: Option<ContentView>,
    pub was: Option<WasView>,
    pub revert: bool,
}

/// `-n`, where `-i64::MIN` wraps to itself.
pub open spec fn negated(n: i64) -> i64 {
    if n == i64::MIN {
        i64::MIN
    } else {
        (-n) as i64
    }
}

/// The text of a token: its characters when it is UTF-8, else nothing.
pub open spec fn token_str(t: TokenView) -> Seq<char> {
    if valid_utf8(t.0) {
        decode_utf8(t.0)
    } else {
        Seq::empty()
    }
}

/// What one token after the locator sets.
pub open spec fn mod_step(m: Mods, t: TokenView, is_move: bool) -> Result<Mods, NativeError> {
    let s = token_str(t);
    if !t.1 {
        if s == "before"@ {
            Ok(Mods { position: MovePosition::Before, ..m })
        } else if s == "after"@ {
            Ok(Mods { position: MovePosition::After, ..m })
        } else if s == "revert"@ {
            Ok(Mods { revert: true, ..m })
        } else if has_prefix(s, "+"@) {
            match parse_i64_spec(s.subrange(1, s.len() as int)) {
                None => Err(NativeError::InvalidIndentAmount),
                Some(n) => Ok(Mods { indent: Some(IndentKind::Adjust(n)), ..m }),
            }
        } else if has_prefix(s, "-"@) {
            match parse_i64_spec(s.subrange(1, s.len() as int)) {
                None => Err(NativeError::InvalidIndentAmount),
                Some(n) => Ok(Mods { indent: Some(IndentKind::Adjust(negated(n))), ..m }),
            }
        } else if has_prefix(s, "t2s:"@) {
            match parse_usize_spec(s.subrange(4, s.len() as int)) {
                None => Err(NativeError::InvalidTabWidth),
                Some(n) => Ok(Mods { indent: Some(IndentKind::TabsToSpaces(n)), ..m }),
            }
        } else if has_prefix(s, "s2t:"@) {
            match parse_usize_spec(s.subrange(4, s.len() as int)) {
                None => Err(NativeError::InvalidTabWidth),
                Some(n) => Ok(Mods { indent: Some(IndentKind::SpacesToTabs(n)), ..m }),
            }
        } else if has_prefix(s, "was="@) {
            let rest = s.subrange(4, s.len() as int);
            if has_prefix(rest, "@"@) {
                let p = rest.subrange(1, rest.len() as int);
                if p == "@"@ {
                    Ok(Mods { was: Some(WasView::Bytes(seq![64u8])), ..m })
                } else {
                    Ok(Mods { was: Some(WasView::File(p)), ..m })
                }
            } else {
                Ok(Mods { was: Some(WasView::Bytes(vstd::utf8::encode_utf8(rest))), ..m })
            }
        } else if is_move && m.to_line is None && parse_usize_spec(s) is Some {
            Ok(Mods { to_line: parse_usize_spec(s), ..m })
        } else if has_prefix(s, "@"@) {
            Ok(Mods { content: Some(at_content(s.subrange(1, s.len() as int))), ..m })
        } else {
            Ok(Mods { content: Some(inline_content(t)), ..m })
        }
    } else if m.content is None {
        Ok(Mods { content: Some(inline_content(t)), ..m })
    } else {
        Err(NativeError::UnexpectedExtraToken)
    }
}

/// What the tokens from `k` on set, starting from `m`.
pub open spec fn mods_from(tokens: Seq<TokenView>, k: int, m: Mods, is_move: bool) -> Result<
    Mods,
    NativeError,
>
    decreases tokens.len() - k,
{
    if k < 0 || k >= tokens.len() {
        Ok(m)
    } else {
        match mod_step(m, tokens[k], is_move) {
            Err(e) => Err(e),
            Ok(m2) => mods_from(tokens, k + 1, m2, is_move),
        }
    }
}

/// The operation named `name` from its target, locator and modifiers.
pub open spec fn assemble(name: Seq<char>, target: TargetView, loc: LocatorView, m: Mods) -> Result<
    OpView,
    NativeError,
> {
    if name == "replace"@ {
        match m.content {
            None => if loc is Pattern {
                Err(NativeError::ReplaceNeedsRepl)
            } else {
                Err(NativeError::ReplaceNeedsContent)
            },
            Some(c) => if loc is Pattern {
                if c is Repl {
                    Ok(OpView::Replace(target, loc, c, m.was, m.revert))
                } else {
                    Err(NativeError::PatternNeedsRepl)
                }
            } else if c is Repl {
                Err(NativeError::ReplWithoutPattern)
            } else {
                Ok(OpView::Replace(target, loc, c, m.was, m.revert))
            },
        }
    } else if name == "insert"@ {
        match m.content {
            None => Err(NativeError::InsertNeedsContent),
            Some(c) => if c is Repl {
                Err(NativeError::InsertRepl)
            } else {
                Ok(OpView::Insert(target, loc, c, m.position, m.revert))
            },
        }
    } else if name == "move"@ {
        match m.to_line {
            None => Err(NativeError::MoveNeedsTarget),
            Some(to) => Ok(OpView::Move(target, loc, to, m.position, m.revert)),
        }
    } else if name == "indent"@ {
        match m.indent {
            None => Err(NativeError::IndentNeedsKind),
            Some(k) => Ok(OpView::Indent(target, loc, k, m.revert)),
        }
    } else {
        Err(NativeError::UnknownOp)
    }
}

/// The operation a line's tokens describe.
pub open spec fn line_op(tokens: Seq<TokenView>) -> Result<OpView, NativeError> {
    if tokens.len() == 0 {
        Err(NativeError::EmptyLine)
    } else if tokens[0].1 {
        Err(NativeError::OpNameQuoted)
    } else if !valid_utf8(tokens[0].0) {
        Err(NativeError::OpNameNotUtf8)
    } else if tokens.len() < 2 {
        Err(NativeError::MissingTarget)
    } else {
        let name = decode_utf8(tokens[0].0);
        match target_of(tokens, 1) {
            Err(e) => Err(e),
            Ok(ti) => {
                let idx = ti.1;
                let rv = idx < tokens.len() && !tokens[idx].1 && tokens[idx].0 == revert_word();
                let idx1 = if rv {
                    idx + 1
                } else {
                    idx
                };
                if idx1 >= tokens.len() {
                    Err(NativeError::MissingLocator)
                } else {
                    match locator_of(tokens[idx1]) {
                        Err(e) => Err(e),
                        Ok(lr) => {
                            let init = Mods {
                                position: MovePosition::After,
                                indent: None,
                                to_line: None,
                                content: match lr.1 {
                                    Some(r) => Some(ContentView::Repl(r)),
                                    None => None,
                                },
                                was: None,
                                revert: rv,
                            };
                            match mods_from(tokens, idx1 + 1, init, name == "move"@) {
                                Err(e) => Err(e),
                                Ok(m) => assemble(name, ti.0, lr.0, m),
                            }
                        },
                    }
                }
            },
        }
    }
}

/// The modifiers read so far.
struct ModsExec {
    position: MovePosition,
    indent: Option<IndentKind>,
    to_line: Option<usize>,
    content: Option<OpContent>,
    was: Option<Was>,
    revert: bool,
}

impl View for ModsExec {
    type V = Mods;

    closed spec fn view(&self) -> Mods {
        Mods {
            position: self.position,
            indent: self.indent,
            to_line: self.to_line,
            content: match self.content {
                Some(c) => Some(c@),
                None => None,
            },
            was: crate::apply::was_view(self.was),
            revert: self.revert,
        }
    }
}

/// The text of a token (see [`token_str`]).
fn token_chars(t: &Token) -> (r: Vec<char>)
    ensures
        r@ == token_str(t@),
{
    match token_text(&t.bytes) {
        Some(cs) => cs,
        None => Vec::new(),
    }
}

/// The bytes of the characters `cs`.
fn utf8_of(cs: &[char]) -> (r: Vec<u8>)
    ensures
        r@ == vstd::utf8::encode_utf8(cs@),
{
    let s = string_of(cs);
    vstd::slice::slice_to_vec(s.as_str().as_bytes())
}

/// Reads one token after the locator (see [`mod_step`]).
fn apply_mod(m: &mut ModsExec, t: &Token, is_move: bool) -> (r: Result<(), NativeError>)
    ensures
        match r {
            Ok(()) => mod_step(old(m)@, t@, is_move) == Ok::<Mods, NativeError>(final(m)@),
            Err(e) => mod_step(old(m)@, t@, is_move) == Err::<Mods, NativeError>(e),
        },
{
    let s = token_chars(t);
    let ghost sv = s@;
    proof {
        reveal_strlit("before");
        reveal_strlit("after");
        reveal_strlit("revert");
        reveal_strlit("+");
        reveal_strlit("-");
        reveal_strlit("t2s:");
        reveal_strlit("s2t:");
        reveal_strlit("was=");
        reveal_strlit("@");
    }
    if !t.quoted {
        if crate::apply::detect::chars_are(s.as_slice(), "before") {
            m.position = MovePosition::Before;
            return Ok(());
        }
        if crate::apply::detect::chars_are(s.as_slice(), "after") {
            m.position = MovePosition::After;
            return Ok(());
        }
        if crate::apply::detect::chars_are(s.as_slice(), "revert") {
            m.revert = true;
            return Ok(());
        }
        if starts_with(s.as_slice(), "+") {
            let rest = chars_between(s.as_slice(), 1, s.len());
            return match parse_i64(rest.as_slice()) {
                None => Err(NativeError::InvalidIndentAmount),
                Some(n) => {
                    m.indent = Some(IndentKind::Adjust(n));
                    Ok(())
                },
            };
        }
        if starts_with(s.as_slice(), "-") {
            let rest = chars_between(s.as_slice(), 1, s.len());
            return match parse_i64(rest.as_slice()) {
                None => Err(NativeError::InvalidIndentAmount),
                Some(n) => {
                    let neg = if n == i64::MIN {
                        i64::MIN
                    } else {
                        -n
                    };
                    m.indent = Some(IndentKind::Adjust(neg));
                    Ok(())
                },
            };
        }
        if starts_with(s.as_slice(), "t2s:") {
            let rest = chars_between(s.as_slice(), 4, s.len());
            return match parse_usize(rest.as_slice()) {
                None => Err(NativeError::InvalidTabWidth),
                Some(n) => {
                    m.indent = Some(IndentKind::TabsToSpaces(n));
                    Ok(())
                },
            };
        }
        if starts_with(s.as_slice(), "s2t:") {
            let rest = chars_between(s.as_slice(), 4, s.len());
            return match parse_usize(rest.as_slice()) {
                None => Err(NativeError::InvalidTabWidth),
                Some(n) => {
                    m.indent = Some(IndentKind::SpacesToTabs(n));
                    Ok(())
                },
            };
        }
        if starts_with(s.as_slice(), "was=") {
            let rest = chars_between(s.as_slice(), 4, s.len());
            if starts_with(rest.as_slice(), "@") {
                let p = chars_between(rest.as_slice(), 1, rest.len());
                if crate::apply::detect::chars_are(p.as_slice(), "@") {
                    let v = vec![64u8];
                    assert(v@ =~= seq![64u8]);
                    m.was = Some(Was::Bytes(v));
                } else {
                    m.was = Some(Was::File(string_of(p.as_slice())));
                }
            } else {
                m.was = Some(Was::Bytes(utf8_of(rest.as_slice())));
            }
            return Ok(());
        }
        if is_move && m.to_line.is_none() {
            match parse_usize(s.as_slice()) {
                Some(n) => {
                    m.to_line = Some(n);
                    return Ok(());
                },
                None => {},
            }
        }
        if starts_with(s.as_slice(), "@") {
            let rest = chars_between(s.as_slice(), 1, s.len());
            m.content = Some(parse_at_token(rest.as_slice()));
            return Ok(());
        }
        m.content = Some(parse_inline_content(t));
        return Ok(());
    }
    if m.content.is_none() {
        m.content = Some(parse_inline_content(t));
        Ok(())
    } else {
        Err(NativeError::UnexpectedExtraToken)
    }
}

/// Reads the operation a line's tokens describe (see [`line_op`]).
fn parse_op_line(tokens: &[Token]) -> (r: Result<Op, NativeError>)
    ensures
        match r {
            Ok(op) => line_op(token_views(tokens@)) == Ok::<OpView, NativeError>(op@),
            Err(e) => line_op(token_views(tokens@)) == Err::<OpView, NativeError>(e),
        },
{
    let ghost tv = token_views(tokens@);
    if tokens.len() == 0 {
        return Err(NativeError::EmptyLine);
    }
    let op_tok = &tokens[0];
    assert(tv[0] == op_tok@);
    if op_tok.quoted {
        return Err(NativeError::OpNameQuoted);
    }
    let name = match token_text(&op_tok.bytes) {
        Some(cs) => cs,
        None => {
            return Err(NativeError::OpNameNotUtf8);
        },
    };
    if tokens.len() < 2 {
        return Err(NativeError::MissingTarget);
    }
    let (target, idx) = match parse_target(tokens, 1) {
        Ok(x) => x,
        Err(e) => {
            return Err(e);
        },
    };
    let word = vec![114u8, 101u8, 118u8, 101u8, 114u8, 116u8];
    assert(word@ =~= revert_word());
    let mut revert = false;
    let mut idx1 = idx;
    if idx < tokens.len() {
        assert(tv[idx as int] == tokens@[idx as int]@);
        if is_word(&tokens[idx], &word) {
            revert = true;
            idx1 = idx + 1;
        }
    }
    if idx1 >= tokens.len() {
        return Err(NativeError::MissingLocator);
    }
    assert(tv[idx1 as int] == tokens@[idx1 as int]@);
    let (locator, inline_repl, next) = match parse_locator(tokens, idx1) {
        Ok(x) => x,
        Err(e) => {
            return Err(e);
        },
    };
    let is_move = crate::apply::detect::chars_are(name.as_slice(), "move");
    let mut m = ModsExec {
        position: MovePosition::After,
        indent: None,
        to_line: None,
        content: match inline_repl {
            Some(r) => Some(OpContent::Repl(r)),
            None => None,
        },
        was: None,
        revert,
    };
    let ghost init = m@;
    let ghost lop = match mods_from(tv, next as int, init, is_move) {
        Err(e) => Err::<OpView, NativeError>(e),
        Ok(mm) => assemble(name@, target@, locator@, mm),
    };
    assert(line_op(tv) == lop);
    let mut k = next;
    while k < tokens.len()
        invariant
            line_op(tv) == lop,
            lop == match mods_from(tv, next as int, init, is_move) {
                Err(e) => Err::<OpView, NativeError>(e),
                Ok(mm) => assemble(name@, target@, locator@, mm),
            },
            tv == token_views(tokens@),
            next <= k <= tokens.len(),
            mods_from(tv, next as int, init, is_move) == mods_from(tv, k as int, m@, is_move),
        decreases tokens.len() - k,
    {
        assert(tv[k as int] == tokens@[k as int]@);
        let ghost before = m@;
        match apply_mod(&mut m, &tokens[k], is_move) {
            Ok(()) => {},
            Err(e) => {
                assert(mods_from(tv, k as int, before, is_move) == Err::<Mods, NativeError>(e));
                return Err(e);
            },
        }
        k += 1;
    }
    proof {
        reveal_strlit("replace");
        reveal_strlit("insert");
        reveal_strlit("move");
        reveal_strlit("indent");
    }
    let is_pattern = match locator {
        Locator::Pattern { .. } => true,
        _ => false,
    };
    if crate::apply::detect::chars_are(name.as_slice(), "replace") {
        let content = match m.content {
            None => {
                return Err(
                    if is_pattern {
                        NativeError::ReplaceNeedsRepl
                    } else {
                        NativeError::ReplaceNeedsContent
                    },
                );
            },
            Some(c) => c,
        };
        let is_repl = match content {
            OpContent::Repl(_) => true,
            _ => false,
        };
        if is_pattern && !is_repl {
            return Err(NativeError::PatternNeedsRepl);
        }
        if !is_pattern && is_repl {
            return Err(NativeError::ReplWithoutPattern);
        }
        return Ok(Op::Replace { target, locator, content, was: m.was, revert: m.revert });
    }
    if crate::apply::detect::chars_are(name.as_slice(), "insert") {
        let content = match m.content {
            None => {
                return Err(NativeError::InsertNeedsContent);
            },
            Some(c) => c,
        };
        if let OpContent::Repl(_) = content {
            return Err(NativeError::InsertRepl);
        }
        return Ok(
            Op::Insert { target, locator, content, position: m.position, revert: m.revert },
        );
    }
    if is_move {
        return match m.to_line {
            None => Err(NativeError::MoveNeedsTarget),
            Some(to) => Ok(
                Op::Move { target, from: locator, to_line: to, position: m.position, revert: m.revert },
            ),
        };
    }
    if crate::apply::detect::chars_are(name.as_slice(), "indent") {
        return match m.indent {
            None => Err(NativeError::IndentNeedsKind),
            Some(kind) => Ok(Op::Indent { target, locator, kind, revert: m.revert }),
        };
    }
    Err(NativeError::UnknownOp)
}

/// Where a manifest fails: the 1-based line and why.
#[derive(Debug, Clone, Copy, PartialEq, Eq, Structural)]
pub struct ParseError {
    pub line: usize,
    pub kind: NativeError,
}

/// A line without the `\r` of a `\r\n` ending.
pub open spec fn strip_cr(l: Seq<char>) -> Seq<char> {
    if l.len() > 0 && l.last() == '\r' {
        l.drop_last()
    } else {
        l
    }
}

/// The lines of a text (`str::lines`): cut at `\n`, a `\r` before the
/// `\n` dropped, no empty line after a final `\n`.
pub open spec fn text_lines(s: Seq<char>) -> Seq<Seq<char>> {
    let p = split_at_nl(s);
    let body = p.drop_last().map_values(|l: Seq<char>| strip_cr(l));
    if p.last().len() > 0 {
        body.push(p.last())
    } else {
        body
    }
}

/// What one manifest line holds: nothing (blank, comment, or no token), an
/// operation, or an error.
#[verifier::opaque]
pub open spec fn line_entry(line: Seq<char>) -> Result<Option<OpView>, NativeError> {
    let t = trim_start(line);
    if t.len() == 0 || t[0] == '#' {
        Ok(None)
    } else {
        match lex(vstd::utf8::encode_utf8(line), 0) {
            Err(e) => Err(NativeError::Lex(e)),
            Ok(toks) => if toks.len() == 0 {
                Ok(None)
            } else {
                match line_op(toks) {
                    Ok(op) => Ok(Some(op)),
                    Err(e) => Err(e),
                }
            },
        }
    }
}

/// The operations of the manifest lines `lines`, or the first line in
/// error (numbered from 1).
pub open spec fn manifest_ops(lines: Seq<Seq<char>>) -> Result<Seq<OpView>, ParseError>
    decreases lines.len(),
{
    if lines.len() == 0 {
        Ok(Seq::empty())
    } else {
        match manifest_ops(lines.drop_last()) {
            Err(e) => Err(e),
            Ok(ops) => match line_entry(lines.last()) {
                Ok(None) => Ok(ops),
                Ok(Some(op)) => Ok(ops.push(op)),
                Err(kind) => Err(ParseError { line: lines.len() as usize, kind }),
            },
        }
    }
}

/// The operations as views.
pub open spec fn op_views(v: Seq<Op>) -> Seq<OpView> {
    v.map_values(|o: Op| o@)
}

/// Reads one manifest line (see [`line_entry`]).
fn parse_line(line: &[char]) -> (r: Result<Option<Op>, NativeError>)
    ensures
        match r {
            Ok(Some(op)) => line_entry(line@) == Ok::<Option<OpView>, NativeError>(Some(op@)),
            Ok(None) => line_entry(line@) == Ok::<Option<OpView>, NativeError>(None),
            Err(e) => line_entry(line@) == Err::<Option<OpView>, NativeError>(e),
        },
{
    reveal(line_entry);
    let mut a: usize = 0;
    assert(line@.skip(0) =~= line@);
    while a < line.len() && char_is_ws(line[a])
        invariant
            0 <= a <= line.len(),
            trim_start(line@.skip(a as int)) == trim_start(line@),
        decreases line.len() - a,
    {
        assert(line@.skip(a as int).drop_first() =~= line@.skip(a + 1));
        a += 1;
    }
    proof {
        let t = line@.skip(a as int);
        assert(!(t.len() > 0 && is_ws(t[0])));
        assert(trim_start(t) == t);
    }
    if a >= line.len() || line[a] == '#' {
        return Ok(None);
    }
    let text = string_of(line);
    let tokens = match tokenize(text.as_str()) {
        Ok(t) => t,
        Err(e) => {
            return Err(NativeError::Lex(e));
        },
    };
    if tokens.len() == 0 {
        return Ok(None);
    }
    match parse_op_line(tokens.as_slice()) {
        Ok(op) => Ok(Some(op)),
        Err(e) => Err(e),
    }
}

/// The pieces of `s[..k]` that a `\n` has closed.
pub open spec fn closed_pieces(s: Seq<char>, k: int) -> Seq<Seq<char>> {
    split_at_nl(s.take(k)).drop_last()
}

proof fn lemma_split_nonempty(s: Seq<char>)
    ensures
        split_at_nl(s).len() >= 1,
    decreases s.len(),
{
    if s.len() > 0 {
        lemma_split_nonempty(s.drop_last());
    }
}

/// Closed pieces only grow.
proof fn lemma_closed_pieces_prefix(s: Seq<char>, i: int, j: int)
    requires
        0 <= i <= j <= s.len(),
    ensures
        closed_pieces(s, i).len() <= closed_pieces(s, j).len(),
        closed_pieces(s, j).take(closed_pieces(s, i).len() as int) == closed_pieces(s, i),
    decreases j - i,
{
    if i == j {
        assert(closed_pieces(s, j).take(closed_pieces(s, i).len() as int) =~= closed_pieces(s, i));
    } else {
        lemma_closed_pieces_prefix(s, i, j - 1);
        let t = s.take(j);
        assert(t.drop_last() =~= s.take(j - 1));
        lemma_split_nonempty(s.take(j - 1));
        let a = closed_pieces(s, j - 1);
        let b = closed_pieces(s, j);
        if s[j - 1] == '\n' {
            assert(b =~= split_at_nl(s.take(j - 1)));
            assert(b.take(a.len() as int) =~= a);
        } else {
            let p = split_at_nl(s.take(j - 1));
            assert(b =~= p.update(p.len() - 1, p.last().push(s[j - 1])).drop_last());
            assert(b =~= a);
        }
        let c = closed_pieces(s, i);
        assert(b.take(c.len() as int) =~= a.take(c.len() as int));
    }
}

/// Once the operations of a prefix of the lines fail, those of all the
/// lines fail the same way.
proof fn lemma_manifest_stops(lines: Seq<Seq<char>>, k: int)
    requires
        0 <= k <= lines.len(),
        manifest_ops(lines.take(k)) is Err,
    ensures
        manifest_ops(lines) == manifest_ops(lines.take(k)),
    decreases lines.len() - k,
{
    if k < lines.len() {
        assert(lines.take(k + 1).drop_last() =~= lines.take(k));
        lemma_manifest_stops(lines, k + 1);
    } else {
        assert(lines.take(k) =~= lines);
    }
}

/// Reads a native manifest: one operation per line, `#` comments and
/// blank lines skipped; the first bad line stops the reading.
pub fn parse(src: &str) -> (r: Result<Vec<Op>, ParseError>)
    ensures
        match r {
            Ok(v) => manifest_ops(text_lines(src@)) == Ok::<Seq<OpView>, ParseError>(op_views(v@)),
            Err(e) => manifest_ops(text_lines(src@)) == Err::<Seq<OpView>, ParseError>(e),
        },
{
    let cs = chars_of(src);
    let ghost sv = cs@;
    let ghost all = text_lines(sv);
    let mut ops: Vec<Op> = Vec::new();
    let mut cur: Vec<char> = Vec::new();
    let mut done: usize = 0;
    let mut i: usize = 0;
    assert(sv.take(0) =~= Seq::<char>::empty());
    assert(op_views(ops@) =~= Seq::<OpView>::empty());
    proof {
        lemma_split_nonempty(sv);
        lemma_closed_pieces_prefix(sv, 0, sv.len() as int);
        assert(sv.take(sv.len() as int) =~= sv);
        assert(closed_pieces(sv, 0).len() == 0);
        assert(closed_pieces(sv, 0).map_values(|l: Seq<char>| strip_cr(l)) =~= Seq::<Seq<char>>::empty());
    }
    while i < cs.len()
        invariant
            sv == cs@,
            sv == src@,
            all == text_lines(sv),
            0 <= i <= cs.len(),
            closed_pieces(sv, i as int).len() == done,
            split_at_nl(sv.take(i as int)).last() == cur@,
            split_at_nl(sv.take(i as int)).len() == done + 1,
            done <= i,
            done + cur@.len() <= i,
            manifest_ops(closed_pieces(sv, i as int).map_values(|l: Seq<char>| strip_cr(l))) == Ok::<
                Seq<OpView>,
                ParseError,
            >(op_views(ops@)),
        decreases cs.len() - i,
    {
        let c = cs[i];
        let ghost p = split_at_nl(sv.take(i as int));
        assert(sv.take(i + 1).drop_last() =~= sv.take(i as int));
        assert(sv.take(i + 1).last() == c);
        if c == '\n' {
            let mut line = cur;
            if line.len() > 0 && line[line.len() - 1] == '\r' {
                line.pop();
            }
            let ghost lv = line@;
            assert(lv == strip_cr(p.last())) by {
                if p.last().len() > 0 && p.last().last() == '\r' {
                    assert(lv =~= p.last().drop_last());
                }
            }
            let ghost prev = closed_pieces(sv, i as int).map_values(|l: Seq<char>| strip_cr(l));
            let ghost next = closed_pieces(sv, i + 1).map_values(|l: Seq<char>| strip_cr(l));
            proof {
                assert(closed_pieces(sv, i + 1) =~= p);
                assert(p =~= closed_pieces(sv, i as int).push(p.last()));
                assert(next =~= prev.push(lv));
                assert(next.drop_last() =~= prev);
            }
            let ghost old_views = op_views(ops@);
            assert(manifest_ops(next) == match line_entry(lv) {
                Ok(None) => Ok(old_views),
                Ok(Some(op)) => Ok(old_views.push(op)),
                Err(kind) => Err(ParseError { line: next.len() as usize, kind }),
            });
            match parse_line(line.as_slice()) {
                Ok(Some(op)) => {
                    ops.push(op);
                    assert(op_views(ops@) =~= old_views.push(op@));
                },
                Ok(None) => {},
                Err(kind) => {
                    proof {
                        lemma_closed_pieces_prefix(sv, i + 1, sv.len() as int);
                        assert(sv.take(sv.len() as int) =~= sv);
                        let body = closed_pieces(sv, sv.len() as int).map_values(
                            |l: Seq<char>| strip_cr(l),
                        );
                        assert(all.take(body.len() as int) =~= body);
                        assert(body.take(next.len() as int) =~= next);
                        assert(all.take(next.len() as int) =~= next);
                        lemma_manifest_stops(all, next.len() as int);
                    }
                    return Err(ParseError { line: done + 1, kind });
                },
            }
            cur = Vec::new();
            done += 1;
        } else {
            cur.push(c);
            proof {
                assert(split_at_nl(sv.take(i + 1)) == p.update(p.len() - 1, p.last().push(c)));
                assert(closed_pieces(sv, i + 1) =~= closed_pieces(sv, i as int));
            }
        }
        i += 1;
    }
    assert(sv.take(cs.len() as int) =~= sv);
    let ghost body = closed_pieces(sv, sv.len() as int).map_values(|l: Seq<char>| strip_cr(l));
    assert(split_at_nl(sv).drop_last().map_values(|l: Seq<char>| strip_cr(l)) =~= body);
    if cur.len() > 0 {
        let ghost old_views = op_views(ops@);
        assert(all.drop_last() =~= body);
        assert(all.last() == cur@);
        assert(manifest_ops(all) == match line_entry(cur@) {
            Ok(None) => Ok(old_views),
            Ok(Some(op)) => Ok(old_views.push(op)),
            Err(kind) => Err(ParseError { line: all.len() as usize, kind }),
        });
        match parse_line(cur.as_slice()) {
            Ok(Some(op)) => {
                ops.push(op);
                assert(op_views(ops@) =~= old_views.push(op@));
            },
            Ok(None) => {
                assert(all.drop_last() =~= body);
            },
            Err(kind) => {
                assert(all.drop_last() =~= body);
                return Err(ParseError { line: done + 1, kind });
            },
        }
    } else {
        assert(all =~= body);
    }
    Ok(ops)
}

} // verus!
