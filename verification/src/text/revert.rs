//! Running an operation backwards.
//!
//! The same arguments with `--revert` undo what they do without it; where an
//! operation cannot be undone from its arguments, it is an error. Each
//! operation computes its own reverse; this module holds the shared
//! vocabulary and the inversion of a pattern replacement.

use vstd::prelude::*;

use crate::text::chars::{chars_of, string_of};
use crate::text::pattern::{escaped, is_meta_char, regex_escape};

verus! {

/// Why an operation cannot run backwards.
#[derive(Debug, PartialEq, Eq)]
pub enum RevertError {
    /// The arguments carry nothing to invert with.
    NotInvertible(String),
    /// The inverse would not restore every byte.
    NotStrictlyInvertible(String),
    /// What the reverse run expects to find is not there.
    PreconditionMismatch(String),
}

impl RevertError {
    /// The error as a line of text.
    pub fn message(&self) -> (r: String)
        ensures
            r@ == match self {
                RevertError::NotInvertible(s) => "revert not possible: "@ + s@,
                RevertError::NotStrictlyInvertible(s) => "revert not strictly invertible: "@ + s@,
                RevertError::PreconditionMismatch(s) => "revert pre-condition mismatch: "@ + s@,
            },
    {
        let (head, tail) = match self {
            RevertError::NotInvertible(s) => (chars_of("revert not possible: "), chars_of(s.as_str())),
            RevertError::NotStrictlyInvertible(s) => (
                chars_of("revert not strictly invertible: "),
                chars_of(s.as_str()),
            ),
            RevertError::PreconditionMismatch(s) => (
                chars_of("revert pre-condition mismatch: "),
                chars_of(s.as_str()),
            ),
        };
        let mut all = head;
        let mut t = tail;
        all.append(&mut t);
        string_of(all.as_slice())
    }
}

/// The direction an operation runs in.
#[derive(Debug, Clone, Copy, PartialEq, Eq, Structural)]
pub enum Direction {
    Forward,
    Revert,
}

impl Direction {
    /// `Revert` for a set `--revert` flag, `Forward` otherwise.
    pub fn from_flag(revert: bool) -> (r: Direction)
        ensures
            r == (if revert {
                Direction::Revert
            } else {
                Direction::Forward
            }),
    {
        if revert {
            Direction::Revert
        } else {
            Direction::Forward
        }
    }

    /// Whether this is the backward direction.
    pub fn is_revert(self) -> (r: bool)
        ensures
            r == (self == Direction::Revert),
    {
        match self {
            Direction::Revert => true,
            Direction::Forward => false,
        }
    }
}

/// The pair `(escape(B), A)` for pattern `A` and replacement `B`.
pub open spec fn inverted(pattern: Seq<char>, repl: Seq<char>) -> (Seq<char>, Seq<char>) {
    (escaped(repl), pattern)
}

/// Turns `pattern A, replacement B` into `pattern escape(B), replacement A`:
/// the substitution that undoes the first one where `B` matches literally.
pub fn invert_pattern_replacement(pattern: &str, repl: &str) -> (r: (String, String))
    ensures
        (r.0@, r.1@) == inverted(pattern@, repl@),
{
    (regex_escape(repl), pattern.to_owned())
}

/// Text without regex meta characters.
pub open spec fn meta_free(s: Seq<char>) -> bool {
    forall|i: int| 0 <= i < s.len() ==> !is_meta_char(#[trigger] s[i])
}

/// Escaping leaves text without meta characters unchanged.
pub proof fn lemma_escape_meta_free(s: Seq<char>)
    requires
        meta_free(s),
    ensures
        escaped(s) == s,
    decreases s.len(),
{
    if s.len() > 0 {
        assert(meta_free(s.drop_first())) by {
            assert forall|i: int| 0 <= i < s.drop_first().len() implies !is_meta_char(
                #[trigger] s.drop_first()[i],
            ) by {
                assert(s.drop_first()[i] == s[i + 1]);
            }
        }
        lemma_escape_meta_free(s.drop_first());
        assert(seq![s[0]] + s.drop_first() =~= s);
    }
}

/// Inverting a pattern replacement twice gives back the pattern and the
/// replacement, when neither holds a regex meta character.
pub proof fn lemma_double_invert(pattern: Seq<char>, repl: Seq<char>)
    requires
        meta_free(pattern),
        meta_free(repl),
    ensures
        inverted(inverted(pattern, repl).0, inverted(pattern, repl).1) == (pattern, repl),
{
    lemma_escape_meta_free(pattern);
    lemma_escape_meta_free(repl);
}

} // verus!
