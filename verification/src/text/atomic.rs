//! Names around an atomic write.
//!
//! A file is replaced by writing a temporary file beside it and renaming it
//! over the target (the application's part); a backup goes to the target's
//! name with its extension replaced by `bak`.

use vstd::prelude::*;

use crate::apply::detect::{last_dot, last_slash, lemma_last_dot, lemma_last_slash};
use crate::text::chars::{chars_between, chars_of, string_of};

verus! {

/// Why an atomic write failed.
#[derive(Debug, Clone, PartialEq, Eq)]
pub enum AtomicError {
    /// Writing the temporary file failed.
    Io { path: String, reason: String },
    /// The target's directory does not exist.
    NoParent(String),
    /// Copying the target to its backup failed.
    Backup { path: String, reason: String },
    /// Renaming the temporary file over the target failed.
    Persist { path: String, reason: String },
}

/// Where the last named component of `p[..end]` lies (`/`-separated,
/// empty pieces and `.` skipped).
pub open spec fn last_span(p: Seq<char>, end: int) -> Option<(int, int)>
    decreases end,
{
    if end <= 0 || end > p.len() {
        None
    } else {
        let cut = last_slash(p.take(end));
        proof {
            lemma_last_slash(p.take(end));
        }
        let piece = p.subrange(cut + 1, end);
        if piece.len() == 0 || piece == "."@ {
            if cut < 0 {
                None
            } else {
                last_span(p, cut)
            }
        } else {
            Some((cut + 1, end))
        }
    }
}

/// The path with its extension replaced by `bak` (`Path::with_extension`):
/// the path up to the file name's stem, then `.bak`; unchanged when it has
/// no file name.
pub open spec fn bak_path_of(p: Seq<char>) -> Seq<char> {
    match last_span(p, p.len() as int) {
        None => p,
        Some(span) => {
            let name = p.subrange(span.0, span.1);
            if name == ".."@ {
                p
            } else {
                let d = last_dot(name);
                let stem = if d <= 0 {
                    name.len() as int
                } else {
                    d
                };
                p.take(span.0 + stem) + ".bak"@
            }
        },
    }
}

/// Where the last named component of `cs` lies.
fn last_component_span(cs: &[char]) -> (r: Option<(usize, usize)>)
    ensures
        match r {
            Some((a, b)) => last_span(cs@, cs@.len() as int) == Some((a as int, b as int)) && a < b
                <= cs.len(),
            None => last_span(cs@, cs@.len() as int) is None,
        },
{
    let mut end = cs.len();
    loop
        invariant
            end <= cs.len(),
            last_span(cs@, end as int) == last_span(cs@, cs@.len() as int),
        decreases end,
    {
        if end == 0 {
            return None;
        }
        let ghost q = cs@.take(end as int);
        let mut j = end;
        while j > 0 && cs[j - 1] != '/'
            invariant
                j <= end <= cs.len(),
                q == cs@.take(end as int),
                forall|k: int| j <= k < end ==> q[k] != '/',
            decreases j,
        {
            j -= 1;
        }
        proof {
            lemma_last_slash(q);
            if j > 0 {
                assert(q[j - 1] == '/');
            }
            assert(last_slash(q) == j - 1);
        }
        let piece = chars_between(cs, j, end);
        assert(piece@ =~= cs@.subrange(j as int, end as int));
        let dot_only = piece.len() == 1 && piece[0] == '.';
        assert(dot_only == (piece@ == "."@)) by {
            reveal_strlit(".");
            if piece@ == "."@ {
                assert(piece@[0] == '.');
            }
            if dot_only {
                assert(piece@ =~= "."@);
            }
        }
        if piece.len() > 0 && !dot_only {
            return Some((j, end));
        }
        if j == 0 {
            return None;
        }
        end = j - 1;
    }
}

/// The backup path of `target` (see [`bak_path_of`]).
pub fn bak_path(target: &str) -> (r: String)
    ensures
        r@ == bak_path_of(target@),
{
    let cs = chars_of(target);
    let (a, b) = match last_component_span(cs.as_slice()) {
        None => {
            return string_of(cs.as_slice());
        },
        Some(x) => x,
    };
    let name = chars_between(cs.as_slice(), a, b);
    if crate::apply::detect::chars_are(name.as_slice(), "..") {
        return string_of(cs.as_slice());
    }
    let mut j = name.len();
    while j > 0 && name[j - 1] != '.'
        invariant
            j <= name.len(),
            forall|k: int| j <= k < name.len() ==> name@[k] != '.',
        decreases j,
    {
        j -= 1;
    }
    proof {
        lemma_last_dot(name@);
        if j > 0 {
            assert(name@[j - 1] == '.');
        }
        assert(last_dot(name@) == j - 1);
    }
    let stem: usize = if j <= 1 {
        name.len()
    } else {
        j - 1
    };
    let mut out = chars_between(cs.as_slice(), 0, a + stem);
    let ext = chars_of(".bak");
    let mut e = ext;
    out.append(&mut e);
    proof {
        assert(cs@.subrange(0, a + stem) =~= cs@.take(a + stem));
    }
    string_of(out.as_slice())
}

} // verus!
