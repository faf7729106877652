//! Which manifest format to read: the one `--format` names, else the one
//! the file extension suggests tried first, then the others.

use vstd::prelude::*;

use crate::text::chars::{chars_between, chars_of};

verus! {

/// A manifest format.
#[derive(Debug, Clone, Copy, PartialEq, Eq, Structural)]
pub enum Format {
    Native,
    Json,
    Yaml,
}

/// `c` in ASCII lower case.
pub open spec fn ascii_lower(c: char) -> char {
    if 'A' <= c && c <= 'Z' {
        ((c as u32) + 32) as char
    } else {
        c
    }
}

/// `s` in ASCII lower case (`str::to_ascii_lowercase`).
pub open spec fn lower(s: Seq<char>) -> Seq<char> {
    s.map_values(|c: char| ascii_lower(c))
}

/// `s` in ASCII lower case.
pub fn to_ascii_lower(s: &str) -> (r: Vec<char>)
    ensures
        r@ == lower(s@),
{
    let cs = chars_of(s);
    let mut out: Vec<char> = Vec::new();
    let mut i: usize = 0;
    while i < cs.len()
        invariant
            cs@ == s@,
            0 <= i <= cs.len(),
            out@ == lower(cs@.take(i as int)),
        decreases cs.len() - i,
    {
        let c = cs[i];
        let l = if 'A' <= c && c <= 'Z' {
            char_from_u32_ascii((c as u32) + 32)
        } else {
            c
        };
        out.push(l);
        assert(lower(cs@.take(i + 1)) =~= lower(cs@.take(i as int)).push(ascii_lower(c)));
        i += 1;
    }
    assert(cs@.take(cs.len() as int) =~= cs@);
    out
}

/// The ASCII letter with code `v` (`v` is a lower-case letter's code).
fn char_from_u32_ascii(v: u32) -> (r: char)
    requires
        97 <= v <= 122,
    ensures
        r == v as char,
{
    let b = v as u8;
    b as char
}

/// Whether `a` spells `lit`.
pub fn chars_are(a: &[char], lit: &str) -> (r: bool)
    ensures
        r == (a@ == lit@),
{
    let l = chars_of(lit);
    if a.len() != l.len() {
        return false;
    }
    let mut i: usize = 0;
    while i < a.len()
        invariant
            l@ == lit@,
            a.len() == l.len(),
            0 <= i <= a.len(),
            forall|j: int| 0 <= j < i ==> a@[j] == l@[j],
        decreases a.len() - i,
    {
        if a[i] != l[i] {
            return false;
        }
        i += 1;
    }
    assert(a@ =~= l@);
    true
}

/// Why a `--format` value was refused: the value, lower-cased.
#[derive(Debug, Clone, PartialEq, Eq)]
pub struct UnknownFormat {
    pub name: String,
}

/// The format a `--format` value names, case aside.
pub open spec fn format_named(name: Seq<char>) -> Option<Format> {
    if name == "native"@ {
        Some(Format::Native)
    } else if name == "json"@ {
        Some(Format::Json)
    } else if name == "yaml"@ || name == "yml"@ {
        Some(Format::Yaml)
    } else {
        None
    }
}

/// Parses a `--format` value (`native`, `json`, `yaml` or `yml`, in any case).
pub fn parse_format_arg(s: &str) -> (r: Result<Format, UnknownFormat>)
    ensures
        match r {
            Ok(f) => format_named(lower(s@)) == Some(f),
            Err(e) => format_named(lower(s@)) is None && e.name@ == lower(s@),
        },
{
    let l = to_ascii_lower(s);
    if chars_are(l.as_slice(), "native") {
        Ok(Format::Native)
    } else if chars_are(l.as_slice(), "json") {
        Ok(Format::Json)
    } else if chars_are(l.as_slice(), "yaml") || chars_are(l.as_slice(), "yml") {
        Ok(Format::Yaml)
    } else {
        Err(UnknownFormat { name: crate::text::chars::string_of(l.as_slice()) })
    }
}

/// The components of a path that name something: its `/`-separated pieces
/// without the empty ones and `.`.
pub open spec fn named_components(p: Seq<char>) -> Seq<Seq<char>>
    decreases p.len(),
{
    if p.len() == 0 {
        Seq::empty()
    } else {
        let cut = last_slash(p);
        proof {
            lemma_last_slash(p);
        }
        let head = if cut < 0 {
            Seq::empty()
        } else {
            p.subrange(0, cut)
        };
        let piece = p.subrange(cut + 1, p.len() as int);
        let rest = named_components(head);
        if piece.len() == 0 || piece == "."@ {
            rest
        } else {
            rest.push(piece)
        }
    }
}

/// Index of the last `/` in `p`, or -1.
pub open spec fn last_slash(p: Seq<char>) -> int
    decreases p.len(),
{
    if p.len() == 0 {
        -1
    } else if p.last() == '/' {
        p.len() - 1
    } else {
        last_slash(p.drop_last())
    }
}

/// `last_slash` is -1 or an index of `p` holding `/`, with none after it.
pub proof fn lemma_last_slash(p: Seq<char>)
    ensures
        -1 <= last_slash(p) < p.len(),
        last_slash(p) >= 0 ==> p[last_slash(p)] == '/',
        forall|k: int| last_slash(p) < k < p.len() ==> p[k] != '/',
    decreases p.len(),
{
    if p.len() > 0 && p.last() != '/' {
        lemma_last_slash(p.drop_last());
        assert forall|k: int| last_slash(p) < k < p.len() implies p[k] != '/' by {
            if k < p.len() - 1 {
                assert(p.drop_last()[k] == p[k]);
            }
        }
    }
}

/// `last_dot` is -1 or an index of `s` holding `.`, with none after it.
pub proof fn lemma_last_dot(s: Seq<char>)
    ensures
        -1 <= last_dot(s) < s.len(),
        last_dot(s) >= 0 ==> s[last_dot(s)] == '.',
        forall|k: int| last_dot(s) < k < s.len() ==> s[k] != '.',
    decreases s.len(),
{
    if s.len() > 0 && s.last() != '.' {
        lemma_last_dot(s.drop_last());
        assert forall|k: int| last_dot(s) < k < s.len() implies s[k] != '.' by {
            if k < s.len() - 1 {
                assert(s.drop_last()[k] == s[k]);
            }
        }
    }
}

/// The file name of a path (`Path::file_name`): its last named component,
/// unless that is `..`.
pub open spec fn file_name(p: Seq<char>) -> Option<Seq<char>> {
    let cs = named_components(p);
    if cs.len() == 0 || cs.last() == ".."@ {
        None
    } else {
        Some(cs.last())
    }
}

/// Index of the last `.` in `s`, or -1.
pub open spec fn last_dot(s: Seq<char>) -> int
    decreases s.len(),
{
    if s.len() == 0 {
        -1
    } else if s.last() == '.' {
        s.len() - 1
    } else {
        last_dot(s.drop_last())
    }
}

/// The extension of a path (`Path::extension`): what follows the last `.`
/// of its file name, unless that `.` starts the name.
pub open spec fn extension(p: Seq<char>) -> Option<Seq<char>> {
    match file_name(p) {
        None => None,
        Some(n) => {
            let d = last_dot(n);
            if d <= 0 {
                None
            } else {
                Some(n.subrange(d + 1, n.len() as int))
            }
        },
    }
}

/// The format a manifest path suggests.
pub open spec fn format_for_path(path: Option<Seq<char>>) -> Format {
    match path {
        None => Format::Native,
        Some(p) => match extension(p) {
            Some(e) => if lower(e) == "json"@ || lower(e) == "json5"@ {
                Format::Json
            } else if lower(e) == "yaml"@ || lower(e) == "yml"@ {
                Format::Yaml
            } else {
                Format::Native
            },
            None => Format::Native,
        },
    }
}

/// The last named component of `p`, if any.
pub open spec fn last_named(p: Seq<char>) -> Option<Seq<char>> {
    let cs = named_components(p);
    if cs.len() == 0 {
        None
    } else {
        Some(cs.last())
    }
}

/// Position of the last `/` in `cs[..end]`.
fn find_last_slash(cs: &[char], end: usize) -> (r: Option<usize>)
    requires
        end <= cs.len(),
    ensures
        match r {
            Some(j) => last_slash(cs@.take(end as int)) == j,
            None => last_slash(cs@.take(end as int)) == -1,
        },
{
    let ghost q = cs@.take(end as int);
    let mut j = end;
    while j > 0 && cs[j - 1] != '/'
        invariant
            j <= end <= cs.len(),
            q == cs@.take(end as int),
            forall|k: int| j <= k < end ==> q[k] != '/',
        decreases j,
    {
        j -= 1;
    }
    proof {
        lemma_last_slash(q);
        if j > 0 {
            assert(q[j - 1] == '/');
        }
    }
    if j == 0 {
        None
    } else {
        Some(j - 1)
    }
}

/// Position of the last `.` in `cs`.
fn find_last_dot(cs: &[char]) -> (r: Option<usize>)
    ensures
        match r {
            Some(j) => last_dot(cs@) == j,
            None => last_dot(cs@) == -1,
        },
{
    let mut j = cs.len();
    while j > 0 && cs[j - 1] != '.'
        invariant
            j <= cs.len(),
            forall|k: int| j <= k < cs.len() ==> cs@[k] != '.',
        decreases j,
    {
        j -= 1;
    }
    proof {
        lemma_last_dot(cs@);
        if j > 0 {
            assert(cs@[j - 1] == '.');
        }
    }
    if j == 0 {
        None
    } else {
        Some(j - 1)
    }
}

/// The last named component of `cs`.
fn last_component(cs: &[char]) -> (r: Option<Vec<char>>)
    ensures
        match r {
            Some(v) => last_named(cs@) == Some(v@),
            None => last_named(cs@) is None,
        },
{
    let mut end = cs.len();
    assert(cs@.take(end as int) =~= cs@);
    loop
        invariant
            end <= cs.len(),
            last_named(cs@.take(end as int)) == last_named(cs@),
        decreases end,
    {
        if end == 0 {
            assert(cs@.take(0) =~= Seq::<char>::empty());
            return None;
        }
        let cut = find_last_slash(cs, end);
        let ghost q = cs@.take(end as int);
        proof {
            lemma_last_slash(q);
        }
        let start: usize = match cut {
            Some(j) => j + 1,
            None => 0,
        };
        let piece = chars_between(cs, start, end);
        assert(piece@ =~= q.subrange(last_slash(q) + 1, q.len() as int));
        let dot_only = piece.len() == 1 && piece[0] == '.';
        assert(dot_only == (piece@ == "."@)) by {
            reveal_strlit(".");
            if piece@ == "."@ {
                assert(piece@[0] == '.');
            }
            if dot_only {
                assert(piece@ =~= "."@);
            }
        }
        if piece.len() > 0 && !dot_only {
            return Some(piece);
        }
        match cut {
            None => {
                assert(named_components(q) =~= named_components(Seq::<char>::empty()));
                return None;
            },
            Some(j) => {
                assert(cs@.take(j as int) =~= q.subrange(0, j as int));
                end = j;
            },
        }
    }
}

/// Whether the lower-cased extension `e` is one of `a`, `b`.
fn ext_is(e: &[char], a: &str, b: &str) -> (r: bool)
    ensures
        r == (e@ == a@ || e@ == b@),
{
    chars_are(e, a) || chars_are(e, b)
}

/// The format a manifest path suggests: `.json` and `.json5` JSON, `.yaml`
/// and `.yml` YAML (case aside), anything else, or no path, native.
pub fn preferred_from_ext(path: Option<&str>) -> (r: Format)
    ensures
        r == format_for_path(
            match path {
                Some(p) => Some(p@),
                None => None,
            },
        ),
{
    let p = match path {
        Some(p) => p,
        None => {
            return Format::Native;
        },
    };
    let cs = chars_of(p);
    let name = match last_component(cs.as_slice()) {
        Some(n) => n,
        None => {
            return Format::Native;
        },
    };
    if chars_are(name.as_slice(), "..") {
        return Format::Native;
    }
    let d = match find_last_dot(name.as_slice()) {
        Some(d) => d,
        None => {
            return Format::Native;
        },
    };
    if d == 0 {
        return Format::Native;
    }
    proof {
        lemma_last_dot(name@);
    }
    let ext = chars_between(name.as_slice(), d + 1, name.len());
    let ghost e = ext@;
    let mut low: Vec<char> = Vec::new();
    let mut i: usize = 0;
    while i < ext.len()
        invariant
            0 <= i <= ext.len(),
            low@ == lower(ext@.take(i as int)),
        decreases ext.len() - i,
    {
        let c = ext[i];
        let l = if 'A' <= c && c <= 'Z' {
            char_from_u32_ascii((c as u32) + 32)
        } else {
            c
        };
        low.push(l);
        assert(lower(ext@.take(i + 1)) =~= lower(ext@.take(i as int)).push(ascii_lower(c)));
        i += 1;
    }
    assert(ext@.take(ext.len() as int) =~= ext@);
    if ext_is(low.as_slice(), "json", "json5") {
        Format::Json
    } else if ext_is(low.as_slice(), "yaml", "yml") {
        Format::Yaml
    } else {
        Format::Native
    }
}

/// The order in which formats are tried: the preferred one, then the rest.
pub open spec fn format_order(preferred: Format) -> Seq<Format> {
    match preferred {
        Format::Json => seq![Format::Json, Format::Yaml, Format::Native],
        Format::Yaml => seq![Format::Yaml, Format::Json, Format::Native],
        Format::Native => seq![Format::Native, Format::Json, Format::Yaml],
    }
}

/// The order in which formats are tried (see [`format_order`]).
pub fn order_for(preferred: Format) -> (r: Vec<Format>)
    ensures
        r@ == format_order(preferred),
{
    let v = match preferred {
        Format::Json => vec![Format::Json, Format::Yaml, Format::Native],
        Format::Yaml => vec![Format::Yaml, Format::Json, Format::Native],
        Format::Native => vec![Format::Native, Format::Json, Format::Yaml],
    };
    assert(v@ =~= format_order(preferred));
    v
}

} // verus!
