//! Unified diffs of a buffer before and after an edit, and their colouring.
//!
//! ```text
//! --- <path>\t(before)
//! +++ <path>\t(after)
//! @@ -30,3 +30,2 @@
//! -old line
//! +new line
//! ```
//!
//! Which lines changed is computed by the `similar` crate, on the buffers
//! decoded as UTF-8 (invalid sequences replaced); the library frames its
//! hunks.

use vstd::prelude::*;

use crate::apply::commit::split_at_nl;
use crate::text::chars::{chars_of, has_prefix, string_of};
use crate::text::pattern::{lossy_string, utf8_lossy};

verus! {

/// What a diff line does.
#[derive(Debug, Clone, Copy, PartialEq, Eq, Structural)]
pub enum ChangeKind {
    Delete,
    Insert,
    Equal,
}

/// One line of a hunk.
pub struct DiffChange {
    pub kind: ChangeKind,
    /// The line, with its `\n` where it has one.
    pub value: String,
}

/// One hunk: its `@@ ... @@` header and its lines.
pub struct DiffHunk {
    pub header: String,
    pub changes: Vec<DiffChange>,
}

/// A hunk as values.
pub type HunkView = (Seq<char>, Seq<(ChangeKind, Seq<char>)>);

/// The hunks as values.
pub open spec fn hunks_view(hs: Seq<DiffHunk>) -> Seq<HunkView> {
    hs.map_values(
        |h: DiffHunk| (h.header@, h.changes@.map_values(|c: DiffChange| (c.kind, c.value@))),
    )
}

/// The hunks of a line diff of `old` and `new` with `context` lines of
/// context, as `similar`'s unified diff gives them.
pub uninterp spec fn line_diff_hunks(old: Seq<char>, new: Seq<char>, context: usize) -> Seq<HunkView>;

/// `similar::TextDiff::from_lines` and its unified diff with
/// `context_radius(context)`: each hunk's header and lines. Claims the
/// result is [`line_diff_hunks`] of the two texts and the context. The
/// grouping of the diff into hunks doubles `context` without an overflow
/// check, so a context beyond half of `usize::MAX` is left out.
#[verifier::external_body]
fn line_diff(old: &str, new: &str, context: usize) -> (r: Vec<DiffHunk>)
    requires
        context <= usize::MAX / 2,
    ensures
        hunks_view(r@) == line_diff_hunks(old@, new@, context),
{
    let diff = similar::TextDiff::from_lines(old, new);
    let mut udiff = diff.unified_diff();
    udiff.context_radius(context).iter_hunks().map(|h| DiffHunk {
        header: h.header().to_string(),
        changes: h.iter_changes().map(|c| DiffChange {
            kind: match c.tag() {
                similar::ChangeTag::Delete => ChangeKind::Delete,
                similar::ChangeTag::Insert => ChangeKind::Insert,
                similar::ChangeTag::Equal => ChangeKind::Equal,
            },
            value: c.value().to_string(),
        }).collect(),
    }).collect()
}

/// The sign that starts a diff line.
pub open spec fn sign(k: ChangeKind) -> char {
    match k {
        ChangeKind::Delete => '-',
        ChangeKind::Insert => '+',
        ChangeKind::Equal => ' ',
    }
}

/// The text of one diff line: sign and line, and a note when the line
/// has no `\n`.
pub open spec fn change_text(c: (ChangeKind, Seq<char>)) -> Seq<char> {
    seq![sign(c.0)] + c.1 + if c.1.len() > 0 && c.1.last() == '\n' {
        Seq::empty()
    } else {
        "\n\\ No newline at end of file\n"@
    }
}

/// The text of one hunk.
pub open spec fn hunk_text(h: HunkView) -> Seq<char> {
    h.0 + seq!['\n'] + h.1.map_values(|c: (ChangeKind, Seq<char>)| change_text(c)).flatten()
}

/// The text of a diff of `path` with hunks `hs`.
pub open spec fn diff_text(path: Seq<char>, hs: Seq<HunkView>) -> Seq<char> {
    "--- "@ + path + "\t(before)\n"@ + "+++ "@ + path + "\t(after)\n"@ + hs.map_values(
        |h: HunkView| hunk_text(h),
    ).flatten()
}

/// The unified diff of `before` and `after` (with `context` lines of
/// context): empty when they are equal.
pub open spec fn unified_diff_text(path: Seq<char>, before: Seq<u8>, after: Seq<u8>, context: usize) -> Seq<
    char,
> {
    if before == after {
        Seq::empty()
    } else {
        diff_text(path, line_diff_hunks(utf8_lossy(before), utf8_lossy(after), context))
    }
}

/// Appends the characters of `s` to `out`.
fn push_str_chars(out: &mut Vec<char>, s: &str)
    ensures
        final(out)@ == old(out)@ + s@,
{
    let cs = chars_of(s);
    let mut i: usize = 0;
    while i < cs.len()
        invariant
            cs@ == s@,
            0 <= i <= cs.len(),
            out@ == old(out)@ + cs@.take(i as int),
        decreases cs.len() - i,
    {
        out.push(cs[i]);
        assert(cs@.take(i + 1) =~= cs@.take(i as int).push(cs@[i as int]));
        i += 1;
    }
    assert(cs@.take(cs.len() as int) =~= cs@);
}

proof fn lemma_flatten_push_chars(s: Seq<Seq<char>>, x: Seq<char>)
    ensures
        s.push(x).flatten() == s.flatten() + x,
{
    s.lemma_flatten_push(x);
}

/// Unified diff of `before` and `after` with `context` lines of context.
/// Different texts need a context of at most half of `usize::MAX`: the
/// diff doubles it.
pub fn unified_diff_with_context(path: &str, before: &[u8], after: &[u8], context: usize) -> (r:
    String)
    requires
        before@ == after@ || context <= usize::MAX / 2,
    ensures
        r@ == unified_diff_text(path@, before@, after@, context),
{
    if crate::apply::commit::bytes_equal(before, after) {
        return String::new();
    }
    let b = lossy_string(before);
    let a = lossy_string(after);
    let hunks = line_diff(b.as_str(), a.as_str(), context);
    let ghost hv = hunks_view(hunks@);
    let mut out: Vec<char> = Vec::new();
    push_str_chars(&mut out, "--- ");
    push_str_chars(&mut out, path);
    push_str_chars(&mut out, "\t(before)\n");
    push_str_chars(&mut out, "+++ ");
    push_str_chars(&mut out, path);
    push_str_chars(&mut out, "\t(after)\n");
    let ghost head = out@;
    let mut hi: usize = 0;
    assert(hv.take(0).map_values(|h: HunkView| hunk_text(h)) =~= Seq::<Seq<char>>::empty());
    while hi < hunks.len()
        invariant
            hv == hunks_view(hunks@),
            0 <= hi <= hunks.len(),
            out@ == head + hv.take(hi as int).map_values(|h: HunkView| hunk_text(h)).flatten(),
        decreases hunks.len() - hi,
    {
        let h = &hunks[hi];
        let ghost hview = hv[hi as int];
        let ghost before_h = out@;
        push_str_chars(&mut out, h.header.as_str());
        out.push('\n');
        let ghost cv = hview.1;
        let ghost mid = out@;
        let mut ci: usize = 0;
        assert(cv.take(0).map_values(|c: (ChangeKind, Seq<char>)| change_text(c)) =~= Seq::<
            Seq<char>,
        >::empty());
        while ci < h.changes.len()
            invariant
                cv == h.changes@.map_values(|c: DiffChange| (c.kind, c.value@)),
                0 <= ci <= h.changes.len(),
                out@ == mid + cv.take(ci as int).map_values(
                    |c: (ChangeKind, Seq<char>)| change_text(c),
                ).flatten(),
            decreases h.changes.len() - ci,
        {
            let c = &h.changes[ci];
            let ghost prev = out@;
            let sc = match c.kind {
                ChangeKind::Delete => '-',
                ChangeKind::Insert => '+',
                ChangeKind::Equal => ' ',
            };
            out.push(sc);
            push_str_chars(&mut out, c.value.as_str());
            let vc = chars_of(c.value.as_str());
            if !(vc.len() > 0 && vc[vc.len() - 1] == '\n') {
                push_str_chars(&mut out, "\n\\ No newline at end of file\n");
            }
            proof {
                let cc = cv[ci as int];
                assert(cc == (c.kind, c.value@));
                assert(out@ =~= prev + change_text(cc));
                let f = |x: (ChangeKind, Seq<char>)| change_text(x);
                assert(cv.take(ci + 1).map_values(f) =~= cv.take(ci as int).map_values(f).push(
                    f(cc),
                ));
                lemma_flatten_push_chars(cv.take(ci as int).map_values(f), f(cc));
            }
            ci += 1;
        }
        proof {
            assert(cv.take(h.changes.len() as int) =~= cv);
            assert(out@ =~= before_h + hunk_text(hview));
            let g = |x: HunkView| hunk_text(x);
            assert(hv.take(hi + 1).map_values(g) =~= hv.take(hi as int).map_values(g).push(g(hview)));
            lemma_flatten_push_chars(hv.take(hi as int).map_values(g), g(hview));
        }
        hi += 1;
    }
    assert(hv.take(hunks.len() as int) =~= hv);
    assert(out@ =~= diff_text(path@, hv));
    string_of(out.as_slice())
}

/// Unified diff of `before` and `after` with three lines of context (as
/// `diff -u`); empty when they are equal.
pub fn unified_diff(path: &str, before: &[u8], after: &[u8]) -> (r: String)
    ensures
        r@ == unified_diff_text(path@, before@, after@, 3),
{
    unified_diff_with_context(path, before, after, 3)
}

/// The lines of a text with their `\n` (`str::split_inclusive`): a last
/// line without `\n` counts when it is not empty.
pub open spec fn inclusive_lines(s: Seq<char>) -> Seq<Seq<char>> {
    let p = split_at_nl(s);
    let body = p.drop_last().map_values(|l: Seq<char>| l.push('\n'));
    if p.last().len() > 0 {
        body.push(p.last())
    } else {
        body
    }
}

/// The ANSI sequence that starts a coloured line, by how the line starts:
/// headers bold, hunk headers cyan, the no-newline note dim, added lines
/// green, removed lines red; `None` for any other line.
pub open spec fn line_color(l: Seq<char>) -> Option<Seq<char>> {
    if has_prefix(l, "--- "@) || has_prefix(l, "+++ "@) {
        Some("\x1b[1m"@)
    } else if has_prefix(l, "@@"@) {
        Some("\x1b[36m"@)
    } else if has_prefix(l, "\\ No newline"@) {
        Some("\x1b[2m"@)
    } else if has_prefix(l, "+"@) {
        Some("\x1b[32m"@)
    } else if has_prefix(l, "-"@) {
        Some("\x1b[31m"@)
    } else {
        None
    }
}

/// `l` without its trailing `\n`s.
pub open spec fn without_nl(l: Seq<char>) -> Seq<char>
    decreases l.len(),
{
    if l.len() > 0 && l.last() == '\n' {
        without_nl(l.drop_last())
    } else {
        l
    }
}

/// One line coloured: colour, line without its `\n`, reset, and the `\n`
/// back.
pub open spec fn colored_line(l: Seq<char>) -> Seq<char> {
    match line_color(l) {
        Some(c) => c + without_nl(l) + "\x1b[0m"@ + if l.len() > 0 && l.last() == '\n' {
            seq!['\n']
        } else {
            Seq::empty()
        },
        None => l,
    }
}

/// A whole diff coloured line by line.
pub open spec fn colored(s: Seq<char>) -> Seq<char> {
    inclusive_lines(s).map_values(|l: Seq<char>| colored_line(l)).flatten()
}

/// Appends line `l` (its characters in `cs[a..b]`), coloured.
fn push_colored_line(out: &mut Vec<char>, cs: &[char], a: usize, b: usize)
    requires
        a <= b <= cs.len(),
    ensures
        final(out)@ == old(out)@ + colored_line(cs@.subrange(a as int, b as int)),
{
    let line = crate::text::chars::chars_between(cs, a, b);
    let l = line.as_slice();
    let color: Option<&str> = if crate::text::chars::starts_with(l, "--- ")
        || crate::text::chars::starts_with(l, "+++ ") {
        Some("\x1b[1m")
    } else if crate::text::chars::starts_with(l, "@@") {
        Some("\x1b[36m")
    } else if crate::text::chars::starts_with(l, "\\ No newline") {
        Some("\x1b[2m")
    } else if crate::text::chars::starts_with(l, "+") {
        Some("\x1b[32m")
    } else if crate::text::chars::starts_with(l, "-") {
        Some("\x1b[31m")
    } else {
        None
    };
    match color {
        None => {
            let mut i: usize = 0;
            while i < line.len()
                invariant
                    0 <= i <= line.len(),
                    out@ == old(out)@ + line@.take(i as int),
                decreases line.len() - i,
            {
                out.push(line[i]);
                assert(line@.take(i + 1) =~= line@.take(i as int).push(line@[i as int]));
                i += 1;
            }
            assert(line@.take(line.len() as int) =~= line@);
        },
        Some(c) => {
            push_str_chars(out, c);
            let mut end = line.len();
            assert(line@.take(end as int) =~= line@);
            while end > 0 && line[end - 1] == '\n'
                invariant
                    end <= line.len(),
                    without_nl(line@.take(end as int)) == without_nl(line@),
                decreases end,
            {
                assert(line@.take(end as int).drop_last() =~= line@.take(end - 1));
                end -= 1;
            }
            proof {
                assert(line@.take(line.len() as int) =~= line@);
            }
            let mut i: usize = 0;
            let ghost base = out@;
            while i < end
                invariant
                    0 <= i <= end <= line.len(),
                    out@ == base + line@.take(i as int),
                decreases end - i,
            {
                out.push(line[i]);
                assert(line@.take(i + 1) =~= line@.take(i as int).push(line@[i as int]));
                i += 1;
            }
            proof {
                let t = line@.take(end as int);
                assert(!(t.len() > 0 && t.last() == '\n'));
                assert(without_nl(t) == t);
            }
            push_str_chars(out, "\x1b[0m");
            if line.len() > 0 && line[line.len() - 1] == '\n' {
                out.push('\n');
            }
        },
    }
}

/// Colours a unified diff for a terminal (see [`colored`]).
pub fn colorize_unified_diff(plain: &str) -> (r: String)
    ensures
        r@ == colored(plain@),
{
    let cs = chars_of(plain);
    let ghost f = |l: Seq<char>| colored_line(l);
    let mut out: Vec<char> = Vec::new();
    let mut start: usize = 0;
    let mut i: usize = 0;
    let ghost mut done: Seq<Seq<char>> = Seq::empty();
    assert(cs@.take(0) =~= Seq::<char>::empty());
    while i < cs.len()
        invariant
            cs@ == plain@,
            0 <= start <= i <= cs.len(),
            split_at_nl(cs@.take(i as int)).drop_last().map_values(|l: Seq<char>| l.push('\n'))
                == done,
            split_at_nl(cs@.take(i as int)).last() == cs@.subrange(start as int, i as int),
            out@ == done.map_values(|l: Seq<char>| colored_line(l)).flatten(),
        decreases cs.len() - i,
    {
        let ghost p = split_at_nl(cs@.take(i as int));
        assert(cs@.take(i + 1).drop_last() =~= cs@.take(i as int));
        assert(cs@.take(i + 1).last() == cs@[i as int]);
        proof {
            crate::text::chars::lemma_split_nonempty_chars(cs@.take(i as int));
        }
        if cs[i] == '\n' {
            let ghost line = cs@.subrange(start as int, i + 1);
            push_colored_line(&mut out, cs.as_slice(), start, i + 1);
            proof {
                assert(line =~= p.last().push('\n'));
                let np = split_at_nl(cs@.take(i + 1));
                assert(np == p.push(Seq::empty()));
                assert(np.drop_last() =~= p);
                assert(p =~= p.drop_last().push(p.last()));
                assert(np.drop_last().map_values(|l: Seq<char>| l.push('\n')) =~= done.push(line));
                let g = |l: Seq<char>| colored_line(l);
                assert(done.push(line).map_values(g) =~= done.map_values(g).push(g(line)));
                done.map_values(g).lemma_flatten_push(g(line));
                done = done.push(line);
                assert(np.last() =~= cs@.subrange(i + 1, i + 1));
            }
            start = i + 1;
        } else {
            proof {
                let np = split_at_nl(cs@.take(i + 1));
                assert(np == p.update(p.len() - 1, p.last().push(cs@[i as int])));
                assert(np.drop_last() =~= p.drop_last());
                assert(np.last() =~= cs@.subrange(start as int, i + 1));
            }
        }
        i += 1;
    }
    assert(cs@.take(cs.len() as int) =~= cs@);
    if start < cs.len() {
        let ghost line = cs@.subrange(start as int, cs.len() as int);
        push_colored_line(&mut out, cs.as_slice(), start, cs.len());
        proof {
            let g = |l: Seq<char>| colored_line(l);
            assert(done.push(line).map_values(g) =~= done.map_values(g).push(g(line)));
            done.map_values(g).lemma_flatten_push(g(line));
            assert(inclusive_lines(cs@) =~= done.push(line));
        }
    } else {
        assert(inclusive_lines(cs@) =~= done);
    }
    string_of(out.as_slice())
}

/// What follows the first `m` of `t` (nothing when there is none).
pub open spec fn after_m(t: Seq<char>) -> Seq<char>
    decreases t.len(),
{
    if t.len() == 0 {
        t
    } else if t[0] == 'm' {
        t.skip(1)
    } else {
        after_m(t.skip(1))
    }
}

/// Dropping up to the first `m` never lengthens a text.
pub proof fn lemma_after_m_len(t: Seq<char>)
    ensures
        after_m(t).len() <= t.len(),
    decreases t.len(),
{
    if t.len() > 0 && t[0] != 'm' {
        lemma_after_m_len(t.skip(1));
    }
}

/// `s` without its ANSI sequences: an escape followed by `[` is dropped up
/// to and with the next `m`.
pub open spec fn strip_ansi(s: Seq<char>) -> Seq<char>
    decreases s.len(),
{
    if s.len() == 0 {
        s
    } else if s[0] == '\x1b' && s.len() > 1 && s[1] == '[' {
        proof {
            lemma_after_m_len(s.skip(2));
        }
        strip_ansi(after_m(s.skip(2)))
    } else {
        seq![s[0]] + strip_ansi(s.skip(1))
    }
}

/// `s` holds no escape character.
pub open spec fn escape_free(s: Seq<char>) -> bool {
    forall|i: int| 0 <= i < s.len() ==> s[i] != '\x1b'
}

/// Text without escapes goes through stripping untouched.
proof fn lemma_strip_plain_prefix(x: Seq<char>, y: Seq<char>)
    requires
        escape_free(x),
    ensures
        strip_ansi(x + y) == x + strip_ansi(y),
    decreases x.len(),
{
    if x.len() == 0 {
        assert(x + y =~= y);
    } else {
        let xy = x + y;
        assert(xy[0] == x[0]);
        assert(xy.skip(1) =~= x.skip(1) + y);
        lemma_strip_plain_prefix(x.skip(1), y);
        assert(seq![x[0]] + (x.skip(1) + strip_ansi(y)) =~= x + strip_ansi(y));
    }
}

/// What follows `d m y` after its first `m`, when `d` has none, is `y`.
proof fn lemma_after_m_code(d: Seq<char>, y: Seq<char>)
    requires
        forall|i: int| 0 <= i < d.len() ==> d[i] != 'm',
    ensures
        after_m(d + seq!['m'] + y) == y,
    decreases d.len(),
{
    let t = d + seq!['m'] + y;
    if d.len() == 0 {
        assert(t[0] == 'm');
        assert(t.skip(1) =~= y);
    } else {
        assert(t[0] == d[0]);
        assert(t.skip(1) =~= d.skip(1) + seq!['m'] + y);
        lemma_after_m_code(d.skip(1), y);
    }
}

/// An ANSI sequence `ESC [ d m` (no `m` in `d`) strips to nothing.
proof fn lemma_strip_code(d: Seq<char>, y: Seq<char>)
    requires
        forall|i: int| 0 <= i < d.len() ==> d[i] != 'm',
    ensures
        strip_ansi(seq!['\x1b', '['] + d + seq!['m'] + y) == strip_ansi(y),
{
    let s = seq!['\x1b', '['] + d + seq!['m'] + y;
    assert(s[0] == '\x1b' && s[1] == '[');
    assert(s.skip(2) =~= d + seq!['m'] + y);
    lemma_after_m_code(d, y);
}

/// The colour a line gets, as `ESC [ d m` with no `m` in `d`.
proof fn lemma_color_code(l: Seq<char>)
    ensures
        line_color(l) matches Some(c) ==> exists|d: Seq<char>|
            (forall|i: int| 0 <= i < d.len() ==> d[i] != 'm') && c == seq!['\x1b', '['] + d
                + seq!['m'],
{
    reveal_strlit("\x1b[1m");
    reveal_strlit("\x1b[36m");
    reveal_strlit("\x1b[2m");
    reveal_strlit("\x1b[32m");
    reveal_strlit("\x1b[31m");
    if let Some(c) = line_color(l) {
        let d = c.subrange(2, c.len() - 1);
        assert(c =~= seq!['\x1b', '['] + d + seq!['m']);
    }
}

/// A line whose only `\n` is its last character (if any) and that holds no
/// escape strips back from its coloured form.
proof fn lemma_strip_colored_line(l: Seq<char>, y: Seq<char>)
    requires
        escape_free(l),
        forall|i: int| 0 <= i < l.len() - 1 ==> l[i] != '\n',
    ensures
        strip_ansi(colored_line(l) + y) == l + strip_ansi(y),
{
    lemma_color_code(l);
    match line_color(l) {
        None => {
            lemma_strip_plain_prefix(l, y);
        },
        Some(c) => {
            let d = choose|d: Seq<char>|
                (forall|i: int| 0 <= i < d.len() ==> d[i] != 'm') && c == seq!['\x1b', '['] + d
                    + seq!['m'];
            let has_nl = l.len() > 0 && l.last() == '\n';
            let tail: Seq<char> = if has_nl {
                seq!['\n']
            } else {
                Seq::empty()
            };
            let body = without_nl(l);
            let body_is: Seq<char> = if has_nl {
                l.drop_last()
            } else {
                l
            };
            assert(body == body_is) by {
                if has_nl {
                    let t = l.drop_last();
                    if t.len() > 0 {
                        assert(t.last() == l[l.len() - 2]);
                    }
                    assert(without_nl(t) == t);
                }
            }
            assert(body_is + tail =~= l);
            reveal_strlit("\x1b[0m");
            let reset = "\x1b[0m"@;
            assert(reset =~= seq!['\x1b', '['] + seq!['0'] + seq!['m']);
            assert(escape_free(body)) by {
                assert forall|i: int| 0 <= i < body.len() implies body[i] != '\x1b' by {
                    assert(body[i] == l[i]);
                }
            }
            assert(escape_free(tail));
            let rest = tail + y;
            assert(colored_line(l) + y =~= seq!['\x1b', '['] + d + seq!['m'] + (body + (
            seq!['\x1b', '['] + seq!['0'] + seq!['m'] + rest)));
            lemma_strip_code(d, body + (seq!['\x1b', '['] + seq!['0'] + seq!['m'] + rest));
            lemma_strip_plain_prefix(body, seq!['\x1b', '['] + seq!['0'] + seq!['m'] + rest);
            lemma_strip_code(seq!['0'], rest);
            lemma_strip_plain_prefix(tail, y);
            assert(body + (tail + strip_ansi(y)) =~= l + strip_ansi(y));
        },
    }
}

/// The pieces of `s` cut at `\n` hold no `\n`, hold only characters of
/// `s`, and joined back with `\n` give `s`.
proof fn lemma_split_pieces(s: Seq<char>)
    ensures
        ({
            let p = split_at_nl(s);
            &&& p.len() >= 1
            &&& forall|k: int, i: int|
                0 <= k < p.len() && 0 <= i < p[k].len() ==> p[k][i] != '\n'
            &&& escape_free(s) ==> forall|k: int| 0 <= k < p.len() ==> escape_free(#[trigger] p[k])
            &&& p.drop_last().map_values(|l: Seq<char>| l.push('\n')).flatten() + p.last() == s
        }),
    decreases s.len(),
{
    let f = |l: Seq<char>| l.push('\n');
    if s.len() == 0 {
        let p = split_at_nl(s);
        assert(p.drop_last() =~= Seq::<Seq<char>>::empty());
        assert(p.drop_last().map_values(f) =~= Seq::<Seq<char>>::empty());
        assert(p.drop_last().map_values(f).flatten() =~= Seq::<char>::empty());
        assert(p.last() =~= s);
    } else {
        let s0 = s.drop_last();
        lemma_split_pieces(s0);
        let q = split_at_nl(s0);
        let p = split_at_nl(s);
        if escape_free(s) {
            assert(escape_free(s0)) by {
                assert forall|i: int| 0 <= i < s0.len() implies s0[i] != '\x1b' by {
                    assert(s0[i] == s[i]);
                }
            }
        }
        if s.last() == '\n' {
            assert(p == q.push(Seq::<char>::empty()));
            assert(p.drop_last() =~= q);
            assert(q =~= q.drop_last().push(q.last()));
            assert(q.map_values(f) =~= q.drop_last().map_values(f).push(f(q.last())));
            q.drop_last().map_values(f).lemma_flatten_push(f(q.last()));
            assert(p.drop_last().map_values(f).flatten() + p.last() =~= s0 + seq!['\n']);
            assert(s0 + seq!['\n'] =~= s);
            assert forall|k: int, i: int| 0 <= k < p.len() && 0 <= i < p[k].len() implies p[k][i]
                != '\n' by {
                if k < q.len() {
                    assert(p[k] == q[k]);
                }
            }
            if escape_free(s) {
                assert forall|k: int| 0 <= k < p.len() implies escape_free(#[trigger] p[k]) by {
                    if k < q.len() {
                        assert(p[k] == q[k]);
                    } else {
                        assert(p[k] =~= Seq::<char>::empty());
                    }
                }
            }
        } else {
            let c = s.last();
            assert(p == q.update(q.len() - 1, q.last().push(c)));
            assert(p.drop_last() =~= q.drop_last());
            assert(p.last() == q.last().push(c));
            assert(p.drop_last().map_values(f).flatten() + p.last() =~= (q.drop_last().map_values(
                f,
            ).flatten() + q.last()).push(c));
            assert(s0.push(c) =~= s);
            assert forall|k: int, i: int| 0 <= k < p.len() && 0 <= i < p[k].len() implies p[k][i]
                != '\n' by {
                if k < q.len() - 1 {
                    assert(p[k] == q[k]);
                } else if i < q.last().len() {
                    assert(p[k][i] == q[q.len() - 1][i]);
                } else {
                    assert(p[k][i] == c);
                }
            }
            if escape_free(s) {
                assert forall|k: int| 0 <= k < p.len() implies escape_free(#[trigger] p[k]) by {
                    if k < q.len() - 1 {
                        assert(p[k] == q[k]);
                    } else {
                        assert forall|i: int| 0 <= i < p[k].len() implies p[k][i] != '\x1b' by {
                            if i < q.last().len() {
                                assert(p[k][i] == q[q.len() - 1][i]);
                            } else {
                                assert(p[k][i] == s[s.len() - 1]);
                            }
                        }
                    }
                }
            }
        }
    }
}

/// Each line of an escape-free text strips back from its coloured form,
/// and so does their concatenation.
proof fn lemma_strip_lines(ls: Seq<Seq<char>>)
    requires
        forall|k: int| 0 <= k < ls.len() ==> escape_free(#[trigger] ls[k]),
        forall|k: int, i: int| 0 <= k < ls.len() && 0 <= i < ls[k].len() - 1 ==> ls[k][i] != '\n',
    ensures
        strip_ansi(ls.map_values(|l: Seq<char>| colored_line(l)).flatten()) == ls.flatten(),
    decreases ls.len(),
{
    let g = |l: Seq<char>| colored_line(l);
    if ls.len() == 0 {
        assert(ls.map_values(g).flatten() =~= Seq::<char>::empty());
        assert(ls.flatten() =~= Seq::<char>::empty());
    } else {
        let rest = ls.drop_first();
        assert forall|k: int, i: int| 0 <= k < rest.len() && 0 <= i < rest[k].len() - 1 implies rest[k][i]
            != '\n' by {
            assert(rest[k] == ls[k + 1]);
        }
        assert forall|k: int| 0 <= k < rest.len() implies escape_free(#[trigger] rest[k]) by {
            assert(rest[k] == ls[k + 1]);
        }
        lemma_strip_lines(rest);
        assert(ls.map_values(g).drop_first() =~= rest.map_values(g));
        assert(ls.map_values(g).flatten() == g(ls[0]) + rest.map_values(g).flatten());
        assert forall|i: int| 0 <= i < ls[0].len() - 1 implies ls[0][i] != '\n' by {}
        lemma_strip_colored_line(ls[0], rest.map_values(g).flatten());
    }
}

/// Stripping the ANSI sequences from a coloured diff gives the diff back,
/// for every text that holds no escape character of its own.
pub proof fn lemma_colorize_strips_back(s: Seq<char>)
    requires
        escape_free(s),
    ensures
        strip_ansi(colored(s)) == s,
{
    lemma_split_pieces(s);
    let p = split_at_nl(s);
    let f = |l: Seq<char>| l.push('\n');
    let body = p.drop_last().map_values(f);
    let ls = inclusive_lines(s);
    assert forall|k: int| 0 <= k < body.len() implies escape_free(#[trigger] body[k]) && (forall|
        i: int,
    | 0 <= i < body[k].len() - 1 ==> body[k][i] != '\n') by {
        assert(body[k] == p[k].push('\n'));
        assert(escape_free(p[k]));
    }
    if p.last().len() > 0 {
        assert(ls == body.push(p.last()));
        assert forall|k: int| 0 <= k < ls.len() implies escape_free(#[trigger] ls[k]) by {
            if k < body.len() {
                assert(ls[k] == body[k]);
            }
        }
        assert forall|k: int, i: int| 0 <= k < ls.len() && 0 <= i < ls[k].len() - 1 implies ls[k][i]
            != '\n' by {
            if k < body.len() {
                assert(ls[k] == body[k]);
            }
        }
        body.lemma_flatten_push(p.last());
    } else {
        assert(ls == body);
        assert(body.flatten() + p.last() =~= body.flatten());
    }
    lemma_strip_lines(ls);
}

} // verus!
