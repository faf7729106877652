//! Regular expressions, as the `regex` crate gives them.
//!
//! A [`LineRegex`] matches text (a line decoded as UTF-8, invalid sequences
//! replaced); a [`ByteRegex`] searches raw bytes. Each keeps the pattern it
//! was compiled from, and what a match is stays with the `regex` crate: the
//! specifications below name its results as functions of the pattern and the
//! haystack.

use vstd::prelude::*;

use crate::text::chars::{chars_of, push_char};

verus! {

#[verifier::external_type_specification]
#[verifier::external_body]
pub struct ExRegex(regex::Regex);

#[verifier::external_type_specification]
#[verifier::external_body]
pub struct ExBytesRegex(regex::bytes::Regex);

/// Whether `regex::Regex::new` accepts `pattern`.
pub uninterp spec fn line_regex_accepts(pattern: Seq<char>) -> bool;

/// Whether `regex::Regex::is_match` finds `pattern` in `haystack`.
pub uninterp spec fn line_regex_matches(pattern: Seq<char>, haystack: Seq<char>) -> bool;

/// Whether `regex::bytes::Regex::new` accepts `pattern`.
pub uninterp spec fn bytes_regex_accepts(pattern: Seq<char>) -> bool;

/// Start offsets of the successive non-overlapping matches that
/// `regex::bytes::Regex::find_iter` yields for `pattern` in `haystack`.
pub uninterp spec fn bytes_regex_match_starts(pattern: Seq<char>, haystack: Seq<u8>) -> Seq<usize>;

/// What `regex::bytes::Regex::replacen` returns for `pattern`, `haystack`,
/// `limit` and replacement template `rep`.
pub uninterp spec fn bytes_regex_replacen(
    pattern: Seq<char>,
    haystack: Seq<u8>,
    limit: usize,
    rep: Seq<u8>,
) -> Seq<u8>;

/// What `String::from_utf8_lossy` decodes `bytes` to.
pub uninterp spec fn utf8_lossy(bytes: Seq<u8>) -> Seq<char>;

/// A line of bytes matches `pattern` when its lossy UTF-8 decoding does.
pub open spec fn line_matches(pattern: Seq<char>, line: Seq<u8>) -> bool {
    line_regex_matches(pattern, utf8_lossy(line))
}

/// Characters with a meaning in regex syntax: the set that the `regex`
/// crate escapes (`regex_syntax::is_meta_character`).
pub open spec fn is_meta_char(c: char) -> bool {
    c == '\\' || c == '.' || c == '+' || c == '*' || c == '?' || c == '(' || c == ')' || c == '|'
        || c == '[' || c == ']' || c == '{' || c == '}' || c == '^' || c == '$' || c == '#'
        || c == '&' || c == '-' || c == '~'
}

/// `s` with a backslash before each meta character.
pub open spec fn escaped(s: Seq<char>) -> Seq<char>
    decreases s.len(),
{
    if s.len() == 0 {
        Seq::<char>::empty()
    } else {
        let c = s[0];
        let head = if is_meta_char(c) {
            seq!['\\', c]
        } else {
            seq![c]
        };
        head + escaped(s.drop_first())
    }
}

/// `String::from_utf8_lossy`: decodes `bytes` as UTF-8, replacing each
/// invalid sequence with U+FFFD. Claims that the result is
/// [`utf8_lossy`] of the bytes, and the plain decoding when the bytes are
/// valid UTF-8.
#[verifier::external_body]
pub(crate) fn lossy_string(bytes: &[u8]) -> (r: String)
    ensures
        r@ == utf8_lossy(bytes@),
        vstd::utf8::valid_utf8(bytes@) ==> r@ == vstd::utf8::decode_utf8(bytes@),
{
    String::from_utf8_lossy(bytes).into_owned()
}

/// `regex::Regex::new`: claims that it succeeds exactly on the patterns
/// [`line_regex_accepts`] names.
#[verifier::external_body]
fn compile_line_regex(pattern: &str) -> (r: Option<regex::Regex>)
    ensures
        r is Some <==> line_regex_accepts(pattern@),
{
    regex::Regex::new(pattern).ok()
}

/// `regex::bytes::Regex::new`: claims that it succeeds exactly on the
/// patterns [`bytes_regex_accepts`] names.
#[verifier::external_body]
fn compile_bytes_regex(pattern: &str) -> (r: Option<regex::bytes::Regex>)
    ensures
        r is Some <==> bytes_regex_accepts(pattern@),
{
    regex::bytes::Regex::new(pattern).ok()
}

/// Whether `c` has a meaning in regex syntax (see [`is_meta_char`]).
fn meta_char(c: char) -> (r: bool)
    ensures
        r == is_meta_char(c),
{
    c == '\\' || c == '.' || c == '+' || c == '*' || c == '?' || c == '(' || c == ')' || c == '|'
        || c == '[' || c == ']' || c == '{' || c == '}' || c == '^' || c == '$' || c == '#'
        || c == '&' || c == '-' || c == '~'
}

/// `pattern` with a backslash before every meta character: a regex that
/// matches `pattern` literally, as `regex::escape` writes it.
pub fn regex_escape(pattern: &str) -> (r: String)
    ensures
        r@ == escaped(pattern@),
{
    let cs = chars_of(pattern);
    let mut out = String::new();
    let mut i: usize = 0;
    assert(cs@.skip(0) =~= cs@);
    while i < cs.len()
        invariant
            0 <= i <= cs.len(),
            cs@ == pattern@,
            out@ + escaped(cs@.skip(i as int)) == escaped(pattern@),
        decreases cs.len() - i,
    {
        let c = cs[i];
        let ghost rest = cs@.skip(i as int);
        assert(rest[0] == c);
        assert(rest.drop_first() =~= cs@.skip(i + 1));
        let ghost before = out@;
        if meta_char(c) {
            push_char(&mut out, '\\');
            push_char(&mut out, c);
            assert(out@ =~= before + seq!['\\', c]);
        } else {
            push_char(&mut out, c);
            assert(out@ =~= before + seq![c]);
        }
        assert(out@ + escaped(cs@.skip(i + 1)) =~= before + escaped(rest));
        i += 1;
    }
    assert(cs@.skip(cs.len() as int) =~= Seq::<char>::empty());
    assert(out@ + escaped(Seq::<char>::empty()) =~= out@);
    out
}

/// A compiled text regex together with its pattern. The fields are private
/// and only [`LineRegex::new`] builds a value, so `re` is always what
/// `regex::Regex::new` compiled from `pattern`.
pub struct LineRegex {
    re: regex::Regex,
    pattern: String,
}

impl LineRegex {
    #[verifier::type_invariant]
    spec fn accepted(self) -> bool {
        line_regex_accepts(self.pattern@)
    }

    /// The pattern the regex was compiled from.
    pub closed spec fn pattern_view(&self) -> Seq<char> {
        self.pattern@
    }

    /// Compiles `pattern`; `None` when the `regex` crate refuses it.
    pub fn new(pattern: &str) -> (r: Option<LineRegex>)
        ensures
            r is Some <==> line_regex_accepts(pattern@),
            r matches Some(x) ==> x.pattern_view() == pattern@,
    {
        match compile_line_regex(pattern) {
            Some(re) => Some(LineRegex { re, pattern: pattern.to_owned() }),
            None => None,
        }
    }

    /// The pattern the regex was compiled from.
    pub fn as_str(&self) -> (r: &str)
        ensures
            r@ == self.pattern_view(),
    {
        self.pattern.as_str()
    }

    /// Another regex compiled from the same pattern.
    pub fn duplicate(&self) -> (r: LineRegex)
        ensures
            r.pattern_view() == self.pattern_view(),
    {
        proof {
            use_type_invariant(self);
        }
        LineRegex::new(self.pattern.as_str()).unwrap()
    }

    /// `regex::Regex::is_match` on `haystack`: claims the result is
    /// [`line_regex_matches`] of this regex's pattern and the haystack.
    #[verifier::external_body]
    pub(crate) fn is_match(&self, haystack: &str) -> (r: bool)
        ensures
            r == line_regex_matches(self.pattern_view(), haystack@),
    {
        self.re.is_match(haystack)
    }

    /// Whether the lossy UTF-8 decoding of `line` matches.
    pub fn matches_line(&self, line: &[u8]) -> (r: bool)
        ensures
            r == line_matches(self.pattern_view(), line@),
    {
        let s = lossy_string(line);
        self.is_match(s.as_str())
    }
}

/// A compiled byte regex together with its pattern. The fields are private
/// and only [`ByteRegex::new`] builds a value, so `re` is always what
/// `regex::bytes::Regex::new` compiled from `pattern`.
pub struct ByteRegex {
    re: regex::bytes::Regex,
    pattern: String,
}

impl ByteRegex {
    #[verifier::type_invariant]
    spec fn accepted(self) -> bool {
        bytes_regex_accepts(self.pattern@)
    }

    /// The pattern the regex was compiled from.
    pub closed spec fn pattern_view(&self) -> Seq<char> {
        self.pattern@
    }

    /// Compiles `pattern`; `None` when the `regex` crate refuses it.
    pub fn new(pattern: &str) -> (r: Option<ByteRegex>)
        ensures
            r is Some <==> bytes_regex_accepts(pattern@),
            r matches Some(x) ==> x.pattern_view() == pattern@,
    {
        match compile_bytes_regex(pattern) {
            Some(re) => Some(ByteRegex { re, pattern: pattern.to_owned() }),
            None => None,
        }
    }

    /// The pattern the regex was compiled from.
    pub fn as_str(&self) -> (r: &str)
        ensures
            r@ == self.pattern_view(),
    {
        self.pattern.as_str()
    }

    /// Another regex compiled from the same pattern.
    pub fn duplicate(&self) -> (r: ByteRegex)
        ensures
            r.pattern_view() == self.pattern_view(),
    {
        proof {
            use_type_invariant(self);
        }
        ByteRegex::new(self.pattern.as_str()).unwrap()
    }

    /// `regex::bytes::Regex::find_iter` on this regex, mapped to the start
    /// offset of each match: claims the offsets are
    /// [`bytes_regex_match_starts`] of this regex's pattern and the
    /// haystack, and that each lies within the haystack.
    #[verifier::external_body]
    fn find_starts(&self, haystack: &[u8]) -> (r: Vec<usize>)
        ensures
            r@ == bytes_regex_match_starts(self.pattern_view(), haystack@),
            forall|i: int| 0 <= i < r@.len() ==> r@[i] <= haystack@.len(),
    {
        self.re.find_iter(haystack).map(|m| m.start()).collect()
    }

    /// `regex::bytes::Regex::replacen` on this regex: claims the result is
    /// [`bytes_regex_replacen`] of this regex's pattern and the other
    /// arguments, and the haystack itself when nothing matches.
    #[verifier::external_body]
    fn replacen_bytes(&self, haystack: &[u8], limit: usize, rep: &[u8]) -> (r: Vec<u8>)
        ensures
            r@ == bytes_regex_replacen(self.pattern_view(), haystack@, limit, rep@),
            bytes_regex_match_starts(self.pattern_view(), haystack@).len() == 0 ==> r@
                == haystack@,
    {
        self.re.replacen(haystack, limit, rep).into_owned()
    }

    /// Start offsets of the successive non-overlapping matches in `haystack`.
    pub fn match_starts(&self, haystack: &[u8]) -> (r: Vec<usize>)
        ensures
            r@ == bytes_regex_match_starts(self.pattern_view(), haystack@),
            forall|i: int| 0 <= i < r@.len() ==> r@[i] <= haystack@.len(),
    {
        self.find_starts(haystack)
    }

    /// Replaces the first `limit` matches (every match when `limit == 0`)
    /// with the template `rep` (`$1`, `${name}` expand to groups).
    pub fn replacen(&self, haystack: &[u8], limit: usize, rep: &[u8]) -> (r: Vec<u8>)
        ensures
            r@ == bytes_regex_replacen(self.pattern_view(), haystack@, limit, rep@),
            bytes_regex_match_starts(self.pattern_view(), haystack@).len() == 0 ==> r@
                == haystack@,
    {
        self.replacen_bytes(haystack, limit, rep)
    }
}

} // verus!
