//! Where the text that a write puts comes from.
//!
//! `--text` gives bytes, `--text-stdin` the process's standard input,
//! `--text-file` (or `@path` in a manifest) a file's bytes, and `--repl` a
//! replacement template for pattern replacements. Reading the input or the
//! file is the application's part; the library resolves the rest.

use vstd::prelude::*;

use crate::apply::{copy_bytes, copy_string};

verus! {

/// The source of a write's text.
pub enum Content {
    /// Literal bytes.
    Inline(Vec<u8>),
    /// The process's standard input.
    Stdin,
    /// The bytes of a file.
    File(String),
    /// A replacement template (pattern replacements only).
    Replacement(String),
}

/// A content source as values.
pub enum ContentSource {
    Inline(Seq<u8>),
    Stdin,
    File(Seq<char>),
    Replacement(Seq<char>),
}

impl View for Content {
    type V = ContentSource;

    open spec fn view(&self) -> ContentSource {
        match self {
            Content::Inline(b) => ContentSource::Inline(b@),
            Content::Stdin => ContentSource::Stdin,
            Content::File(p) => ContentSource::File(p@),
            Content::Replacement(s) => ContentSource::Replacement(s@),
        }
    }
}

/// Why a content has no bytes.
#[derive(Debug, Clone, PartialEq, Eq)]
pub enum ContentError {
    /// The file could not be read.
    Read { path: String, reason: String },
    /// The standard input could not be read.
    Stdin(String),
    /// A replacement template is not bytes.
    NotByteContent,
}

/// The bytes a content stands for, given what reading it gave (`read`:
/// the bytes of standard input or of the file, or why they could not be
/// read; literal content and templates read nothing).
pub open spec fn content_bytes(c: Content, read: Result<Vec<u8>, String>) -> Result<
    Seq<u8>,
    ContentError,
> {
    match c {
        Content::Inline(b) => Ok(b@),
        Content::Stdin => match read {
            Ok(b) => Ok(b@),
            Err(m) => Err(ContentError::Stdin(m)),
        },
        Content::File(p) => match read {
            Ok(b) => Ok(b@),
            Err(m) => Err(ContentError::Read { path: p, reason: m }),
        },
        Content::Replacement(_) => Err(ContentError::NotByteContent),
    }
}

/// Two errors that say the same thing.
pub open spec fn same_error(e: ContentError, f: ContentError) -> bool {
    match (e, f) {
        (ContentError::Read { path: a, reason: b }, ContentError::Read { path: c, reason: d }) => a@
            == c@ && b@ == d@,
        (ContentError::Stdin(a), ContentError::Stdin(b)) => a@ == b@,
        (ContentError::NotByteContent, ContentError::NotByteContent) => true,
        _ => false,
    }
}

/// A loaded content held against [`content_bytes`].
pub open spec fn loaded_as(r: Result<Vec<u8>, ContentError>, s: Result<Seq<u8>, ContentError>) -> bool {
    match (r, s) {
        (Ok(v), Ok(b)) => v@ == b,
        (Err(e), Err(f)) => same_error(e, f),
        _ => false,
    }
}

impl Content {
    /// The bytes of this content (see [`content_bytes`]); `read` is what
    /// reading standard input or the file gave.
    pub fn load(&self, read: &Result<Vec<u8>, String>) -> (r: Result<Vec<u8>, ContentError>)
        ensures
            loaded_as(r, content_bytes(*self, *read)),
    {
        match self {
            Content::Inline(bytes) => Ok(copy_bytes(bytes)),
            Content::Stdin => match read {
                Ok(b) => Ok(copy_bytes(b)),
                Err(m) => Err(ContentError::Stdin(copy_string(m))),
            },
            Content::File(p) => match read {
                Ok(b) => Ok(copy_bytes(b)),
                Err(m) => Err(ContentError::Read { path: copy_string(p), reason: copy_string(m) }),
            },
            Content::Replacement(_) => Err(ContentError::NotByteContent),
        }
    }

    /// The replacement template, for `--repl` content.
    pub fn as_replacement(&self) -> (r: Option<&str>)
        ensures
            match self {
                Content::Replacement(s) => r matches Some(x) && x@ == s@,
                _ => r is None,
            },
    {
        match self {
            Content::Replacement(s) => Some(s.as_str()),
            _ => None,
        }
    }
}

/// The bytes of a content (see [`Content::load`]).
pub fn load(content: &Content, read: &Result<Vec<u8>, String>) -> (r: Result<Vec<u8>, ContentError>)
    ensures
        loaded_as(r, content_bytes(*content, *read)),
{
    content.load(read)
}

} // verus!
