use xnip::text::content::{load, Content, ContentError};

fn nothing_read() -> Result<Vec<u8>, String> {
    Ok(Vec::new())
}

#[test]
fn inline_returns_bytes() {
    let c = Content::Inline(b"hello".to_vec());
    assert_eq!(c.load(&nothing_read()).unwrap(), b"hello");
}

#[test]
fn inline_empty_returns_empty() {
    let c = Content::Inline(vec![]);
    assert_eq!(c.load(&nothing_read()).unwrap(), b"");
}

#[test]
fn replacement_returns_not_byte_content() {
    let c = Content::Replacement("$1".to_string());
    let err = c.load(&nothing_read()).unwrap_err();
    assert!(matches!(err, ContentError::NotByteContent));
    assert_eq!(c.as_replacement(), Some("$1"));
}

#[test]
fn non_replacement_has_no_replacement_str() {
    let c = Content::Inline(b"x".to_vec());
    assert_eq!(c.as_replacement(), None);
}

#[test]
fn bytes_are_transparent_through_inline() {
    let payload: Vec<u8> = vec![0x00, 0xff, 0x01, 0xfe];
    let c = Content::Inline(payload.clone());
    assert_eq!(c.load(&nothing_read()).unwrap(), payload);
}

#[test]
fn file_returns_bytes() {
    let c = Content::File("c.txt".to_string());
    assert_eq!(c.load(&Ok(b"file content".to_vec())).unwrap(), b"file content");
}

#[test]
fn file_missing_returns_read_error() {
    let c = Content::File("missing.txt".to_string());
    let err = c.load(&Err("not found".to_string())).unwrap_err();
    assert_eq!(err, ContentError::Read { path: "missing.txt".to_string(), reason: "not found".to_string() });
}

#[test]
fn stdin_returns_the_bytes_read_or_its_error() {
    assert_eq!(Content::Stdin.load(&Ok(b"in".to_vec())).unwrap(), b"in");
    assert_eq!(Content::Stdin.load(&Err("closed".to_string())).unwrap_err(), ContentError::Stdin("closed".to_string()));
}

#[test]
fn free_load_matches_method() {
    let c = Content::Inline(b"abc".to_vec());
    assert_eq!(load(&c, &nothing_read()).unwrap(), b"abc");
}
