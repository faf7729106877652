use xnip::text::ops::insert::{insert_at, normalize, InsertError, Position};
use xnip::text::ops::replace::replace_range;

#[test]
fn insert_insert_before_first_line() {
    let r = insert_at(b"a\nb\n", 1, Position::Before, b"X").unwrap();
    assert_eq!(r, b"X\na\nb\n");
}

#[test]
fn insert_after_last_line() {
    let r = insert_at(b"a\nb\n", 2, Position::After, b"X").unwrap();
    assert_eq!(r, b"a\nb\nX\n");
}

#[test]
fn insert_after_middle() {
    let r = insert_at(b"a\nb\nc\n", 2, Position::After, b"X").unwrap();
    assert_eq!(r, b"a\nb\nX\nc\n");
}

#[test]
fn insert_insert_multiline_payload() {
    let r = insert_at(b"a\nb\n", 1, Position::After, b"X\nY").unwrap();
    assert_eq!(r, b"a\nX\nY\nb\n");
}

#[test]
fn insert_into_empty_file() {
    let r = insert_at(b"", 1, Position::Before, b"X").unwrap();
    assert_eq!(r, b"X\n");
}

#[test]
fn insert_into_file_without_trailing_newline() {
    let r = insert_at(b"a\nb", 2, Position::After, b"X").unwrap();
    assert_eq!(r, b"a\nbX\n");
}

#[test]
fn insert_zero_line_errors() {
    let e = insert_at(b"a\n", 0, Position::Before, b"X").unwrap_err();
    assert!(matches!(e, InsertError::ZeroLine));
}

#[test]
fn insert_out_of_bounds_errors() {
    let e = insert_at(b"a\n", 5, Position::After, b"X").unwrap_err();
    assert!(matches!(e, InsertError::OutOfBounds { .. }));
    assert_eq!(e, InsertError::OutOfBounds { line: 5, total: 1 });
}

#[test]
fn payload_with_trailing_newline_not_double_appended() {
    let r = insert_at(b"a\n", 1, Position::Before, b"X\n").unwrap();
    assert_eq!(r, b"X\na\n");
}

#[test]
fn empty_payload_inserts_nothing() {
    let r = insert_at(b"a\nb\n", 1, Position::After, b"").unwrap();
    assert_eq!(r, b"a\nb\n");
}

#[test]
fn normalize_adds_one_newline() {
    assert_eq!(normalize(b"X"), b"X\n");
    assert_eq!(normalize(b"X\n"), b"X\n");
    assert_eq!(normalize(b""), b"");
}

#[test]
fn insert_then_delete_inserted_lines_restores_content() {
    let orig = b"a\nb\nc\n";
    let ins = insert_at(orig, 2, Position::After, b"X\nY").unwrap();
    assert_eq!(ins, b"a\nb\nX\nY\nc\n");
    let back = replace_range(&ins, 3, 4, b"").unwrap();
    assert_eq!(back, orig);
}

#[test]
fn insert_then_delete_by_newline_count() {
    let content = b"a\nb\nc\n";
    for payload in [&b"x"[..], b"x\ny", b"x\ny\n", b"\n\n"] {
        let k = payload.iter().filter(|&&b| b == b'\n').count() + usize::from(!payload.ends_with(b"\n"));
        let after = insert_at(content, 2, Position::After, payload).unwrap();
        assert_eq!(replace_range(&after, 3, 3 + k - 1, b"").unwrap(), content.to_vec());
        let before = insert_at(content, 2, Position::Before, payload).unwrap();
        assert_eq!(replace_range(&before, 2, 2 + k - 1, b"").unwrap(), content.to_vec());
    }
}
