use xnip::text::location::Count;
use xnip::text::ops::replace::{replace_pattern, replace_range, ReplaceError};
use xnip::text::pattern::ByteRegex;

#[test]
fn replace_single_line() {
    let r = replace_range(b"a\nb\nc\n", 2, 2, b"X").unwrap();
    assert_eq!(r, b"a\nX\nc\n");
}

#[test]
fn replace_range_multi() {
    let r = replace_range(b"a\nb\nc\nd\n", 2, 3, b"X\nY").unwrap();
    assert_eq!(r, b"a\nX\nY\nd\n");
}

#[test]
fn replace_replace_with_empty_deletes_range() {
    let r = replace_range(b"a\nb\nc\nd\n", 2, 3, b"").unwrap();
    assert_eq!(r, b"a\nd\n");
}

#[test]
fn replace_first_line() {
    let r = replace_range(b"a\nb\n", 1, 1, b"X").unwrap();
    assert_eq!(r, b"X\nb\n");
}

#[test]
fn replace_last_line_keeps_trailing_newline() {
    let r = replace_range(b"a\nb\n", 2, 2, b"X").unwrap();
    assert_eq!(r, b"a\nX\n");
}

#[test]
fn replace_last_line_without_trailing_newline_does_not_add_one() {
    let r = replace_range(b"a\nb", 2, 2, b"X").unwrap();
    assert_eq!(r, b"a\nX");
}

#[test]
fn replace_with_payload_having_newline_does_not_double_append() {
    let r = replace_range(b"a\nb\nc\n", 2, 2, b"X\n").unwrap();
    assert_eq!(r, b"a\nX\nc\n");
}

#[test]
fn replace_zero_line_errors() {
    let e = replace_range(b"a\n", 0, 1, b"X").unwrap_err();
    assert!(matches!(e, ReplaceError::ZeroLine));
}

#[test]
fn replace_inverted_range_errors() {
    let e = replace_range(b"a\nb\n", 2, 1, b"X").unwrap_err();
    assert!(matches!(e, ReplaceError::InvalidRange { .. }));
}

#[test]
fn replace_out_of_bounds_errors() {
    let e = replace_range(b"a\n", 1, 5, b"X").unwrap_err();
    assert!(matches!(e, ReplaceError::OutOfBounds { .. }));
}

#[test]
fn pattern_replace_all() {
    let re = ByteRegex::new("foo").unwrap();
    let (out, n) = replace_pattern(b"foo bar foo baz\n", &re, "BAZ", Count::All);
    assert_eq!(out, b"BAZ bar BAZ baz\n");
    assert_eq!(n, 2);
}

#[test]
fn pattern_replace_first_only() {
    let re = ByteRegex::new("foo").unwrap();
    let (out, n) = replace_pattern(b"foo foo foo\n", &re, "X", Count::First(1));
    assert_eq!(out, b"X foo foo\n");
    assert_eq!(n, 1);
}

#[test]
fn pattern_replace_with_capture_group() {
    let re = ByteRegex::new(r"(\w+)=(\d+)").unwrap();
    let (out, n) = replace_pattern(b"x=1 y=22\n", &re, "$2:$1", Count::All);
    assert_eq!(out, b"1:x 22:y\n");
    assert_eq!(n, 2);
}

#[test]
fn pattern_no_match_returns_original() {
    let re = ByteRegex::new("xxx").unwrap();
    let (out, n) = replace_pattern(b"foo\n", &re, "Y", Count::All);
    assert_eq!(out, b"foo\n");
    assert_eq!(n, 0);
}

#[test]
fn pattern_count_larger_than_matches_touches_all() {
    let re = ByteRegex::new("o").unwrap();
    let (out, n) = replace_pattern(b"foo\n", &re, "0", Count::First(5));
    assert_eq!(out, b"f00\n");
    assert_eq!(n, 2);
}

#[test]
fn replace_range_with_its_own_lines_is_identity() {
    let c = b"a\nb\nc";
    assert_eq!(replace_range(c, 2, 3, b"b\nc").unwrap(), c);
    assert_eq!(replace_range(c, 1, 1, b"a\n").unwrap(), c);
}

#[test]
fn replace_error_fields() {
    assert_eq!(replace_range(b"a\n", 1, 5, b"X"), Err(ReplaceError::OutOfBounds { start: 1, end: 5, total: 1 }));
    assert_eq!(replace_range(b"a\nb\n", 2, 1, b"X"), Err(ReplaceError::InvalidRange { start: 2, end: 1 }));
}
