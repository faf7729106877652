use xnip::text::diff::{colorize_unified_diff, unified_diff, unified_diff_with_context};

fn strip_ansi(s: &str) -> String {
    let mut out = String::with_capacity(s.len());
    let mut chars = s.chars().peekable();
    while let Some(c) = chars.next() {
        if c == '\x1b' && chars.peek() == Some(&'[') {
            chars.next();
            while let Some(&n) = chars.peek() {
                chars.next();
                if n == 'm' {
                    break;
                }
            }
        } else {
            out.push(c);
        }
    }
    out
}

#[test]
fn identical_yields_empty_string() {
    let s = unified_diff("x.txt", b"a\nb\n", b"a\nb\n");
    assert!(s.is_empty(), "expected empty diff, got: {s:?}");
}

#[test]
fn header_uses_path() {
    let s = unified_diff("foo/bar.txt", b"a\n", b"b\n");
    assert!(s.contains("--- foo/bar.txt\t(before)"));
    assert!(s.contains("+++ foo/bar.txt\t(after)"));
}

#[test]
fn delete_line_shows_minus() {
    let s = unified_diff("x", b"a\nb\nc\n", b"a\nc\n");
    assert!(s.contains("-b"), "diff:\n{s}");
    assert!(!s.contains("+b"), "diff:\n{s}");
}

#[test]
fn insert_line_shows_plus() {
    let s = unified_diff("x", b"a\nc\n", b"a\nb\nc\n");
    assert!(s.contains("+b"), "diff:\n{s}");
}

#[test]
fn replace_line_shows_minus_then_plus() {
    let s = unified_diff("x", b"a\n", b"b\n");
    let m = s.find("-a").expect("expected -a");
    let p = s.find("+b").expect("expected +b");
    assert!(m < p, "minus should come before plus, diff:\n{s}");
}

#[test]
fn no_newline_at_eof_is_marked() {
    let s = unified_diff("x", b"a", b"b");
    assert!(s.contains("\\ No newline at end of file"), "diff:\n{s}");
}

#[test]
fn hunk_header_format() {
    let s = unified_diff("x", b"a\n", b"b\n");
    assert!(s.contains("@@ "), "expected hunk header, diff:\n{s}");
}

#[test]
fn colorize_wraps_minus_and_plus_lines() {
    let plain = "\
--- a\t(before)
+++ a\t(after)
@@ -1,1 +1,1 @@
-old
+new
";
    let c = colorize_unified_diff(plain);
    assert!(c.contains("\x1b[1m--- a"), "header bold: {c:?}");
    assert!(c.contains("\x1b[1m+++ a"), "header bold: {c:?}");
    assert!(c.contains("\x1b[36m@@"), "hunk cyan: {c:?}");
    assert!(c.contains("\x1b[31m-old"), "del red: {c:?}");
    assert!(c.contains("\x1b[32m+new"), "ins green: {c:?}");
    assert!(c.contains("\x1b[0m\n"), "reset before newline: {c:?}");
}

#[test]
fn colorize_does_not_mistake_triple_dash_or_plus_as_change_lines() {
    let plain = "--- a\t(before)\n+++ a\t(after)\n";
    let c = colorize_unified_diff(plain);
    assert!(!c.contains("\x1b[31m"), "must not redden ---: {c:?}");
    assert!(!c.contains("\x1b[32m"), "must not green +++: {c:?}");
}

#[test]
fn colorize_marks_no_newline_marker_dim() {
    let plain = "@@ -1 +1 @@\n-a\n\\ No newline at end of file\n+b\n";
    let c = colorize_unified_diff(plain);
    assert!(c.contains("\x1b[2m\\ No newline at end of file"), "dim marker: {c:?}");
}

#[test]
fn colorize_preserves_content_byte_count_minus_ansi() {
    let plain = unified_diff("x", b"a\nb\nc\n", b"a\nB\nc\n");
    let c = colorize_unified_diff(&plain);
    let stripped = strip_ansi(&c);
    assert_eq!(stripped, plain);
}

#[test]
fn unified_diff_exact_text_for_one_changed_line() {
    let s = unified_diff("x", b"a\nb\nc\n", b"a\nB\nc\n");
    assert_eq!(s, "--- x\t(before)\n+++ x\t(after)\n@@ -1,3 +1,3 @@\n a\n-b\n+B\n c\n");
}

#[test]
fn unified_diff_context_zero_shows_only_changes() {
    let s = unified_diff_with_context("x", b"a\nb\nc\n", b"a\nB\nc\n", 0);
    assert_eq!(s, "--- x\t(before)\n+++ x\t(after)\n@@ -2 +2 @@\n-b\n+B\n");
}

#[test]
fn colorize_keeps_plain_context_lines_and_text_without_newline() {
    assert_eq!(colorize_unified_diff(" same\n"), " same\n");
    assert_eq!(colorize_unified_diff("-x"), "\x1b[31m-x\x1b[0m");
}

#[test]
fn unified_diff_of_equal_texts_is_empty_whatever_the_context() {
    assert_eq!(unified_diff_with_context("x", b"a\n", b"a\n", usize::MAX), "");
    let s = unified_diff_with_context("x", b"a\nb\n", b"a\nc\n", usize::MAX / 2);
    assert!(s.contains("-b\n+c\n"));
}
