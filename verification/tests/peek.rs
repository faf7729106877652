use xnip::text::location::LocateError;
use xnip::text::ops::peek::{run, PeekError, PeekOpts, PeekRange, PeekResult};
use xnip::text::pattern::LineRegex;

fn run_str(content: &[u8], opts: &PeekOpts) -> (String, PeekResult) {
    let mut buf = Vec::new();
    let res = run(content, opts, &mut buf).unwrap();
    (String::from_utf8(buf).unwrap(), res)
}

#[test]
fn lines_basic_format() {
    let (out, res) = run_str(
        b"a\nb\nc\nd\n",
        &PeekOpts { range: PeekRange::Lines { start: 2, end: 3 }, max_lines: None },
    );
    assert_eq!(out, "     2: b\n     3: c\n");
    assert_eq!(res.lines_written, 2);
    assert!(!res.truncated);
}

#[test]
fn lines_single() {
    let (out, _) = run_str(
        b"first\nsecond\n",
        &PeekOpts { range: PeekRange::Lines { start: 1, end: 1 }, max_lines: None },
    );
    assert_eq!(out, "     1: first\n");
}

#[test]
fn lines_out_of_bounds_yields_locate_err() {
    let mut buf = Vec::new();
    let err = run(
        b"a\n",
        &PeekOpts { range: PeekRange::Lines { start: 1, end: 5 }, max_lines: None },
        &mut buf,
    )
    .unwrap_err();
    assert!(matches!(err, PeekError::Locate(LocateError::OutOfBounds { .. })));
}

#[test]
fn all_outputs_full_file() {
    let (out, res) = run_str(b"a\nb\nc\n", &PeekOpts { range: PeekRange::All, max_lines: None });
    assert_eq!(out, "     1: a\n     2: b\n     3: c\n");
    assert_eq!(res.lines_written, 3);
}

#[test]
fn all_with_max_lines_truncates() {
    let (out, res) = run_str(b"a\nb\nc\nd\ne\n", &PeekOpts { range: PeekRange::All, max_lines: Some(2) });
    assert_eq!(out, "     1: a\n     2: b\n");
    assert_eq!(res.lines_written, 2);
    assert!(res.truncated);
}

#[test]
fn match_line_with_context() {
    let body = b"a\nfoo\nb\nc\n";
    let (out, _) = run_str(
        body,
        &PeekOpts {
            range: PeekRange::MatchLine { regex: LineRegex::new(r"^foo").unwrap(), context: 1 },
            max_lines: None,
        },
    );
    assert_eq!(out, "     1: a\n     2: foo\n     3: b\n");
}

#[test]
fn match_line_multiple_hits_merge_overlap() {
    let body = b"a\nfoo\nb\nfoo\nc\n";
    let (out, _) = run_str(
        body,
        &PeekOpts {
            range: PeekRange::MatchLine { regex: LineRegex::new(r"^foo").unwrap(), context: 1 },
            max_lines: None,
        },
    );
    assert_eq!(out, "     1: a\n     2: foo\n     3: b\n     4: foo\n     5: c\n");
}

#[test]
fn match_line_not_found_yields_locate_err() {
    let mut buf = Vec::new();
    let err = run(
        b"a\nb\n",
        &PeekOpts {
            range: PeekRange::MatchLine { regex: LineRegex::new(r"^xxx").unwrap(), context: 0 },
            max_lines: None,
        },
        &mut buf,
    )
    .unwrap_err();
    assert!(matches!(err, PeekError::Locate(LocateError::MatchLineNotFound { .. })));
}

#[test]
fn bytes_passthrough_for_chinese() {
    let body = "1\n你好🌟\n3\n".as_bytes();
    let (out, _) = run_str(body, &PeekOpts { range: PeekRange::Lines { start: 2, end: 2 }, max_lines: None });
    assert_eq!(out, "     2: 你好🌟\n");
}

#[test]
fn empty_file_with_all_outputs_nothing() {
    let (out, res) = run_str(b"", &PeekOpts { range: PeekRange::All, max_lines: None });
    assert_eq!(out, "");
    assert_eq!(res.lines_written, 0);
}

#[test]
fn separate_hits_are_written_as_separate_ranges() {
    let body = b"foo\na\nb\nc\nfoo\n";
    let (out, res) = run_str(
        body,
        &PeekOpts {
            range: PeekRange::MatchLine { regex: LineRegex::new(r"^foo").unwrap(), context: 0 },
            max_lines: None,
        },
    );
    assert_eq!(out, "     1: foo\n     5: foo\n");
    assert_eq!(res, PeekResult { lines_written: 2, truncated: false });
}

#[test]
fn wide_line_numbers_are_not_padded_past_six_columns() {
    let mut body = Vec::new();
    for _ in 0..1_234_567u32 {
        body.extend_from_slice(b"x\n");
    }
    let (out, _) = run_str(
        &body,
        &PeekOpts { range: PeekRange::Lines { start: 1_234_567, end: 1_234_567 }, max_lines: None },
    );
    assert_eq!(out, "1234567: x\n");
}

#[test]
fn match_line_context_larger_than_any_line_number() {
    let body = b"1\n2\n3\n4\n5\nhit\n7\n8\n9\n10\n";
    let (out, res) = run_str(
        body,
        &PeekOpts {
            range: PeekRange::MatchLine { regex: LineRegex::new("hit").unwrap(), context: usize::MAX - 5 },
            max_lines: None,
        },
    );
    assert_eq!(res.lines_written, 10);
    assert!(out.starts_with("     1: 1\n") && out.ends_with("    10: 10\n"));
}
