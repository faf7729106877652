use xnip::text::location::{
    extract_line_range_with_newline, resolvable, resolve, split_lines, Count, LocateError, Locator,
    Resolved,
};
use xnip::text::pattern::{ByteRegex, LineRegex};

fn lines(c: &[u8]) -> Vec<String> {
    split_lines(c).iter().map(|l| String::from_utf8_lossy(l).into_owned()).collect()
}

#[test]
fn split_lines_empty() {
    assert_eq!(split_lines(b"").len(), 0);
}

#[test]
fn split_lines_no_trailing_newline() {
    assert_eq!(lines(b"a\nb"), vec!["a", "b"]);
}

#[test]
fn split_lines_with_trailing_newline() {
    assert_eq!(lines(b"a\nb\n"), vec!["a", "b"]);
}

#[test]
fn split_lines_preserves_cr() {
    assert_eq!(lines(b"a\r\nb\r\n"), vec!["a\r", "b\r"]);
}

#[test]
fn split_lines_blank_line() {
    assert_eq!(lines(b"a\n\nb\n"), vec!["a", "", "b"]);
}

#[test]
fn lines_simple_range() {
    let r = resolve(&Locator::Lines { start: 2, end: 3 }, b"a\nb\nc\nd\n").unwrap();
    assert_eq!(r, Resolved { start_line: 2, end_line: 3 });
}

#[test]
fn lines_single_line() {
    let r = resolve(&Locator::Lines { start: 1, end: 1 }, b"only\n").unwrap();
    assert_eq!(r, Resolved { start_line: 1, end_line: 1 });
}

#[test]
fn lines_zero_is_invalid() {
    let e = resolve(&Locator::Lines { start: 0, end: 1 }, b"a\n").unwrap_err();
    assert!(matches!(e, LocateError::ZeroLine));
}

#[test]
fn lines_inverted_range_invalid() {
    let e = resolve(&Locator::Lines { start: 3, end: 2 }, b"a\nb\nc\n").unwrap_err();
    assert!(matches!(e, LocateError::InvalidRange { .. }));
}

#[test]
fn lines_out_of_bounds() {
    let e = resolve(&Locator::Lines { start: 1, end: 99 }, b"a\nb\n").unwrap_err();
    assert!(matches!(e, LocateError::OutOfBounds { .. }));
    assert_eq!(e, LocateError::OutOfBounds { requested: (1, 99), actual: 2 });
}

#[test]
fn match_line_first_occurrence() {
    let loc = Locator::MatchLine { regex: LineRegex::new(r"^foo").unwrap(), occurrence: 1 };
    let r = resolve(&loc, b"bar\nfoo\nbaz\nfoo\n").unwrap();
    assert_eq!(r.start_line, 2);
    assert_eq!(r.end_line, 2);
}

#[test]
fn match_line_nth_occurrence() {
    let loc = Locator::MatchLine { regex: LineRegex::new(r"^foo").unwrap(), occurrence: 2 };
    let r = resolve(&loc, b"bar\nfoo\nbaz\nfoo\n").unwrap();
    assert_eq!(r.start_line, 4);
}

#[test]
fn match_line_no_match() {
    let loc = Locator::MatchLine { regex: LineRegex::new(r"^xxx").unwrap(), occurrence: 1 };
    let e = resolve(&loc, b"a\nb\n").unwrap_err();
    assert!(matches!(e, LocateError::MatchLineNotFound { .. }));
}

#[test]
fn between_inclusive() {
    let loc = Locator::Between {
        start: b"BEGIN".to_vec(),
        end: b"END".to_vec(),
        start_occ: 1,
        end_occ: 1,
        inclusive: true,
    };
    let r = resolve(&loc, b"x\n// BEGIN\ninner\n// END\ny\n").unwrap();
    assert_eq!(r.start_line, 2);
    assert_eq!(r.end_line, 4);
}

#[test]
fn between_exclusive() {
    let loc = Locator::Between {
        start: b"BEGIN".to_vec(),
        end: b"END".to_vec(),
        start_occ: 1,
        end_occ: 1,
        inclusive: false,
    };
    let r = resolve(&loc, b"x\n// BEGIN\ninner1\ninner2\n// END\ny\n").unwrap();
    assert_eq!(r.start_line, 3);
    assert_eq!(r.end_line, 4);
}

#[test]
fn between_start_not_found() {
    let loc = Locator::Between {
        start: b"BEGIN".to_vec(),
        end: b"END".to_vec(),
        start_occ: 1,
        end_occ: 1,
        inclusive: true,
    };
    let e = resolve(&loc, b"x\ny\n").unwrap_err();
    assert!(matches!(e, LocateError::BetweenStartNotFound { .. }));
}

#[test]
fn between_end_not_found_after_start() {
    let loc = Locator::Between {
        start: b"BEGIN".to_vec(),
        end: b"END".to_vec(),
        start_occ: 1,
        end_occ: 1,
        inclusive: true,
    };
    let e = resolve(&loc, b"// BEGIN\ninner\n").unwrap_err();
    assert!(matches!(e, LocateError::BetweenEndNotFound { .. }));
}

#[test]
fn between_re_inclusive() {
    let loc = Locator::BetweenRe {
        start: LineRegex::new(r"^function foo").unwrap(),
        end: LineRegex::new(r"^\}").unwrap(),
        start_occ: 1,
        end_occ: 1,
        inclusive: true,
    };
    let body = b"x\nfunction foo() {\n  return 1;\n}\ny\n";
    let r = resolve(&loc, body).unwrap();
    assert_eq!(r.start_line, 2);
    assert_eq!(r.end_line, 4);
}

#[test]
fn pattern_locator_not_resolvable() {
    let loc = Locator::Pattern { regex: ByteRegex::new(r"foo").unwrap(), count: Count::All };
    let e = resolve(&loc, b"foo\n").unwrap_err();
    assert!(matches!(e, LocateError::PatternNotResolvable));
}

#[test]
fn count_default_is_all() {
    assert_eq!(Count::default(), Count::All);
}

#[test]
fn between_second_occurrences() {
    let loc = Locator::Between {
        start: b"B".to_vec(),
        end: b"E".to_vec(),
        start_occ: 2,
        end_occ: 2,
        inclusive: true,
    };
    // starts: lines 1, 4; ends after line 4: lines 5, 6
    let r = resolve(&loc, b"B\nE\nx\nB\nE\nE\n").unwrap();
    assert_eq!(r, Resolved { start_line: 4, end_line: 6 });
}

#[test]
fn between_exclusive_with_adjacent_anchors_is_invalid_range() {
    let loc = Locator::Between {
        start: b"B".to_vec(),
        end: b"E".to_vec(),
        start_occ: 1,
        end_occ: 1,
        inclusive: false,
    };
    let e = resolve(&loc, b"B\nE\n").unwrap_err();
    assert_eq!(e, LocateError::InvalidRange { start: 2, end: 1 });
}

#[test]
fn extract_line_range_keeps_newlines() {
    assert_eq!(extract_line_range_with_newline(b"a\nb\nc", 2, 3), b"b\nc");
    assert_eq!(extract_line_range_with_newline(b"a\nb\nc\n", 1, 2), b"a\nb\n");
    assert_eq!(extract_line_range_with_newline(b"a\n", 0, 1), b"");
    assert_eq!(extract_line_range_with_newline(b"a\n", 1, 2), b"");
}

#[test]
fn split_lines_rejoin_with_newlines() {
    for c in [&b""[..], b"a\n\nb\n", b"a\r\nb\r\n", b"x\ny"] {
        let ls = split_lines(c);
        assert!(ls.iter().all(|l| !l.contains(&b'\n')));
        let mut joined: Vec<u8> = Vec::new();
        for l in &ls {
            joined.extend_from_slice(l);
            joined.push(b'\n');
        }
        let closed = c.is_empty() || c.ends_with(b"\n");
        let mut expected = c.to_vec();
        if !closed {
            expected.push(b'\n');
        }
        assert_eq!(joined, expected);
        let newlines = c.iter().filter(|&&b| b == b'\n').count();
        assert_eq!(ls.len(), newlines + usize::from(!closed));
    }
    assert_eq!(lines(b"a\r\nb\r\n"), vec!["a\r", "b\r"]);
}

#[test]
fn extract_adjacent_ranges_concatenate() {
    let c = b"one\ntwo\nthree\nfour";
    let mut both = extract_line_range_with_newline(c, 1, 2);
    both.extend(extract_line_range_with_newline(c, 3, 4));
    assert_eq!(both, extract_line_range_with_newline(c, 1, 4));
    assert_eq!(extract_line_range_with_newline(c, 1, 4), c.to_vec());
    assert_eq!(extract_line_range_with_newline(c, 2, 3), b"two\nthree\n".to_vec());
}

#[test]
fn empty_between_anchor_is_resolvable_only_where_no_line_is_tested() {
    let between = |start: &[u8], end: &[u8]| Locator::Between {
        start: start.to_vec(),
        end: end.to_vec(),
        start_occ: 1,
        end_occ: 1,
        inclusive: true,
    };
    assert!(resolvable(&between(b"", b""), b""));
    assert!(!resolvable(&between(b"", b"E"), b"a\n"));
    assert!(resolvable(&between(b"S", b""), b"a\nS\n"));
    assert!(resolvable(&between(b"S", b""), b"a\nb\n"));
    assert!(!resolvable(&between(b"S", b""), b"S\nb\n"));
    assert!(resolvable(&between(b"S", b"E"), b"S\nb\n"));
    let e = resolve(&between(b"", b"E"), b"").unwrap_err();
    assert_eq!(e, LocateError::BetweenStartNotFound { occurrence: 1 });
}
