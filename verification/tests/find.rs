use xnip::text::ops::find::{scan, write_hits, FindMode, FindOpts, Hit};
use xnip::text::pattern::{ByteRegex, LineRegex};

#[test]
fn match_line_finds_all_hits() {
    let re = LineRegex::new(r"^foo").unwrap();
    let opts = FindOpts { mode: FindMode::MatchLine(&re), max_matches: None, first_only: false };
    let hits = scan(b"foo\nbar\nfoo\n", &opts);
    assert_eq!(hits, vec![Hit { line: 1, col: 0 }, Hit { line: 3, col: 0 }]);
}

#[test]
fn match_line_first_only_stops_at_one() {
    let re = LineRegex::new(r"^foo").unwrap();
    let opts = FindOpts { mode: FindMode::MatchLine(&re), max_matches: None, first_only: true };
    let hits = scan(b"foo\nfoo\nfoo\n", &opts);
    assert_eq!(hits, vec![Hit { line: 1, col: 0 }]);
}

#[test]
fn pattern_returns_byte_col() {
    let re = ByteRegex::new(r"foo").unwrap();
    let opts = FindOpts { mode: FindMode::Pattern(&re), max_matches: None, first_only: false };
    let hits = scan(b"abc foo def\nxxfooyy\n", &opts);
    assert_eq!(hits, vec![Hit { line: 1, col: 5 }, Hit { line: 2, col: 3 }]);
}

#[test]
fn pattern_at_line_start_col_is_one() {
    let re = ByteRegex::new(r"foo").unwrap();
    let opts = FindOpts { mode: FindMode::Pattern(&re), max_matches: None, first_only: false };
    let hits = scan(b"foo\n", &opts);
    assert_eq!(hits, vec![Hit { line: 1, col: 1 }]);
}

#[test]
fn no_hits_returns_empty() {
    let re = LineRegex::new(r"xxx").unwrap();
    let opts = FindOpts { mode: FindMode::MatchLine(&re), max_matches: None, first_only: false };
    assert!(scan(b"a\nb\n", &opts).is_empty());
}

#[test]
fn write_hits_uses_path_line_for_match_line() {
    let mut buf = Vec::new();
    let entries = vec![("a.rs".to_string(), vec![Hit { line: 3, col: 0 }, Hit { line: 7, col: 0 }])];
    let n = write_hits(&entries, false, None, &mut buf).unwrap();
    assert_eq!(n, 2);
    assert_eq!(String::from_utf8(buf).unwrap(), "a.rs:3\na.rs:7\n");
}

#[test]
fn write_hits_uses_path_line_col_for_pattern() {
    let mut buf = Vec::new();
    let entries = vec![("a.rs".to_string(), vec![Hit { line: 3, col: 5 }])];
    let n = write_hits(&entries, true, None, &mut buf).unwrap();
    assert_eq!(n, 1);
    assert_eq!(String::from_utf8(buf).unwrap(), "a.rs:3:5\n");
}

#[test]
fn write_hits_respects_max_matches() {
    let mut buf = Vec::new();
    let entries = vec![(
        "a".to_string(),
        vec![Hit { line: 1, col: 0 }, Hit { line: 2, col: 0 }, Hit { line: 3, col: 0 }],
    )];
    let n = write_hits(&entries, false, Some(2), &mut buf).unwrap();
    assert_eq!(n, 2);
    assert_eq!(String::from_utf8(buf).unwrap(), "a:1\na:2\n");
}

#[test]
fn write_hits_iterates_multiple_files_in_order() {
    let mut buf = Vec::new();
    let entries = vec![
        ("a".to_string(), vec![Hit { line: 1, col: 0 }]),
        ("b".to_string(), vec![Hit { line: 2, col: 0 }]),
    ];
    let n = write_hits(&entries, false, None, &mut buf).unwrap();
    assert_eq!(n, 2);
    assert_eq!(String::from_utf8(buf).unwrap(), "a:1\nb:2\n");
}

#[test]
fn pattern_first_only_and_match_spanning_lines() {
    let re = ByteRegex::new(r"b\nc").unwrap();
    let opts = FindOpts { mode: FindMode::Pattern(&re), max_matches: None, first_only: true };
    let hits = scan(b"ab\ncd\nab\ncd\n", &opts);
    assert_eq!(hits, vec![Hit { line: 1, col: 2 }]);
}

#[test]
fn write_hits_appends_to_existing_output() {
    let mut buf = b"head\n".to_vec();
    let entries = vec![("x".to_string(), vec![Hit { line: 10, col: 12 }])];
    let n = write_hits(&entries, true, Some(0), &mut buf).unwrap();
    assert_eq!(n, 0);
    assert_eq!(buf, b"head\n");
    let n = write_hits(&entries, true, None, &mut buf).unwrap();
    assert_eq!(n, 1);
    assert_eq!(buf, b"head\nx:10:12\n");
}
