use xnip::apply::raw::{ops_from_raw, parse_lines_str, RawError, RawOp, Scalar};
use xnip::apply::{IndentKind, MovePosition, Op, OpContent, Target, Was};
use xnip::text::location::{Count, Locator};

fn raw(op: &str) -> RawOp {
    RawOp {
        op: op.to_string(),
        file: Some("a.txt".to_string()),
        files_from: None,
        lines: None,
        match_line: None,
        occurrence: None,
        between: None,
        between_re: None,
        inclusive: None,
        pattern: None,
        count: None,
        text: None,
        text_file: None,
        repl: None,
        where_: None,
        to: None,
        by: None,
        tabs_to_spaces: None,
        spaces_to_tabs: None,
        revert: None,
        was: None,
        was_file: None,
    }
}

fn one(r: RawOp) -> Op {
    let mut v = ops_from_raw(vec![r]).ok().unwrap();
    v.remove(0)
}

fn err(r: RawOp) -> RawError {
    ops_from_raw(vec![r]).err().unwrap().1
}

#[test]
fn raw_replace_lines_with_text() {
    let mut r = raw("replace");
    r.lines = Some(Scalar::Text("30".to_string()));
    r.text = Some("X".to_string());
    match one(r) {
        Op::Replace { target, locator, content, was, revert } => {
            assert!(matches!(target, Target::File(p) if p == "a.txt"));
            assert!(matches!(locator, Locator::Lines { start: 30, end: 30 }));
            assert!(matches!(content, OpContent::Text(b) if b == b"X"));
            assert!(was.is_none());
            assert!(!revert);
        }
        _ => panic!("expected Replace"),
    }
}

#[test]
fn raw_lines_range_string_and_number() {
    let mut r = raw("replace");
    r.lines = Some(Scalar::Text("30-45".to_string()));
    r.text = Some(String::new());
    assert!(matches!(one(r), Op::Replace { locator: Locator::Lines { start: 30, end: 45 }, content: OpContent::Empty, .. }));
    let mut r = raw("replace");
    r.lines = Some(Scalar::Unsigned(5));
    r.text = Some("X".to_string());
    assert!(matches!(one(r), Op::Replace { locator: Locator::Lines { start: 5, end: 5 }, .. }));
}

#[test]
fn raw_pattern_repl_and_counts() {
    let mut r = raw("replace");
    r.pattern = Some("OLD".to_string());
    r.repl = Some("NEW".to_string());
    r.count = Some(Scalar::Text("all".to_string()));
    match one(r) {
        Op::Replace { locator: Locator::Pattern { regex, count }, content, .. } => {
            assert_eq!(regex.as_str(), "OLD");
            assert_eq!(count, Count::All);
            assert!(matches!(content, OpContent::Repl(s) if s == "NEW"));
        }
        _ => panic!(),
    }
    let mut r = raw("replace");
    r.pattern = Some("x".to_string());
    r.repl = Some("y".to_string());
    r.count = Some(Scalar::Unsigned(3));
    assert!(matches!(one(r), Op::Replace { locator: Locator::Pattern { count: Count::First(3), .. }, .. }));
}

#[test]
fn raw_insert_move_indent() {
    let mut r = raw("insert");
    r.lines = Some(Scalar::Unsigned(5));
    r.where_ = Some("after".to_string());
    r.text = Some("X".to_string());
    assert!(matches!(one(r), Op::Insert { position: MovePosition::After, .. }));

    let mut r = raw("move");
    r.lines = Some(Scalar::Text("10-20".to_string()));
    r.to = Some(100);
    match one(r) {
        Op::Move { from, to_line, position, .. } => {
            assert!(matches!(from, Locator::Lines { start: 10, end: 20 }));
            assert_eq!(to_line, 100);
            assert!(matches!(position, MovePosition::After));
        }
        _ => panic!(),
    }

    let mut r = raw("indent");
    r.lines = Some(Scalar::Text("1-9".to_string()));
    r.by = Some(2);
    assert!(matches!(one(r), Op::Indent { kind: IndentKind::Adjust(2), .. }));

    let mut r = raw("indent");
    r.lines = Some(Scalar::Text("1-9".to_string()));
    r.tabs_to_spaces = Some(4);
    assert!(matches!(one(r), Op::Indent { kind: IndentKind::TabsToSpaces(4), .. }));
}

#[test]
fn raw_between_pair_was_and_revert() {
    let mut r = raw("replace");
    r.between = Some(vec!["BEGIN".to_string(), "END".to_string()]);
    r.text = Some(String::new());
    match one(r) {
        Op::Replace { locator: Locator::Between { start, end, .. }, .. } => {
            assert_eq!(start, b"BEGIN");
            assert_eq!(end, b"END");
        }
        _ => panic!(),
    }
    let mut r = raw("replace");
    r.lines = Some(Scalar::Text("3".to_string()));
    r.text = Some("new".to_string());
    r.was = Some("old\n".to_string());
    assert!(matches!(one(r), Op::Replace { was: Some(Was::Bytes(b)), .. } if b == b"old\n"));
    let mut r = raw("replace");
    r.pattern = Some("x".to_string());
    r.repl = Some("y".to_string());
    r.revert = Some(true);
    assert!(matches!(one(r), Op::Replace { revert: true, .. }));
}

#[test]
fn raw_errors() {
    assert_eq!(err(raw("unknown")), RawError::UnknownOp);
    let mut r = raw("replace");
    r.file = None;
    r.lines = Some(Scalar::Text("1".to_string()));
    r.text = Some("x".to_string());
    assert_eq!(err(r), RawError::MissingTarget);
    let mut r = raw("replace");
    r.lines = Some(Scalar::Text("1".to_string()));
    r.match_line = Some("x".to_string());
    r.text = Some("y".to_string());
    assert_eq!(err(r), RawError::ConflictingLocators);
    let mut r = raw("replace");
    r.between = Some(vec!["only".to_string()]);
    r.text = Some("y".to_string());
    assert_eq!(err(r), RawError::BetweenNotPair);
}

#[test]
fn raw_error_reports_index() {
    let mut good = raw("replace");
    good.lines = Some(Scalar::Unsigned(1));
    good.text = Some("x".to_string());
    let bad = raw("frob");
    let e = ops_from_raw(vec![good, bad]).err().unwrap();
    assert_eq!(e, (1, RawError::UnknownOp));
    assert_eq!(ops_from_raw(vec![]).ok().unwrap().len(), 0);
}

#[test]
fn raw_lines_string_errors() {
    assert_eq!(parse_lines_str("7"), Ok((7, 7)));
    assert_eq!(parse_lines_str("a-3"), Err(RawError::InvalidLinesStart));
    assert_eq!(parse_lines_str("3-b"), Err(RawError::InvalidLinesEnd));
}
