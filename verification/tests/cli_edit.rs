use xnip::apply::commit::{ExecError, OpError};
use xnip::apply::{Op, OpContent, Target, Was};
use xnip::cli::common::ArgsError;
use xnip::cli::edit::{
    edit_exit_code, indent_command_op, indent_command_range, move_source, replace_command,
    EditError, IndentArgsError, MoveArgsError,
};
use xnip::cli::read::{
    exec_exit_code, find_regex, find_report, has_stdin_content, peek_command_opts, peek_exit_code,
    FindArgsError, FindRegex, PeekArgsError,
};
use xnip::text::location::{Count, LocateError, Locator};
use xnip::text::ops::find::Hit;
use xnip::text::ops::indent::IndentOp;
use xnip::text::ops::peek::{PeekError, PeekRange};
use xnip::text::pattern::ByteRegex;

fn pattern(p: &str) -> Locator {
    Locator::Pattern { regex: ByteRegex::new(p).unwrap(), count: Count::All }
}

#[test]
fn replace_command_pattern_substitutes_and_refuses_no_match() {
    let ok = replace_command(b"foo bar foo\n", &pattern("foo"), &OpContent::Repl("BAZ".into()), &None, false, &Ok(vec![]));
    assert_eq!(ok.unwrap(), b"BAZ bar BAZ\n");
    let none = replace_command(b"abc\n", &pattern("foo"), &OpContent::Repl("X".into()), &None, false, &Ok(vec![]));
    assert!(matches!(none, Err(EditError::NoMatch)));
    assert_eq!(edit_exit_code(&none.unwrap_err()), 3);
}

#[test]
fn replace_command_pattern_revert_swaps() {
    let r = replace_command(b"bar\n", &pattern("foo"), &OpContent::Repl("bar".into()), &None, true, &Ok(vec![]));
    assert_eq!(r.unwrap(), b"foo\n");
}

#[test]
fn replace_command_range_was_mismatch_is_a_failed_check() {
    let r = replace_command(
        b"a\nactual\nc\n",
        &Locator::Lines { start: 2, end: 2 },
        &OpContent::Text(b"new".to_vec()),
        &Some(Was::Bytes(b"expected\n".to_vec())),
        false,
        &Ok(vec![]),
    );
    let e = r.unwrap_err();
    assert!(matches!(e, EditError::Op(OpError::WasMismatch { .. })));
    assert_eq!(edit_exit_code(&e), 3);
}

#[test]
fn replace_command_range_revert_restores_was() {
    let r = replace_command(
        b"new\nkeep\n",
        &Locator::Lines { start: 1, end: 1 },
        &OpContent::Text(b"new".to_vec()),
        &Some(Was::Bytes(b"orig\n".to_vec())),
        true,
        &Ok(vec![]),
    );
    assert_eq!(r.unwrap(), b"orig\nkeep\n");
}

#[test]
fn replace_command_out_of_bounds_is_a_usage_error() {
    let r = replace_command(b"a\n", &Locator::Lines { start: 3, end: 3 }, &OpContent::Text(b"x".to_vec()), &None, false, &Ok(vec![]));
    let e = r.unwrap_err();
    assert!(matches!(e, EditError::Op(OpError::Locate(LocateError::OutOfBounds { .. }))));
    assert_eq!(edit_exit_code(&e), 1);
}

#[test]
fn move_source_variants() {
    assert!(matches!(move_source(Some("1-2"), None, 1, false), Ok(Locator::Lines { start: 1, end: 2 })));
    assert!(matches!(move_source(None, Some("^a"), 0, false), Ok(Locator::MatchLine { occurrence: 1, .. })));
    assert!(matches!(move_source(Some("1"), Some("x"), 1, false), Err(MoveArgsError::ConflictingSources)));
    assert!(matches!(move_source(None, None, 1, false), Err(MoveArgsError::MissingSource)));
    assert!(matches!(move_source(None, Some("^a$"), 1, true), Err(MoveArgsError::RevertNeedsLines)));
    assert!(matches!(move_source(None, Some("("), 1, false), Err(MoveArgsError::InvalidRegex)));
    assert!(matches!(move_source(Some("x"), None, 1, false), Err(MoveArgsError::Lines(ArgsError::InvalidLineNumber))));
}

#[test]
fn indent_range_and_op() {
    assert_eq!(indent_command_range(None, true, b"a\nb\n"), Ok(Some((1, 2))));
    assert_eq!(indent_command_range(None, true, b""), Ok(None));
    assert_eq!(indent_command_range(Some("2-3"), false, b""), Ok(Some((2, 3))));
    assert_eq!(indent_command_range(None, false, b"a\n"), Err(IndentArgsError::MissingRange));
    assert_eq!(indent_command_range(Some("1"), true, b"a\n"), Err(IndentArgsError::ConflictingRange));
    assert_eq!(indent_command_op(Some(2), None, None, None, false), Ok(IndentOp::Add(2)));
    assert_eq!(indent_command_op(Some(2), None, None, None, true), Ok(IndentOp::Remove(2)));
    assert_eq!(indent_command_op(None, None, Some(4), None, true), Ok(IndentOp::SpacesToTabs(4)));
    assert_eq!(indent_command_op(None, None, None, None, false), Err(IndentArgsError::MissingOp));
    assert_eq!(indent_command_op(Some(1), Some(1), None, None, false), Err(IndentArgsError::ConflictingOps));
}

#[test]
fn peek_options() {
    let o = peek_command_opts(None, None, 0, true, None).unwrap();
    assert!(matches!(o.range, PeekRange::All));
    assert_eq!(o.max_lines, Some(1000));
    let o = peek_command_opts(Some("2-3"), None, 0, false, None).unwrap();
    assert!(matches!(o.range, PeekRange::Lines { start: 2, end: 3 }));
    assert_eq!(o.max_lines, None);
    let o = peek_command_opts(None, Some("^foo"), 2, false, Some(5)).unwrap();
    assert!(matches!(o.range, PeekRange::MatchLine { context: 2, .. }));
    assert_eq!(o.max_lines, Some(5));
    assert!(matches!(peek_command_opts(None, None, 0, false, None), Err(PeekArgsError::MissingRange)));
    assert!(matches!(peek_command_opts(Some("1"), None, 0, true, None), Err(PeekArgsError::ConflictingRange)));
    assert!(matches!(peek_command_opts(Some("1"), None, 1, false, None), Err(PeekArgsError::ContextWithoutMatchLine)));
    assert_eq!(peek_exit_code(&PeekError::Locate(LocateError::ZeroLine)), 1);
    assert_eq!(peek_exit_code(&PeekError::Io("x".into())), 2);
}

#[test]
fn find_options_and_report() {
    assert!(matches!(find_regex(None, Some("^a")), Ok(FindRegex::Line(_))));
    assert!(matches!(find_regex(Some("a"), None), Ok(FindRegex::Bytes(_))));
    assert!(matches!(find_regex(None, None), Err(FindArgsError::MissingLocator)));
    assert!(matches!(find_regex(Some("("), None), Err(FindArgsError::InvalidPattern)));
    let mut out = Vec::new();
    let hits = vec![("a".to_string(), vec![]), ("b".to_string(), vec![Hit { line: 2, col: 0 }])];
    assert_eq!(find_report(&hits, false, None, &mut out), 0);
    assert_eq!(out, b"b:2\n");
    let mut out = Vec::new();
    let none = vec![("a".to_string(), vec![])];
    assert_eq!(find_report(&none, false, None, &mut out), 1);
    assert!(out.is_empty());
}

#[test]
fn apply_exit_codes_and_stdin_detection() {
    assert_eq!(exec_exit_code(&ExecError::Phase1 { path: "a".into(), msg: "m".into() }), 3);
    assert_eq!(exec_exit_code(&ExecError::Phase2 { path: "a".into(), msg: "m".into(), committed: vec![] }), 4);
    assert_eq!(exec_exit_code(&ExecError::Io("x".into())), 2);
    let mk = |c: OpContent| Op::Replace {
        target: Target::File("a".into()),
        locator: Locator::Lines { start: 1, end: 1 },
        content: c,
        was: None,
        revert: false,
    };
    assert!(!has_stdin_content(&[mk(OpContent::Text(b"x".to_vec()))]));
    assert!(has_stdin_content(&[mk(OpContent::Empty), mk(OpContent::Stdin)]));
}

#[test]
fn replace_command_range_revert_reads_content_before_locating() {
    let lines = Locator::Lines { start: 5, end: 5 };
    let was = Some(Was::Bytes(b"orig\n".to_vec()));
    let r = replace_command(b"a\n", &lines, &OpContent::File("gone".into()), &was, true, &Err("missing".into()));
    assert!(matches!(r, Err(EditError::Op(OpError::ContentRead(_)))));
    let r = replace_command(b"a\n", &lines, &OpContent::Repl("x".into()), &was, true, &Ok(vec![]));
    assert!(matches!(r, Err(EditError::Op(OpError::ReplNotBytes))));
    let r = replace_command(b"a\n", &lines, &OpContent::Text(b"new".to_vec()), &was, true, &Ok(vec![]));
    assert!(matches!(r, Err(EditError::Op(OpError::Locate(_)))));
}
