use xnip::apply::group::{bytes_less, group_by_key};
use xnip::apply::commit::{
    apply_indent_op, apply_ops, effective_pattern_replacement, files_from_entries, materialize_stdin,
    order_by_descending_key, ExecError, ExecOpts, OpError,
};
use xnip::apply::{IndentKind, MovePosition, Op, OpContent, Target, Was};
use xnip::text::location::{Count, LocateError, Locator};
use xnip::text::pattern::ByteRegex;

fn file() -> Target {
    Target::File("a.txt".to_string())
}

fn replace_lines(s: usize, e: usize, text: &[u8], was: Option<&[u8]>) -> Op {
    Op::Replace {
        target: file(),
        locator: Locator::Lines { start: s, end: e },
        content: OpContent::Text(text.to_vec()),
        was: was.map(|w| Was::Bytes(w.to_vec())),
        revert: false,
    }
}

fn no_files(n: usize) -> Vec<Result<Vec<u8>, String>> {
    (0..n).map(|_| Ok(Vec::new())).collect()
}

#[test]
fn apply_ops_single_replace() {
    let ops = vec![replace_lines(2, 2, b"B", None)];
    assert_eq!(apply_ops(&ops, b"a\nb\nc\n", &no_files(1)).unwrap().unwrap(), b"a\nB\nc\n");
}

#[test]
fn apply_ops_runs_bottom_up_whatever_the_input_order() {
    let forward = vec![replace_lines(2, 2, b"X", None), replace_lines(4, 4, b"Y", None)];
    let backward = vec![replace_lines(4, 4, b"Y", None), replace_lines(2, 2, b"X", None)];
    let c = b"1\n2\n3\n4\n5\n";
    assert_eq!(apply_ops(&forward, c, &no_files(2)).unwrap().unwrap(), b"1\nX\n3\nY\n5\n");
    assert_eq!(apply_ops(&backward, c, &no_files(2)).unwrap().unwrap(), b"1\nX\n3\nY\n5\n");
}

#[test]
fn apply_ops_line_shifts_do_not_leak_between_ops() {
    let ops = vec![replace_lines(1, 1, b"A\nA2\nA3", None), replace_lines(3, 3, b"C", None)];
    assert_eq!(apply_ops(&ops, b"a\nb\nc\n", &no_files(2)).unwrap().unwrap(), b"A\nA2\nA3\nb\nC\n");
}

#[test]
fn apply_ops_out_of_bounds_fails() {
    let ops = vec![replace_lines(100, 200, b"x", None)];
    let err = apply_ops(&ops, b"orig\n", &no_files(1)).unwrap().unwrap_err();
    assert!(matches!(err, OpError::Locate(LocateError::OutOfBounds { .. })));
}

#[test]
fn apply_ops_was_check_passes() {
    let ops = vec![replace_lines(2, 2, b"new", Some(b"old\n"))];
    assert_eq!(apply_ops(&ops, b"a\nold\nc\n", &no_files(1)).unwrap().unwrap(), b"a\nnew\nc\n");
}

#[test]
fn apply_ops_was_check_fails() {
    let ops = vec![replace_lines(2, 2, b"new", Some(b"expected\n"))];
    let err = apply_ops(&ops, b"a\nactual\nc\n", &no_files(1)).unwrap().unwrap_err();
    assert!(matches!(err, OpError::WasMismatch { start: 2, end: 2, expected: 9, actual: 7 }));
}

#[test]
fn apply_ops_indent_move_insert() {
    let indent = vec![Op::Indent {
        target: file(),
        locator: Locator::Lines { start: 1, end: 2 },
        kind: IndentKind::Adjust(2),
        revert: false,
    }];
    assert_eq!(apply_ops(&indent, b"a\nb\n", &no_files(1)).unwrap().unwrap(), b"  a\n  b\n");

    let mv = vec![Op::Move {
        target: file(),
        from: Locator::Lines { start: 1, end: 1 },
        to_line: 3,
        position: MovePosition::After,
        revert: false,
    }];
    assert_eq!(apply_ops(&mv, b"1\n2\n3\n", &no_files(1)).unwrap().unwrap(), b"2\n3\n1\n");

    let ins = vec![Op::Insert {
        target: file(),
        locator: Locator::Lines { start: 1, end: 1 },
        content: OpContent::Text(b"b".to_vec()),
        position: MovePosition::After,
        revert: false,
    }];
    assert_eq!(apply_ops(&ins, b"a\nc\n", &no_files(1)).unwrap().unwrap(), b"a\nb\nc\n");
}

#[test]
fn apply_ops_pattern_replacement() {
    let ops = vec![Op::Replace {
        target: file(),
        locator: Locator::Pattern { regex: ByteRegex::new("foo").unwrap(), count: Count::All },
        content: OpContent::Repl("BAR".to_string()),
        was: None,
        revert: false,
    }];
    assert_eq!(apply_ops(&ops, b"foo\nfoo\n", &no_files(1)).unwrap().unwrap(), b"BAR\nBAR\n");
}

#[test]
fn apply_ops_pattern_revert_swaps_sides() {
    let ops = vec![Op::Replace {
        target: file(),
        locator: Locator::Pattern { regex: ByteRegex::new("foo").unwrap(), count: Count::All },
        content: OpContent::Repl("bar".to_string()),
        was: None,
        revert: true,
    }];
    assert_eq!(apply_ops(&ops, b"bar\n", &no_files(1)).unwrap().unwrap(), b"foo\n");
}

#[test]
fn apply_ops_reverts_each_kind() {
    let insert_back = vec![Op::Insert {
        target: file(),
        locator: Locator::Lines { start: 1, end: 1 },
        content: OpContent::Text(b"b".to_vec()),
        position: MovePosition::After,
        revert: true,
    }];
    assert_eq!(apply_ops(&insert_back, b"a\nb\nc\n", &no_files(1)).unwrap().unwrap(), b"a\nc\n");

    let replace_back = vec![Op::Replace {
        target: file(),
        locator: Locator::Lines { start: 1, end: 1 },
        content: OpContent::Text(b"new".to_vec()),
        was: Some(Was::Bytes(b"orig\n".to_vec())),
        revert: true,
    }];
    assert_eq!(apply_ops(&replace_back, b"new\nkeep\n", &no_files(1)).unwrap().unwrap(), b"orig\nkeep\n");

    let move_back = vec![Op::Move {
        target: file(),
        from: Locator::Lines { start: 1, end: 2 },
        to_line: 5,
        position: MovePosition::After,
        revert: true,
    }];
    assert_eq!(apply_ops(&move_back, b"c\nd\ne\na\nb\n", &no_files(1)).unwrap().unwrap(), b"a\nb\nc\nd\ne\n");

    let indent_back = vec![Op::Indent {
        target: file(),
        locator: Locator::Lines { start: 1, end: 2 },
        kind: IndentKind::Adjust(2),
        revert: true,
    }];
    assert_eq!(apply_ops(&indent_back, b"  a\n  b\n", &no_files(1)).unwrap().unwrap(), b"a\nb\n");
}

#[test]
fn apply_ops_content_file_bytes_and_read_error() {
    let ops = vec![Op::Replace {
        target: file(),
        locator: Locator::Lines { start: 1, end: 1 },
        content: OpContent::File("snippet.txt".to_string()),
        was: None,
        revert: false,
    }];
    let files = vec![Ok(b"S".to_vec())];
    assert_eq!(apply_ops(&ops, b"a\n", &files).unwrap().unwrap(), b"S\n");
    let files = vec![Err("gone".to_string())];
    assert!(matches!(apply_ops(&ops, b"a\n", &files).unwrap(), Err(OpError::ContentRead(m)) if m == "gone"));
}

#[test]
fn apply_ops_unbound_stdin_is_refused() {
    let ops = vec![Op::Replace {
        target: file(),
        locator: Locator::Lines { start: 1, end: 1 },
        content: OpContent::Stdin,
        was: None,
        revert: false,
    }];
    assert!(matches!(apply_ops(&ops, b"a\n", &no_files(1)).unwrap(), Err(OpError::StdinNotBound)));
}

#[test]
fn order_is_descending_and_stable() {
    assert_eq!(order_by_descending_key(&[2, 5, 2, 9]), vec![3, 1, 0, 2]);
    assert_eq!(order_by_descending_key(&[]), Vec::<usize>::new());
}

#[test]
fn files_from_list_skips_blank_and_comment_lines() {
    let list = "x.txt\n\n  # note\n  y.txt  \r\nz";
    assert_eq!(files_from_entries(list), vec!["x.txt", "y.txt", "z"]);
}

#[test]
fn stdin_binds_to_the_single_reader() {
    let ops = vec![
        replace_lines(1, 1, b"x", None),
        Op::Replace {
            target: file(),
            locator: Locator::Lines { start: 2, end: 2 },
            content: OpContent::Stdin,
            was: None,
            revert: false,
        },
    ];
    let opts = ExecOpts { stdin_bytes: Some(b"IN".to_vec()), ..ExecOpts::default() };
    let out = materialize_stdin(ops, &opts).unwrap();
    assert!(matches!(&out[1], Op::Replace { content: OpContent::Text(b), .. } if b == b"IN"));
}

#[test]
fn stdin_read_twice_is_refused() {
    let mk = |l: usize| Op::Replace {
        target: file(),
        locator: Locator::Lines { start: l, end: l },
        content: OpContent::Stdin,
        was: None,
        revert: false,
    };
    let opts = ExecOpts { stdin_bytes: Some(b"IN".to_vec()), ..ExecOpts::default() };
    assert!(matches!(materialize_stdin(vec![mk(1), mk(2)], &opts), Err(ExecError::Phase1 { .. })));
    assert!(materialize_stdin(vec![mk(1)], &ExecOpts::default()).is_err());
}

#[test]
fn effective_pair_swaps_only_when_reverting() {
    assert_eq!(effective_pattern_replacement("a.b", "x+y", false), ("a.b".to_string(), "x+y".to_string()));
    assert_eq!(effective_pattern_replacement("a.b", "x+y", true), (r"x\+y".to_string(), "a.b".to_string()));
}

#[test]
fn apply_ops_empty_between_anchor_only_fails_where_a_line_is_tested() {
    let between = |start: &str, end: &str| Op::Replace {
        target: Target::File("f".into()),
        locator: Locator::Between {
            start: start.as_bytes().to_vec(),
            end: end.as_bytes().to_vec(),
            start_occ: 1,
            end_occ: 1,
            inclusive: true,
        },
        content: OpContent::Text(b"X".to_vec()),
        was: None,
        revert: false,
    };
    // No line to test: the start anchor is simply not found.
    let empty = apply_ops(&[between("", "E")], b"", &no_files(1)).unwrap();
    assert!(matches!(empty, Err(OpError::Locate(LocateError::BetweenStartNotFound { .. }))));
    // The start anchor is on the last line: the empty end anchor is never tested.
    let last = apply_ops(&[between("S", "")], b"a\nS\n", &no_files(1)).unwrap();
    assert!(matches!(last, Err(OpError::Locate(LocateError::BetweenEndNotFound { .. }))));
    // A line would be tested against an empty anchor.
    assert!(apply_ops(&[between("", "E")], b"a\n", &no_files(1)).is_none());
    assert!(apply_ops(&[between("S", "")], b"S\nb\n", &no_files(1)).is_none());
}

#[test]
fn group_by_key_orders_files_and_keeps_each_files_operations_in_order() {
    let keys: Vec<Vec<u8>> = vec![b"b".to_vec(), b"a".to_vec(), b"b".to_vec(), b"c".to_vec(), b"a".to_vec()];
    let groups = group_by_key(&keys);
    assert_eq!(
        groups,
        vec![(b"a".to_vec(), vec![1, 4]), (b"b".to_vec(), vec![0, 2]), (b"c".to_vec(), vec![3])]
    );
    assert!(group_by_key(&[]).is_empty());
    assert!(bytes_less(b"ab", b"abc"));
    assert!(!bytes_less(b"abc", b"ab"));
    assert!(!bytes_less(b"ab", b"ab"));
    assert!(bytes_less(b"a\x00", b"a\x01"));
}

#[test]
fn apply_indent_op_add_is_undone_by_revert() {
    use_indent_round_trip(b"a\n  b\nc\n", 2, 3, 4);
    use_indent_round_trip(b"x\n", 1, 1, 0);
}

fn use_indent_round_trip(c: &[u8], s: usize, e: usize, n: i64) {
    let loc = Locator::Lines { start: s, end: e };
    let fwd = apply_indent_op(c, &loc, IndentKind::Adjust(n), false).unwrap();
    let back = apply_indent_op(&fwd, &loc, IndentKind::Adjust(n), true).unwrap();
    assert_eq!(back, c.to_vec());
}
