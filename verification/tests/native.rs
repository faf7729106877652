use xnip::apply::parse_native::{parse, tokenize, LexError, NativeError};
use xnip::apply::{IndentKind, MovePosition, Op, OpContent, Target, Was};
use xnip::text::location::{Count, Locator};

#[test]
fn tokenize_simple() {
    let toks = tokenize(r#"replace src/Foo.vue 30 "const X = 1;""#).unwrap();
    assert_eq!(toks.len(), 4);
    assert_eq!(toks[0].bytes, b"replace");
    assert!(!toks[0].quoted);
    assert_eq!(toks[3].bytes, b"const X = 1;");
    assert!(toks[3].quoted);
}

#[test]
fn tokenize_escape_sequences() {
    let toks = tokenize(r#"x "a\nb\tc\\d\"e""#).unwrap();
    assert_eq!(toks.len(), 2);
    assert_eq!(toks[1].bytes, b"a\nb\tc\\d\"e");
}

#[test]
fn tokenize_unclosed_quote_errors() {
    assert!(tokenize(r#"x "unclosed"#).is_err());
}

#[test]
fn tokenize_between_literal_emits_single_token() {
    let toks = tokenize(r#""A".."B""#).unwrap();
    assert_eq!(toks.len(), 1);
    let bl = toks[0].between_literal.as_ref().unwrap();
    assert_eq!(bl.start, b"A");
    assert_eq!(bl.end, b"B");
    assert!(!bl.inclusive);
}

#[test]
fn tokenize_keeps_spaces_inside_atoms() {
    let toks = tokenize("replace a.txt ~/^fn foo/..~/^}/i s/a b/c d/g").unwrap();
    assert_eq!(toks.len(), 4);
    assert_eq!(toks[2].bytes, b"~/^fn foo/..~/^}/i");
    assert_eq!(toks[3].bytes, b"s/a b/c d/g");
}

#[test]
fn tokenize_between_re_without_separator_errors() {
    assert_eq!(tokenize("x ~/a/ b").unwrap_err(), LexError::MissingBetweenSeparator);
}

#[test]
fn tokenize_unknown_escape_is_kept() {
    let toks = tokenize(r#""a\qb""#).unwrap();
    assert_eq!(toks[0].bytes, b"a\\qb");
}

#[test]
fn parse_replace_lines_basic() {
    let ops = parse(r#"replace a.txt 30 "X""#).unwrap();
    assert_eq!(ops.len(), 1);
    match &ops[0] {
        Op::Replace { target, locator, content, .. } => {
            assert!(matches!(target, Target::File(p) if p == "a.txt"));
            assert!(matches!(locator, Locator::Lines { start: 30, end: 30 }));
            assert!(matches!(content, OpContent::Text(b) if b == b"X"));
        }
        _ => panic!(),
    }
}

#[test]
fn parse_replace_range_with_empty_text() {
    let ops = parse(r#"replace a.txt 30-45 """#).unwrap();
    match &ops[0] {
        Op::Replace { content, .. } => assert!(matches!(content, OpContent::Empty)),
        _ => panic!(),
    }
}

#[test]
fn parse_replace_external_text_file() {
    let ops = parse(r#"replace a.txt 30-45 @./snippets/x.txt"#).unwrap();
    match &ops[0] {
        Op::Replace { content: OpContent::File(p), .. } => assert_eq!(p, "./snippets/x.txt"),
        _ => panic!(),
    }
}

#[test]
fn parse_replace_match_line() {
    let ops = parse(r#"replace a.txt =/^const PORT/ "X""#).unwrap();
    match &ops[0] {
        Op::Replace { locator: Locator::MatchLine { regex, occurrence: 1 }, .. } => {
            assert_eq!(regex.as_str(), "^const PORT");
        }
        _ => panic!(),
    }
}

#[test]
fn parse_replace_match_line_occurrence() {
    let ops = parse(r#"replace a.txt =/^foo/2 "X""#).unwrap();
    match &ops[0] {
        Op::Replace { locator: Locator::MatchLine { occurrence, .. }, .. } => {
            assert_eq!(*occurrence, 2);
        }
        _ => panic!(),
    }
}

#[test]
fn parse_replace_between_re() {
    let ops = parse(r#"replace a.txt ~/^function foo/..~/^}/ """#).unwrap();
    match &ops[0] {
        Op::Replace { locator: Locator::BetweenRe { start, end, inclusive, .. }, .. } => {
            assert_eq!(start.as_str(), "^function foo");
            assert_eq!(end.as_str(), "^}");
            assert!(!inclusive);
        }
        _ => panic!(),
    }
}

#[test]
fn parse_replace_between_re_inclusive() {
    let ops = parse(r#"replace a.txt ~/^function foo/..~/^}/i """#).unwrap();
    match &ops[0] {
        Op::Replace { locator: Locator::BetweenRe { inclusive, .. }, .. } => assert!(inclusive),
        _ => panic!(),
    }
}

#[test]
fn parse_replace_was_inline() {
    let ops = parse(r#"replace a.txt 30 "new" was="old""#).unwrap();
    match &ops[0] {
        Op::Replace { was, .. } => {
            assert!(matches!(was, Some(Was::Bytes(b)) if b == b"old"));
        }
        _ => panic!(),
    }
}

#[test]
fn parse_insert_with_position() {
    let ops = parse(r#"insert a.txt 5 after "import X""#).unwrap();
    match &ops[0] {
        Op::Insert { position, content, .. } => {
            assert!(matches!(position, MovePosition::After));
            assert!(matches!(content, OpContent::Text(b) if b == b"import X"));
        }
        _ => panic!(),
    }
}

#[test]
fn parse_insert_before() {
    let ops = parse(r#"insert a.txt 5 before "X""#).unwrap();
    match &ops[0] {
        Op::Insert { position, .. } => assert!(matches!(position, MovePosition::Before)),
        _ => panic!(),
    }
}

#[test]
fn parse_move_basic() {
    let ops = parse(r#"move a.txt 10-20 100"#).unwrap();
    match &ops[0] {
        Op::Move { from, to_line, position, .. } => {
            assert!(matches!(from, Locator::Lines { start: 10, end: 20 }));
            assert_eq!(*to_line, 100);
            assert!(matches!(position, MovePosition::After));
        }
        _ => panic!(),
    }
}

#[test]
fn parse_indent_add() {
    let ops = parse(r#"indent a.txt 30-45 +2"#).unwrap();
    match &ops[0] {
        Op::Indent { kind, .. } => assert!(matches!(kind, IndentKind::Adjust(2))),
        _ => panic!(),
    }
}

#[test]
fn parse_indent_remove() {
    let ops = parse(r#"indent a.txt 30-45 -2"#).unwrap();
    match &ops[0] {
        Op::Indent { kind, .. } => assert!(matches!(kind, IndentKind::Adjust(-2))),
        _ => panic!(),
    }
}

#[test]
fn parse_indent_t2s() {
    let ops = parse(r#"indent a.txt 1-99 t2s:4"#).unwrap();
    match &ops[0] {
        Op::Indent { kind, .. } => assert!(matches!(kind, IndentKind::TabsToSpaces(4))),
        _ => panic!(),
    }
}

#[test]
fn parse_indent_s2t() {
    let ops = parse(r#"indent a.txt 1-99 s2t:4"#).unwrap();
    match &ops[0] {
        Op::Indent { kind, .. } => assert!(matches!(kind, IndentKind::SpacesToTabs(4))),
        _ => panic!(),
    }
}

#[test]
fn parse_files_from() {
    let ops = parse(r#"replace --files-from list.txt 1-2 """#).unwrap();
    match &ops[0] {
        Op::Replace { target: Target::FilesFrom(p), .. } => assert_eq!(p, "list.txt"),
        _ => panic!(),
    }
}

#[test]
fn parse_comments_and_blank_lines_skipped() {
    let src = "# this is a comment\n\nreplace a.txt 1 \"X\"\n# another\n";
    let ops = parse(src).unwrap();
    assert_eq!(ops.len(), 1);
}

#[test]
fn parse_multiple_ops_one_per_line() {
    let src = "replace a 1 \"X\"\ninsert a 1 after \"Y\"\nindent a 1-2 +2\n";
    let ops = parse(src).unwrap();
    assert_eq!(ops.len(), 3);
}

#[test]
fn parse_unknown_op_errors() {
    assert!(parse(r#"frobnicate a.txt 1"#).is_err());
}

#[test]
fn parse_missing_locator_errors() {
    assert!(parse(r#"replace a.txt"#).is_err());
}

#[test]
fn parse_subst_syntax_basic() {
    let ops = parse(r#"replace --files-from list.txt s/OLD/NEW/g"#).unwrap();
    match &ops[0] {
        Op::Replace { locator, content, .. } => {
            match locator {
                Locator::Pattern { regex, count } => {
                    assert_eq!(regex.as_str(), "OLD");
                    assert_eq!(*count, Count::All);
                }
                _ => panic!(),
            }
            assert!(matches!(content, OpContent::Repl(s) if s == "NEW"));
        }
        _ => panic!(),
    }
}

#[test]
fn parse_subst_with_count_flag() {
    let ops = parse(r#"replace a.txt s/x/y/3"#).unwrap();
    match &ops[0] {
        Op::Replace { locator: Locator::Pattern { count, .. }, .. } => {
            assert_eq!(*count, Count::First(3));
        }
        _ => panic!(),
    }
}

#[test]
fn parse_revert_keyword_before_locator() {
    let ops = parse(r#"replace a.txt revert s/OLD/NEW/g"#).unwrap();
    match &ops[0] {
        Op::Replace { revert, .. } => assert!(*revert),
        _ => panic!(),
    }
}

#[test]
fn parse_replace_between_literal() {
    let ops = parse(r#"replace a.txt "// BEGIN".."// END" """#).unwrap();
    match &ops[0] {
        Op::Replace { locator, content, .. } => {
            match locator {
                Locator::Between { start, end, inclusive, .. } => {
                    assert_eq!(start, b"// BEGIN");
                    assert_eq!(end, b"// END");
                    assert!(!inclusive);
                }
                _ => panic!("expected Between"),
            }
            assert!(matches!(content, OpContent::Empty));
        }
        _ => panic!(),
    }
}

#[test]
fn parse_replace_between_literal_inclusive() {
    let ops = parse(r#"replace a.txt "BEGIN".."END"i """#).unwrap();
    match &ops[0] {
        Op::Replace { locator: Locator::Between { start, end, inclusive, .. }, .. } => {
            assert_eq!(start, b"BEGIN");
            assert_eq!(end, b"END");
            assert!(*inclusive);
        }
        _ => panic!(),
    }
}

#[test]
fn parse_error_reports_line_number() {
    let err = parse("replace a 1 \"X\"\n\nfrobnicate a 1\n").err().unwrap();
    assert_eq!(err.line, 3);
    assert_eq!(err.kind, NativeError::UnknownOp);
}

#[test]
fn parse_crlf_lines() {
    let ops = parse("replace a.txt 1 \"X\"\r\nmove a.txt 2 3\r\n").unwrap();
    assert_eq!(ops.len(), 2);
}

#[test]
fn parse_was_from_file_is_left_to_the_caller() {
    let ops = parse(r#"replace a.txt 3 "new" was=@old.txt"#).unwrap();
    match &ops[0] {
        Op::Replace { was, .. } => assert!(matches!(was, Some(Was::File(p)) if p == "old.txt")),
        _ => panic!(),
    }
}
