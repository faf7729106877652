use xnip::text::ops::insert::Position;
use xnip::text::ops::move_op::{move_lines, reverse_params, MoveError};

#[test]
fn move_op_move_block_forward() {
    let r = move_lines(b"1\n2\n3\n4\n", 1, 1, 3, Position::After).unwrap();
    assert_eq!(r, b"2\n3\n1\n4\n");
}

#[test]
fn move_op_move_block_backward() {
    let r = move_lines(b"1\n2\n3\n4\n", 3, 3, 1, Position::Before).unwrap();
    assert_eq!(r, b"3\n1\n2\n4\n");
}

#[test]
fn move_op_move_multiline_block() {
    let r = move_lines(b"1\n2\n3\n4\n5\n", 2, 3, 5, Position::After).unwrap();
    assert_eq!(r, b"1\n4\n5\n2\n3\n");
}

#[test]
fn move_to_before_first_line() {
    let r = move_lines(b"1\n2\n3\n", 3, 3, 1, Position::Before).unwrap();
    assert_eq!(r, b"3\n1\n2\n");
}

#[test]
fn move_op_move_target_inside_source_errors() {
    let e = move_lines(b"1\n2\n3\n", 1, 2, 2, Position::After).unwrap_err();
    assert!(matches!(e, MoveError::TargetInsideSource { .. }));
}

#[test]
fn move_zero_line_errors() {
    let e = move_lines(b"1\n", 0, 1, 1, Position::After).unwrap_err();
    assert!(matches!(e, MoveError::ZeroLine));
}

#[test]
fn move_out_of_bounds_errors() {
    let e = move_lines(b"1\n2\n", 1, 5, 1, Position::After).unwrap_err();
    assert!(matches!(e, MoveError::InvalidSource { .. }));
}

#[test]
fn move_target_out_of_bounds_errors() {
    let e = move_lines(b"1\n2\n", 1, 1, 5, Position::After).unwrap_err();
    assert!(matches!(e, MoveError::InvalidSource { .. }));
}

#[test]
fn move_preserves_byte_content() {
    let body = "α\nβ\nγ\n".as_bytes();
    let r = move_lines(body, 1, 1, 3, Position::After).unwrap();
    assert_eq!(r, "β\nγ\nα\n".as_bytes());
}

#[test]
fn move_round_trip_via_inverse() {
    let original = b"a\nb\nc\nd\ne\n";
    let after = move_lines(original, 1, 2, 5, Position::After).unwrap();
    let back = move_lines(&after, 4, 5, 1, Position::Before).unwrap();
    assert_eq!(back, original);
}

#[test]
fn reverse_params_t_lt_s_after() {
    let original = b"a\nb\nc\nd\ne\n";
    let (s, e, t, p) = (4, 5, 1, Position::After);
    let after = move_lines(original, s, e, t, p).unwrap();
    let (rs, re_, rt, rp) = reverse_params(s, e, t, p).unwrap();
    let back = move_lines(&after, rs, re_, rt, rp).unwrap();
    assert_eq!(back, original);
}

#[test]
fn reverse_params_t_lt_s_before() {
    let original = b"a\nb\nc\nd\ne\n";
    let (s, e, t, p) = (3, 4, 1, Position::Before);
    let after = move_lines(original, s, e, t, p).unwrap();
    let (rs, re_, rt, rp) = reverse_params(s, e, t, p).unwrap();
    let back = move_lines(&after, rs, re_, rt, rp).unwrap();
    assert_eq!(back, original);
}

#[test]
fn reverse_params_t_gt_e_after() {
    let original = b"a\nb\nc\nd\ne\n";
    let (s, e, t, p) = (1, 2, 5, Position::After);
    let after = move_lines(original, s, e, t, p).unwrap();
    let (rs, re_, rt, rp) = reverse_params(s, e, t, p).unwrap();
    let back = move_lines(&after, rs, re_, rt, rp).unwrap();
    assert_eq!(back, original);
}

#[test]
fn reverse_params_t_gt_e_before() {
    let original = b"a\nb\nc\nd\ne\n";
    let (s, e, t, p) = (1, 2, 5, Position::Before);
    let after = move_lines(original, s, e, t, p).unwrap();
    let (rs, re_, rt, rp) = reverse_params(s, e, t, p).unwrap();
    let back = move_lines(&after, rs, re_, rt, rp).unwrap();
    assert_eq!(back, original);
}

#[test]
fn reverse_params_exact_values() {
    assert_eq!(reverse_params(1, 2, 5, Position::After), Ok((4, 5, 1, Position::Before)));
    assert_eq!(reverse_params(4, 5, 1, Position::After), Ok((2, 3, 5, Position::After)));
    assert_eq!(reverse_params(0, 1, 1, Position::After), Err(MoveError::ZeroLine));
}

#[test]
fn move_error_fields() {
    assert_eq!(
        move_lines(b"1\n2\n3\n", 1, 2, 2, Position::After),
        Err(MoveError::TargetInsideSource { from_start: 1, from_end: 2, to: 2 })
    );
    assert_eq!(
        move_lines(b"1\n2\n", 1, 5, 1, Position::After),
        Err(MoveError::InvalidSource { from_start: 1, from_end: 5, total: 2 })
    );
}

#[test]
fn reverse_params_refuses_moves_that_displace_nothing() {
    assert_eq!(
        reverse_params(3, 4, 2, Position::After),
        Err(MoveError::NoDisplacement { from_start: 3, from_end: 4, to: 2 })
    );
    assert_eq!(
        reverse_params(3, 4, 5, Position::Before),
        Err(MoveError::NoDisplacement { from_start: 3, from_end: 4, to: 5 })
    );
    assert_eq!(reverse_params(3, 4, 2, Position::Before), Ok((2, 3, 4, Position::After)));
    assert_eq!(reverse_params(3, 4, 5, Position::After), Ok((4, 5, 3, Position::Before)));
}
