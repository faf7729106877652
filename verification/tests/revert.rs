use xnip::text::revert::{invert_pattern_replacement, Direction, RevertError};

#[test]
fn direction_from_flag_true_is_revert() {
    assert_eq!(Direction::from_flag(true), Direction::Revert);
    assert!(Direction::from_flag(true).is_revert());
}

#[test]
fn direction_from_flag_false_is_forward() {
    assert_eq!(Direction::from_flag(false), Direction::Forward);
    assert!(!Direction::from_flag(false).is_revert());
}

#[test]
fn invert_pattern_swaps_and_escapes() {
    let (p, r) = invert_pattern_replacement("OLD_NAME", "NEW.NAME");
    assert_eq!(p, r"NEW\.NAME");
    assert_eq!(r, "OLD_NAME");
}

#[test]
fn invert_pattern_double_invert_round_trips_for_safe_strings() {
    let (p1, r1) = invert_pattern_replacement("OLD", "NEW");
    let (p2, r2) = invert_pattern_replacement(&p1, &r1);
    assert_eq!(p2, "OLD");
    assert_eq!(r2, "NEW");
}

#[test]
fn revert_error_messages_are_distinct() {
    let e1 = RevertError::NotInvertible("a".into());
    let e2 = RevertError::NotStrictlyInvertible("a".into());
    let e3 = RevertError::PreconditionMismatch("a".into());
    assert_ne!(e1.message(), e2.message());
    assert_ne!(e2.message(), e3.message());
}

#[test]
fn revert_error_message_text() {
    assert_eq!(RevertError::NotInvertible("x".into()).message(), "revert not possible: x");
    assert_eq!(
        RevertError::NotStrictlyInvertible("y".into()).message(),
        "revert not strictly invertible: y"
    );
    assert_eq!(
        RevertError::PreconditionMismatch("z".into()).message(),
        "revert pre-condition mismatch: z"
    );
}

#[test]
fn invert_escapes_every_meta_character() {
    let (p, r) = invert_pattern_replacement("a", "1+1=(2)?");
    assert_eq!(p, r"1\+1=\(2\)\?");
    assert_eq!(r, "a");
}

#[test]
fn regex_escape_writes_what_the_regex_crate_writes() {
    let all: String = (' '..='~').chain(['é', '→', '\t', '\n']).collect();
    for s in [all.as_str(), "", "a.b*c", "(x|y)?", "$1 ${name} \\d+"] {
        assert_eq!(xnip::text::pattern::regex_escape(s), regex::escape(s));
    }
    assert_eq!(xnip::text::pattern::regex_escape("a.b"), "a\\.b");
}
