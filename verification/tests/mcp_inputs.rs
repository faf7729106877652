use xnip::cli::common::ArgsError;
use xnip::mcp::common::{parse_position, ContentInput, LocatorInput};
use xnip::text::ops::insert::Position;
use xnip::text::content::Content;
use xnip::text::location::Locator;

fn empty_locator() -> LocatorInput {
    LocatorInput {
        lines: None,
        match_line: None,
        occurrence: None,
        between: None,
        between_re: None,
        inclusive: None,
        pattern: None,
        count: None,
    }
}

#[test]
fn mcp_locator_lines_and_occurrence_default() {
    let mut i = empty_locator();
    i.lines = Some("3-4".to_string());
    assert!(matches!(i.into_locator(), Ok(Locator::Lines { start: 3, end: 4 })));
    let mut i = empty_locator();
    i.match_line = Some("^x".to_string());
    assert!(matches!(i.into_locator(), Ok(Locator::MatchLine { occurrence: 1, .. })));
}

#[test]
fn mcp_locator_needs_exactly_one() {
    assert!(matches!(empty_locator().into_locator(), Err(ArgsError::MissingLocator)));
    let mut i = empty_locator();
    i.lines = Some("1".to_string());
    i.pattern = Some("x".to_string());
    assert!(matches!(i.into_locator(), Err(ArgsError::ConflictingLocators)));
}

#[test]
fn mcp_content_inputs() {
    let c = ContentInput { text: Some("t".to_string()), text_file: None, repl: None };
    assert!(matches!(c.into_content(true), Ok(Some(Content::Inline(b))) if b == b"t"));
    let c = ContentInput { text: None, text_file: Some("f".to_string()), repl: None };
    assert!(matches!(c.into_content(true), Ok(Some(Content::File(p))) if p == "f"));
    let c = ContentInput { text: None, text_file: None, repl: None };
    assert!(matches!(c.into_content(true), Err(ArgsError::MissingContent)));
    let c = ContentInput { text: Some("t".to_string()), text_file: None, repl: Some("r".to_string()) };
    assert!(matches!(c.into_content(true), Err(ArgsError::ConflictingContent)));
}

#[test]
fn mcp_position_words() {
    assert_eq!(parse_position(None), Some(Position::After));
    assert_eq!(parse_position(Some("BEFORE")), Some(Position::Before));
    assert_eq!(parse_position(Some("after")), Some(Position::After));
    assert_eq!(parse_position(Some("middle")), None);
}
