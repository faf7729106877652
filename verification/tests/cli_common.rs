use xnip::cli::common::{parse_count, parse_line_range, ArgsError, ContentArgs, LocatorArgs};
use xnip::text::content::Content;
use xnip::text::location::{Count, Locator};

fn no_locator() -> LocatorArgs {
    LocatorArgs {
        lines: None,
        match_line: None,
        occurrence: 1,
        between: None,
        between_re: None,
        inclusive: false,
        pattern: None,
        count: None,
    }
}

fn no_content() -> ContentArgs {
    ContentArgs { text: None, text_stdin: false, text_file: None, repl: None }
}

#[test]
fn parse_line_range_single() {
    assert_eq!(parse_line_range("30").unwrap(), (30, 30));
}

#[test]
fn parse_line_range_pair() {
    assert_eq!(parse_line_range("30-45").unwrap(), (30, 45));
}

#[test]
fn parse_line_range_invalid() {
    assert!(parse_line_range("abc").is_err());
    assert!(parse_line_range("1-x").is_err());
}

#[test]
fn parse_count_default_is_all() {
    assert_eq!(parse_count(None).unwrap(), Count::All);
}

#[test]
fn parse_count_all_keyword() {
    assert_eq!(parse_count(Some("all")).unwrap(), Count::All);
    assert_eq!(parse_count(Some("ALL")).unwrap(), Count::All);
}

#[test]
fn parse_count_number() {
    assert_eq!(parse_count(Some("3")).unwrap(), Count::First(3));
}

#[test]
fn parse_count_zero_invalid() {
    assert!(parse_count(Some("0")).is_err());
}

#[test]
fn parse_line_range_errors_name_the_side() {
    assert_eq!(parse_line_range("x-3"), Err(ArgsError::InvalidStartLine));
    assert_eq!(parse_line_range("3-y"), Err(ArgsError::InvalidEndLine));
    assert_eq!(parse_line_range(" 7 "), Ok((7, 7)));
}

#[test]
fn parse_count_errors() {
    assert_eq!(parse_count(Some("0")), Err(ArgsError::ZeroCount));
    assert_eq!(parse_count(Some("many")), Err(ArgsError::InvalidCount));
}

#[test]
fn locator_args_lines() {
    let mut a = no_locator();
    a.lines = Some("2-4".to_string());
    assert!(matches!(a.into_locator(), Ok(Locator::Lines { start: 2, end: 4 })));
}

#[test]
fn locator_args_none_is_missing() {
    assert!(matches!(no_locator().into_locator(), Err(ArgsError::MissingLocator)));
}

#[test]
fn locator_args_two_are_conflicting() {
    let mut a = no_locator();
    a.lines = Some("1".to_string());
    a.match_line = Some("x".to_string());
    assert!(matches!(a.into_locator(), Err(ArgsError::ConflictingLocators)));
}

#[test]
fn locator_args_between_needs_dots() {
    let mut a = no_locator();
    a.between = Some("BEGIN".to_string());
    assert!(matches!(a.into_locator(), Err(ArgsError::BetweenNeedsDots)));
    let mut b = no_locator();
    b.between = Some("BEGIN..END".to_string());
    b.inclusive = true;
    match b.into_locator() {
        Ok(Locator::Between { start, end, inclusive, .. }) => {
            assert_eq!(start, b"BEGIN");
            assert_eq!(end, b"END");
            assert!(inclusive);
        }
        _ => panic!(),
    }
}

#[test]
fn locator_args_invalid_regex() {
    let mut a = no_locator();
    a.match_line = Some("(".to_string());
    assert!(matches!(a.into_locator(), Err(ArgsError::InvalidMatchLine)));
}

#[test]
fn locator_args_pattern_with_count() {
    let mut a = no_locator();
    a.pattern = Some("fo+".to_string());
    a.count = Some("2".to_string());
    match a.into_locator() {
        Ok(Locator::Pattern { regex, count }) => {
            assert_eq!(regex.as_str(), "fo+");
            assert_eq!(count, Count::First(2));
        }
        _ => panic!(),
    }
}

#[test]
fn content_args_text() {
    let mut c = no_content();
    c.text = Some("hi".to_string());
    assert!(matches!(c.into_content(true), Ok(Some(Content::Inline(b))) if b == b"hi"));
}

#[test]
fn content_args_missing() {
    assert!(matches!(no_content().into_content(true), Err(ArgsError::MissingContent)));
    assert!(matches!(no_content().into_content(false), Ok(None)));
}

#[test]
fn content_args_conflicting() {
    let mut c = no_content();
    c.text = Some("hi".to_string());
    c.text_stdin = true;
    assert!(matches!(c.into_content(true), Err(ArgsError::ConflictingContent)));
}
