use xnip::apply::detect::{order_for, parse_format_arg, preferred_from_ext, Format};

#[test]
fn parse_format_arg_variants() {
    assert!(matches!(parse_format_arg("native").unwrap(), Format::Native));
    assert!(matches!(parse_format_arg("json").unwrap(), Format::Json));
    assert!(matches!(parse_format_arg("YAML").unwrap(), Format::Yaml));
    assert!(matches!(parse_format_arg("yml").unwrap(), Format::Yaml));
    assert!(parse_format_arg("xml").is_err());
}

#[test]
fn extension_json_prefers_json() {
    assert_eq!(preferred_from_ext(Some("x.json")), Format::Json);
    assert_eq!(preferred_from_ext(Some("x.json5")), Format::Json);
}

#[test]
fn extension_yaml_prefers_yaml() {
    assert_eq!(preferred_from_ext(Some("x.yaml")), Format::Yaml);
    assert_eq!(preferred_from_ext(Some("x.yml")), Format::Yaml);
}

#[test]
fn extension_default_is_native() {
    assert_eq!(preferred_from_ext(Some("x.txt")), Format::Native);
    assert_eq!(preferred_from_ext(Some("x")), Format::Native);
    assert_eq!(preferred_from_ext(None), Format::Native);
}

#[test]
fn unknown_format_reports_lowered_name() {
    let err = parse_format_arg("XML").unwrap_err();
    assert_eq!(err.name, "xml");
}

#[test]
fn extension_is_read_from_last_component_only() {
    assert_eq!(preferred_from_ext(Some("dir.json/manifest")), Format::Native);
    assert_eq!(preferred_from_ext(Some("a/b/edits.YAML")), Format::Yaml);
}

#[test]
fn order_puts_preferred_first_then_the_rest() {
    assert_eq!(order_for(Format::Native), vec![Format::Native, Format::Json, Format::Yaml]);
    assert_eq!(order_for(Format::Json), vec![Format::Json, Format::Yaml, Format::Native]);
    assert_eq!(order_for(Format::Yaml), vec![Format::Yaml, Format::Json, Format::Native]);
}
