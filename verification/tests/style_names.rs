use std::str::FromStr;

use asm_lookup::style::Style;

#[test]
fn style_parses_intel() {
    assert!(matches!(Style::parse("intel"), Ok(Style::Intel)));
}

#[test]
fn style_parses_att() {
    assert!(matches!(Style::parse("att"), Ok(Style::Att)));
}

#[test]
fn style_rejects_other_names_with_guidance() {
    let err = Style::parse("gas").unwrap_err();
    assert_eq!(err, "\"gas\" is not a valid assembly style. Try \"intel\" or \"att\"");
    assert!(Style::parse("Intel").is_err());
    assert!(Style::parse("").is_err());
}

#[test]
fn style_from_str_matches_parse() {
    assert!(matches!(Style::from_str("intel"), Ok(Style::Intel)));
    assert!(matches!(Style::from_str("att"), Ok(Style::Att)));
    assert_eq!(
        Style::from_str("fancy").unwrap_err(),
        "\"fancy\" is not a valid assembly style. Try \"intel\" or \"att\""
    );
}
