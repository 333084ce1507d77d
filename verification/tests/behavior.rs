use simple_selectors::{parse, LabelMap, ParseError};

fn sample_map() -> LabelMap {
    let mut labels = LabelMap::new();
    labels.insert("env", "prod");
    labels.insert("tier", "web");
    labels
}

#[test]
fn full_selector_against_sample_map() {
    let labels = sample_map();
    let result = parse("env=prod,tier in (web,api),!deprecated", &labels);
    assert_eq!(result.unwrap(), true);
}

#[test]
fn equality_mismatch_is_false() {
    let labels = sample_map();
    assert_eq!(parse("env=staging", &labels).unwrap(), false);
}

#[test]
fn notin_with_present_value_is_false() {
    let labels = sample_map();
    assert_eq!(parse("tier notin (web)", &labels).unwrap(), false);
}

#[test]
fn bare_key_matches_only_present_keys() {
    let labels = sample_map();
    assert_eq!(parse("env", &labels).unwrap(), true);
    assert_eq!(parse("deprecated", &labels).unwrap(), false);
}

#[test]
fn spaces_around_key_do_not_matter() {
    let labels = sample_map();
    assert_eq!(parse(" env ", &labels).unwrap(), parse("env", &labels).unwrap());
    assert_eq!(
        parse("tier in ( web )", &labels).unwrap(),
        parse("tier in (web)", &labels).unwrap()
    );
}

#[test]
fn double_equals_is_equality_too() {
    let labels = sample_map();
    assert_eq!(parse("env==prod", &labels).unwrap(), true);
    assert_eq!(parse("env == prod", &labels).unwrap(), true);
}

#[test]
fn inequality_of_absent_key_holds() {
    let labels = sample_map();
    assert_eq!(parse("missing != anything", &labels).unwrap(), true);
    assert_eq!(parse("missing notin (anything)", &labels).unwrap(), true);
}

#[test]
fn negation_inverts_operator_result() {
    let labels = sample_map();
    assert_eq!(parse("!env=prod", &labels).unwrap(), false);
    assert_eq!(parse("!env=staging", &labels).unwrap(), true);
}

#[test]
fn in_set_with_duplicates_and_order_kept() {
    let labels = sample_map();
    assert_eq!(parse("tier in (api,web,web)", &labels).unwrap(), true);
    assert_eq!(parse("tier in (api,db)", &labels).unwrap(), false);
}

#[test]
fn later_insert_shadows_earlier_one() {
    let mut labels = LabelMap::new();
    labels.insert("env", "dev");
    labels.insert("env", "prod");
    assert_eq!(parse("env=prod", &labels).unwrap(), true);
    assert_eq!(parse("env=dev", &labels).unwrap(), false);
}

#[test]
fn invalid_key_is_reported_at_its_offset() {
    let labels = sample_map();
    assert!(matches!(parse("/", &labels), Err(ParseError::InvalidKey(0))));
    assert!(matches!(parse("env,#", &labels), Err(ParseError::InvalidKey(4))));
}

#[test]
fn stray_character_after_key_is_an_operator_error() {
    let labels = sample_map();
    assert!(matches!(parse("env#", &labels), Err(ParseError::InvalidOperator(3))));
}

#[test]
fn missing_value_is_reported() {
    let labels = sample_map();
    assert!(matches!(parse("env=", &labels), Err(ParseError::ExpectingValue(3))));
}

#[test]
fn empty_set_is_refused() {
    let labels = sample_map();
    assert!(matches!(parse("tier in ()", &labels), Err(ParseError::ExpectingValue(9))));
}

#[test]
fn set_without_parenthesis_is_refused() {
    let labels = sample_map();
    assert!(matches!(
        parse("tier in web", &labels),
        Err(ParseError::ExpectingLeftParenthesis(8))
    ));
}

#[test]
fn stray_character_inside_set_is_refused() {
    let labels = sample_map();
    assert!(matches!(
        parse("tier in (web api)", &labels),
        Err(ParseError::ExpectingEndOrComma(13))
    ));
}

#[test]
fn trailing_comma_asks_for_another_requirement() {
    let labels = sample_map();
    assert!(matches!(parse("env,", &labels), Err(ParseError::InvalidKey(3))));
}

#[test]
fn error_offsets_count_bytes_not_characters() {
    let labels = sample_map();
    // the two-byte character before the comma shifts the offset to 4
    assert!(matches!(parse("k=\u{e9},", &labels), Err(ParseError::InvalidKey(4))));
    assert!(matches!(parse("a\u{e9}", &labels), Err(ParseError::InvalidOperator(1))));
}

#[test]
fn unicode_whitespace_ends_a_value() {
    let labels = sample_map();
    // a no-break space is not a value character, so the value is empty
    assert!(matches!(parse("env=\u{a0}", &labels), Err(ParseError::ExpectingValue(4))));
}

#[test]
fn only_ascii_space_is_skipped_between_tokens() {
    let labels = sample_map();
    // a tab is no key character and no space, so the key position is invalid
    assert!(matches!(parse("\tenv", &labels), Err(ParseError::InvalidKey(0))));
}
