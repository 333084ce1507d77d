use simple_selectors::{parse_key, parse_operator, Cursor, Operator, ParseError};

#[test]
fn it_should_properly_parse_a_full_key() {
    let selector = "test";

    let mut index: usize = 0;
    let mut char_indices = Cursor::new(selector);
    let result = parse_key(&mut index, &mut char_indices);
    assert!(result.is_ok());
    assert_eq!(result.unwrap(), "test");
}

#[test]
fn it_will_parse_keys_until_invalid_chars() {
    let selector = "test/";

    let mut index: usize = 0;
    let mut char_indices = Cursor::new(selector);
    let result = parse_key(&mut index, &mut char_indices);
    assert!(result.is_ok());
    assert_eq!(result.unwrap(), "test");

    let result = parse_key(&mut index, &mut char_indices);
    assert!(matches!(result, Err(ParseError::InvalidKey(4))));
}

#[test]
fn it_will_accept_valid_keys_but_stop_consuming() {
    let selector = "test /";

    let mut index: usize = 0;
    let mut char_indices = Cursor::new(selector);
    let key = parse_key(&mut index, &mut char_indices);
    assert_eq!(key.unwrap(), "test");
    assert!(matches!(char_indices.next(), Some((4, ' '))));
}

#[test]
fn it_will_parse_single_char_equality() {
    let op = "=";

    let mut index: usize = 0;
    let mut char_indices = Cursor::new(op);
    let result = parse_operator(&mut index, &mut char_indices);
    assert!(result.is_ok());
    assert_eq!(result.unwrap(), Operator::Equality);
}

#[test]
fn it_will_parse_double_char_equality() {
    let op = "==";

    let mut index: usize = 0;
    let mut char_indices = Cursor::new(op);
    let result = parse_operator(&mut index, &mut char_indices);
    assert!(result.is_ok());
    assert_eq!(result.unwrap(), Operator::Equality);

    assert!(char_indices.next().is_none());
}

#[test]
fn it_will_reject_garbage() {
    let op = "#";

    let mut index: usize = 0;
    let mut char_indices = Cursor::new(op);
    let result = parse_operator(&mut index, &mut char_indices);
    assert!(matches!(result, Err(ParseError::InvalidOperator(0))));
}

#[test]
fn it_will_parse_inequality() {
    let op = "!=";

    let mut index: usize = 0;
    let mut char_indices = Cursor::new(op);
    let result = parse_operator(&mut index, &mut char_indices);
    assert!(result.is_ok());
    assert_eq!(result.unwrap(), Operator::InEquality);

    assert!(char_indices.next().is_none());
}

#[test]
fn it_will_reject_garbage_inequality() {
    let op = "!#";

    let mut index: usize = 0;
    let mut char_indices = Cursor::new(op);
    let result = parse_operator(&mut index, &mut char_indices);
    assert!(result.is_err());
    assert!(matches!(result, Err(ParseError::InvalidOperator(1))));
}

#[test]
fn it_will_accept_in() {
    let op = "in";

    let mut index: usize = 0;
    let mut char_indices = Cursor::new(op);
    let result = parse_operator(&mut index, &mut char_indices);
    assert!(result.is_ok());
    assert_eq!(result.unwrap(), Operator::InSet);
}

#[test]
fn it_will_accept_notin() {
    let op = "notin";

    let mut index: usize = 0;
    let mut char_indices = Cursor::new(op);
    let result = parse_operator(&mut index, &mut char_indices);
    assert!(result.is_ok());
    assert_eq!(result.unwrap(), Operator::NotInSet);
}

#[test]
fn it_will_refuse_garbage_in() {
    let op = "ian";

    let mut index: usize = 0;
    let mut char_indices = Cursor::new(op);
    let result = parse_operator(&mut index, &mut char_indices);
    assert!(matches!(result, Err(ParseError::InvalidOperator(1))));
}

#[test]
fn it_will_refuse_garbage_notin() {
    let op = "no";

    let mut index: usize = 0;
    let mut char_indices = Cursor::new(op);
    let result = parse_operator(&mut index, &mut char_indices);
    assert!(matches!(result, Err(ParseError::InvalidOperator(0))));
}
