use oxgraph_db::text::{
    is_whitespace, parse_i64, parse_unsigned, push_decimal, push_signed, split_whitespace, text_equals, trim,
    upper_equals,
};
use oxgraph_db::value::{parse_quoted, parse_value_token, PropertyValue};

#[test]
fn whitespace_split_and_trim() {
    assert_eq!(split_whitespace("  MATCH \t elements\n"), vec!["MATCH".to_owned(), "elements".to_owned()]);
    assert!(split_whitespace(" \u{3000} ").is_empty());
    assert_eq!(trim("\u{a0} x y \n"), "x y");
    assert!(is_whitespace('\u{2028}'));
    assert!(!is_whitespace('x'));
}

#[test]
fn case_folding_and_equality() {
    assert!(upper_equals("mAtCh", "MATCH"));
    assert!(!upper_equals("match", "MATC"));
    assert!(!upper_equals("é", "É"));
    assert!(text_equals("abc", "abc"));
    assert!(!text_equals("abc", "abd"));
}

#[test]
fn decimal_literals() {
    assert_eq!(parse_unsigned("42", u64::MAX), Some(42));
    assert_eq!(parse_unsigned("+7", u64::MAX), Some(7));
    assert_eq!(parse_unsigned("18446744073709551616", u64::MAX), None);
    assert_eq!(parse_unsigned("", u64::MAX), None);
    assert_eq!(parse_unsigned("+", u64::MAX), None);
    assert_eq!(parse_unsigned("-1", u64::MAX), None);
    assert_eq!(parse_unsigned("300", 255), None);
    assert_eq!(parse_i64("-9223372036854775808"), Some(i64::MIN));
    assert_eq!(parse_i64("9223372036854775807"), Some(i64::MAX));
    assert_eq!(parse_i64("9223372036854775808"), None);
    assert_eq!(parse_i64("-12"), Some(-12));
    assert_eq!(parse_i64("1x"), None);
}

#[test]
fn decimal_formatting() {
    let mut s = String::from("n=");
    push_decimal(&mut s, 1205);
    assert_eq!(s, "n=1205");
    let mut t = String::new();
    push_signed(&mut t, i64::MIN);
    assert_eq!(t, "-9223372036854775808");
    let mut z = String::new();
    push_decimal(&mut z, 0);
    assert_eq!(z, "0");
}

#[test]
fn value_tokens() {
    assert_eq!(parse_value_token(" true "), Ok(PropertyValue::Boolean(true)));
    assert_eq!(parse_value_token("false"), Ok(PropertyValue::Boolean(false)));
    assert_eq!(parse_value_token("-5"), Ok(PropertyValue::Integer(-5)));
    assert_eq!(parse_value_token("'Ada'"), Ok(PropertyValue::Text("Ada".to_owned())));
    assert_eq!(parse_value_token("\"Bo\""), Ok(PropertyValue::Text("Bo".to_owned())));
    assert_eq!(parse_value_token("99999999999999999999"), Err("99999999999999999999".to_owned()));
    assert_eq!(parse_value_token("bare"), Err("bare".to_owned()));
    assert_eq!(parse_quoted("'"), Err("'".to_owned()));
    assert_eq!(parse_quoted("''"), Ok(String::new()));
}
