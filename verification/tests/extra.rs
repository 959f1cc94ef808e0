use vjson::cast::Cast;
use vjson::errors::JSONError;
use vjson::json::JSONValue;

#[test]
fn trailing_tokens_are_ignored() {
    // parsing reads one value from the front and leaves the rest unread
    let value = JSONValue::from_text("[1] 2").unwrap();
    match &value {
        JSONValue::Array(items) => assert_eq!(items.len(), 1),
        other => panic!("expected an array, found {}", other.name()),
    }
}

#[test]
fn signed_and_fractional_number_texts_parse() {
    let v = JSONValue::from_text("+7").unwrap();
    let a: i32 = v.cast().unwrap();
    assert_eq!(7, a);
    let v = JSONValue::from_text("-0.5e+1").unwrap();
    let b: i32 = v.cast().unwrap();
    assert_eq!(-5, b);
    let v = JSONValue::from_text(".5").unwrap();
    let c: i32 = v.cast().unwrap();
    assert_eq!(0, c);
}

#[test]
fn missing_colon_and_comma_are_syntax_errors() {
    let e = JSONValue::from_text("{\"a\" 1}").unwrap_err();
    assert!(matches!(e, JSONError::SyntaxError(_)));
    let e2 = JSONValue::from_text("[1 2]").unwrap_err();
    assert!(matches!(e2, JSONError::SyntaxError(_)));
    let e3 = JSONValue::from_text("{1: 2}").unwrap_err();
    assert!(matches!(e3, JSONError::SyntaxError(_)));
    let e4 = JSONValue::from_text("[1,").unwrap_err();
    assert!(matches!(e4, JSONError::SyntaxError(_)));
}

#[test]
fn try_index_mut_out_of_bounds() {
    let mut value = JSONValue::from_text("[1]").unwrap();
    let e = value.try_index_mut(1).unwrap_err();
    assert!(matches!(e, JSONError::ValueError(_)));
    let mut not_array = JSONValue::null();
    let e2 = not_array.try_index_mut(0).unwrap_err();
    assert!(matches!(e2, JSONError::ValueError(_)));
}

#[test]
fn object_operations_on_wrong_variant() {
    let mut value = JSONValue::from_u64(1);
    assert!(matches!(
        value.obj_insert("k", JSONValue::null()).unwrap_err(),
        JSONError::ValueError(_)
    ));
    assert!(matches!(
        value.obj_remove("k").unwrap_err(),
        JSONError::ValueError(_)
    ));
    assert!(matches!(
        value.get_mut("k").unwrap_err(),
        JSONError::ValueError(_)
    ));
}

#[test]
fn lexer_accepts_string_with_structural_bytes_inside() {
    let value =
        JSONValue::from_text("\"asdfa sdfasdf wallalla tryn 165-08 {}{}___--=+123,./<>?\"")
            .unwrap();
    let s: String = value.cast().unwrap();
    assert_eq!("asdfa sdfasdf wallalla tryn 165-08 {}{}___--=+123,./<>?", s);
}

#[test]
fn escaped_quote_does_not_end_the_literal() {
    // the terminator search skips backslash-escaped characters
    let value = JSONValue::from_text("\"a\\\\\\\"b\"").unwrap();
    let s: String = value.cast().unwrap();
    assert_eq!("a\\\"b", s);
}

#[test]
fn optional_values_map_absence_to_null() {
    let some = JSONValue::from_option(Some(true));
    assert_eq!("true", some.render());
    let none: JSONValue = JSONValue::from_option(None::<bool>);
    assert!(matches!(none, JSONValue::Null));
}
