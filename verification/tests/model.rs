use vjson::cast::Cast;
use vjson::errors::JSONError;
use vjson::json::{JSONValue, JsonObject};
use vjson::lexer::{Lexer, Token};

#[test]
fn parse_array_document() {
    let value = JSONValue::from_text("[1, 2, 3, true, null]").unwrap();
    match &value {
        JSONValue::Array(items) => {
            assert_eq!(items.len(), 5);
            let a: i32 = items[0].cast().unwrap();
            let b: i32 = items[1].cast().unwrap();
            let c: i32 = items[2].cast().unwrap();
            let d: bool = items[3].cast().unwrap();
            assert_eq!(a, 1);
            assert_eq!(b, 2);
            assert_eq!(c, 3);
            assert!(d);
            assert!(matches!(items[4], JSONValue::Null));
        }
        other => panic!("expected an array, found {}", other.name()),
    }
}

#[test]
fn parse_nested_object_document() {
    let text = "{\"foo\": \"bar\", \"baz\": [false, true], \"obj\": {\"b\": 42}}";
    let value = JSONValue::from_text(text).unwrap();
    let a: String = value.get("foo").unwrap().cast().unwrap();
    assert_eq!("bar", a);
    let b: bool = value.get("baz").unwrap().try_index(0).unwrap().cast().unwrap();
    assert!(!b);
    let answer: u8 = value.get("obj").unwrap().get("b").unwrap().cast().unwrap();
    assert_eq!(42, answer);
    let same: u8 = value.at_key("obj").at_key("b").cast().unwrap();
    assert_eq!(42, same);
}

#[test]
fn empty_object_parses_to_zero_entries() {
    let value = JSONValue::from_text("{}").unwrap();
    match &value {
        JSONValue::Object(o) => assert_eq!(o.len(), 0),
        other => panic!("expected an object, found {}", other.name()),
    }
}

#[test]
fn empty_array_parses_to_zero_elements() {
    let value = JSONValue::from_text("[]").unwrap();
    match &value {
        JSONValue::Array(items) => assert_eq!(items.len(), 0),
        other => panic!("expected an array, found {}", other.name()),
    }
}

#[test]
fn escape_decoding() {
    let value = JSONValue::from_text("\"a\\\"b\\n\\u0041\"").unwrap();
    let s: String = value.cast().unwrap();
    assert_eq!("a\"b\nA", s);
}

#[test]
fn escape_decoding_of_controls() {
    let value = JSONValue::from_text("\"\\b\\f\\r\\t\\/\\\\\"").unwrap();
    let s: String = value.cast().unwrap();
    assert_eq!("\u{0008}\u{000c}\r\t/\\", s);
}

#[test]
fn invalid_escape_char_is_value_error() {
    let e = JSONValue::from_text("\"a\\qb\"").unwrap_err();
    assert!(matches!(e, JSONError::ValueError(_)));
}

#[test]
fn invalid_hex_escape_is_value_error() {
    let e = JSONValue::from_text("\"\\uZZ11\"").unwrap_err();
    assert!(matches!(e, JSONError::ValueError(_)));
    let e2 = JSONValue::from_text("\"\\u00\"").unwrap_err();
    assert!(matches!(e2, JSONError::ValueError(_)));
}

#[test]
fn surrogate_escape_is_value_error() {
    let e = JSONValue::from_text("\"\\uD800\"").unwrap_err();
    assert!(matches!(e, JSONError::ValueError(_)));
}

#[test]
fn duplicate_key_protected_insert() {
    let mut value = JSONValue::from_text("{\"foo\": 1}").unwrap();
    let e = value.obj_insert("foo", JSONValue::from_u64(2)).unwrap_err();
    assert!(matches!(e, JSONError::KeyError(_)));
    let kept: i32 = value.get("foo").unwrap().cast().unwrap();
    assert_eq!(1, kept);
}

#[test]
fn duplicate_key_during_parse_is_rejected() {
    let e = JSONValue::from_text("{\"a\": 1, \"a\": 2}").unwrap_err();
    assert!(matches!(e, JSONError::SyntaxError(_)));
}

#[test]
fn out_of_bounds_array_access() {
    let mut value = JSONValue::from_text("[1, 2]").unwrap();
    let e = value.try_index(2).unwrap_err();
    assert!(matches!(e, JSONError::ValueError(_)));
    // insert at the length appends
    value.arr_insert(2, JSONValue::from_u64(3)).unwrap();
    let third: i32 = value.try_index(2).unwrap().cast().unwrap();
    assert_eq!(3, third);
    // insert past the length fails
    let e2 = value.arr_insert(4, JSONValue::from_u64(4)).unwrap_err();
    assert!(matches!(e2, JSONError::IndexError(_)));
    let e3 = value.arr_remove(3).unwrap_err();
    assert!(matches!(e3, JSONError::IndexError(_)));
}

#[test]
fn malformed_value_position() {
    let e = JSONValue::from_text("{\"a\": }").unwrap_err();
    match &e {
        JSONError::SyntaxError(m) => {
            assert_eq!("unexpected token `CloseBrace` at line 1, column 7", m.as_str());
        }
        other => panic!("expected a syntax error, got {:?}", other),
    }
}

#[test]
fn scanner_position_tracking() {
    let mut lexer = Lexer::new("{\n}".as_bytes().to_vec());
    let tokens = lexer.tokenify().unwrap();
    assert_eq!(tokens.len(), 2);
    assert!(matches!(tokens[0].0, Token::OpenBrace));
    assert_eq!(tokens[0].1, 1);
    assert_eq!(tokens[0].2, 1);
    assert!(matches!(tokens[1].0, Token::CloseBrace));
    assert_eq!(tokens[1].1, 2);
    assert_eq!(tokens[1].2, 1);
}

#[test]
fn scanner_rejects_invalid_byte() {
    let mut lexer = Lexer::new("[1, #]".as_bytes().to_vec());
    let e = lexer.tokenify().unwrap_err();
    match &e {
        JSONError::SyntaxError(m) => {
            assert_eq!("invalid character '#' at line 1, column 5", m.as_str());
        }
        other => panic!("expected a syntax error, got {:?}", other),
    }
}

#[test]
fn scanner_unterminated_string() {
    let mut lexer = Lexer::new("\"abc".as_bytes().to_vec());
    let e = lexer.tokenify().unwrap_err();
    assert!(matches!(e, JSONError::SyntaxError(_)));
}

#[test]
fn unknown_keyword_is_syntax_error() {
    let e = JSONValue::from_text("[trru]").unwrap_err();
    assert!(matches!(e, JSONError::SyntaxError(_)));
}

#[test]
fn malformed_number_is_syntax_error() {
    let e = JSONValue::from_text("[1.2.3]").unwrap_err();
    assert!(matches!(e, JSONError::SyntaxError(_)));
    let e2 = JSONValue::from_text("[1e]").unwrap_err();
    assert!(matches!(e2, JSONError::SyntaxError(_)));
}

// Round-trip: parsing the rendered text of a value built from primitives
// without special string characters reproduces an equivalent structure.
// Object key order is not required to be stable across implementations;
// this library happens to keep insertion order, so the rendered texts are
// compared directly.
#[test]
fn round_trip_of_rendered_text() {
    let mut obj = JSONValue::Object(JsonObject::new());
    obj.obj_insert("flag", JSONValue::from(true)).unwrap();
    obj.obj_insert("count", JSONValue::from_u64(12)).unwrap();
    obj.obj_insert("label", JSONValue::from("abc".to_owned())).unwrap();
    obj.obj_insert(
        "items",
        JSONValue::from(vec![
            JSONValue::from_i64(-4),
            JSONValue::null(),
            JSONValue::number("6.25".to_string()).unwrap(),
        ]),
    )
    .unwrap();

    let text = obj.render();
    let back = JSONValue::from_text(&text).unwrap();
    assert_eq!(text, back.render());
    assert_eq!(obj, back);
}

#[test]
fn cast_mismatch_is_value_error_never_panic() {
    let value = JSONValue::from_text("{\"n\": 1, \"s\": \"x\", \"b\": true}").unwrap();
    let n = value.get("n").unwrap();
    let s = value.get("s").unwrap();
    let b = value.get("b").unwrap();
    let r1: Result<bool, JSONError> = n.cast();
    assert!(matches!(r1.unwrap_err(), JSONError::ValueError(_)));
    let r2: Result<i32, JSONError> = s.cast();
    assert!(matches!(r2.unwrap_err(), JSONError::ValueError(_)));
    let r3: Result<String, JSONError> = b.cast();
    assert!(matches!(r3.unwrap_err(), JSONError::ValueError(_)));
    let r4: Result<u64, JSONError> = JSONValue::null().cast();
    assert!(matches!(r4.unwrap_err(), JSONError::ValueError(_)));
}

#[test]
fn numeric_casts_truncate_and_clamp() {
    let v = JSONValue::number("23.4".to_string()).unwrap();
    let a: i32 = v.cast().unwrap();
    assert_eq!(23, a);

    let v = JSONValue::number("-3.9".to_string()).unwrap();
    let b: i32 = v.cast().unwrap();
    assert_eq!(-3, b);

    let v = JSONValue::number("-5".to_string()).unwrap();
    let c: u8 = v.cast().unwrap();
    assert_eq!(0, c);

    let v = JSONValue::number("300".to_string()).unwrap();
    let d: u8 = v.cast().unwrap();
    assert_eq!(255, d);

    let v = JSONValue::number("1e3".to_string()).unwrap();
    let e: i32 = v.cast().unwrap();
    assert_eq!(1000, e);

    let v = JSONValue::number("134.0e-3".to_string()).unwrap();
    let f: i32 = v.cast().unwrap();
    assert_eq!(0, f);

    let v = JSONValue::number("9223372036854775808".to_string()).unwrap();
    let g: i64 = v.cast().unwrap();
    assert_eq!(i64::MAX, g);

    let v = JSONValue::number("1e50".to_string()).unwrap();
    let h: u128 = v.cast().unwrap();
    assert_eq!(u128::MAX, h);

    let v = JSONValue::number("-1e50".to_string()).unwrap();
    let i: i8 = v.cast().unwrap();
    assert_eq!(i8::MIN, i);

    let v = JSONValue::number("42".to_string()).unwrap();
    let j: u64 = v.cast().unwrap();
    assert_eq!(42, j);
    let k: i128 = v.cast().unwrap();
    assert_eq!(42, k);
    let l: usize = v.cast().unwrap();
    assert_eq!(42, l);
    let m: isize = v.cast().unwrap();
    assert_eq!(42, m);
    let n: u16 = v.cast().unwrap();
    assert_eq!(42, n);
    let o: u32 = v.cast().unwrap();
    assert_eq!(42, o);
    let p: i16 = v.cast().unwrap();
    assert_eq!(42, p);
}

#[test]
fn number_text_is_validated() {
    let e = JSONValue::number("abc".to_string()).unwrap_err();
    assert!(matches!(e, JSONError::ValueError(_)));
    assert!(JSONValue::number("-0.5e+7".to_string()).is_ok());
    assert!(JSONValue::number(".5".to_string()).is_ok());
    assert!(JSONValue::number("3.".to_string()).is_ok());
    assert!(JSONValue::number("+7".to_string()).is_ok());
    assert!(JSONValue::number("1e".to_string()).is_err());
    assert!(JSONValue::number(".".to_string()).is_err());
}

#[test]
fn render_primitives() {
    assert_eq!("42", JSONValue::from_u64(42).render());
    assert_eq!("-5", JSONValue::from_i64(-5).render());
    assert_eq!("true", JSONValue::from(true).render());
    assert_eq!("false", JSONValue::from(false).render());
    assert_eq!("null", JSONValue::null().render());
    assert_eq!("\"hey\"", JSONValue::from("hey".to_owned()).render());
}

#[test]
fn render_nested_indentation() {
    let value = JSONValue::from_text("{\"a\": [1, {\"b\": []}]}").unwrap();
    assert_eq!(
        "{\n    \"a\": [\n        1,\n        {\n            \"b\": [\n            ]\n        }\n    ]\n}",
        value.render()
    );
}

#[test]
fn object_remove_and_get() {
    let mut value = JSONValue::from_text("{\"a\": 1, \"b\": 2}").unwrap();
    let (k, v) = value.obj_remove("a").unwrap();
    assert_eq!("a", k);
    let removed: i32 = v.cast().unwrap();
    assert_eq!(1, removed);
    let e = value.get("a").unwrap_err();
    assert!(matches!(e, JSONError::KeyError(_)));
    let left: i32 = value.get("b").unwrap().cast().unwrap();
    assert_eq!(2, left);
    let e2 = value.obj_remove("a").unwrap_err();
    assert!(matches!(e2, JSONError::KeyError(_)));
}

#[test]
fn array_push_pop() {
    let mut value = JSONValue::from(vec![]);
    let e = value.arr_pop().unwrap_err();
    assert!(matches!(e, JSONError::ValueError(_)));
    value.arr_push(JSONValue::from_u64(7)).unwrap();
    let out: u64 = value.arr_pop().unwrap().cast().unwrap();
    assert_eq!(7, out);
    // array operations on a non-array fail with a ValueError
    let mut not_array = JSONValue::from(true);
    assert!(matches!(
        not_array.arr_push(JSONValue::null()).unwrap_err(),
        JSONError::ValueError(_)
    ));
    assert!(matches!(
        not_array.try_index(0).unwrap_err(),
        JSONError::ValueError(_)
    ));
    assert!(matches!(
        not_array.get("x").unwrap_err(),
        JSONError::ValueError(_)
    ));
}

#[test]
fn mutation_through_references() {
    let mut value = JSONValue::from_text("{\"a\": [1, 2]}").unwrap();
    {
        let slot = value.get_mut("a").unwrap().try_index_mut(1).unwrap();
        *slot = JSONValue::from_u64(9);
    }
    let changed: u64 = value.get("a").unwrap().try_index(1).unwrap().cast().unwrap();
    assert_eq!(9, changed);
    let e = value.get_mut("missing").unwrap_err();
    assert!(matches!(e, JSONError::KeyError(_)));
}

#[test]
fn error_describe_text() {
    let e = JSONValue::from_text("[").unwrap_err();
    let text = e.describe();
    assert!(text.starts_with("JSON Syntax Error: "));
}

#[test]
fn unicode_escape_above_ascii() {
    let value = JSONValue::from_text("\"\\u00e9\"").unwrap();
    let s: String = value.cast().unwrap();
    assert_eq!("\u{e9}", s);
}

#[test]
fn non_ascii_string_byte_is_rejected() {
    let bytes: Vec<u8> = vec![b'"', 0xc3, 0xa9, b'"'];
    let e = JSONValue::from_bytes(bytes).unwrap_err();
    assert!(matches!(e, JSONError::SyntaxError(_)));
}
