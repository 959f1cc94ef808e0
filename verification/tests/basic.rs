use vjson::errors::JSONError;
use vjson::json::{JSONValue, JsonObject};
use vjson::cast::Cast;
use vjson::lexer::Lexer;

#[test]
fn lexer_test() {
    let new_buf = "
{
    \"foo\": \"bar\",
    \"baz\": 134.0e-3,
    \"beanz\": $ [false, true]
}";
    let mut lexer: Lexer = Lexer::new(new_buf.as_bytes().to_vec());

    lexer.tokenify().expect_err("this should error");
}

#[test]
fn serialize_test() -> Result<(), JSONError> {
    let mut values: JSONValue = JSONValue::Object(JsonObject::new());
    values.obj_insert(
        "foo",
        JSONValue::from(vec![
            JSONValue::number("23.4".to_string()).unwrap(),
            JSONValue::from("asdfasdf".to_owned()),
            JSONValue::from(true),
        ]),
    )?;
    values.get_mut("foo")?.arr_push(JSONValue::from(()))?;

    let string = values.render();

    assert_eq!(
        "{
    \"foo\": [
        23.4,
        \"asdfasdf\",
        true,
        null
    ]
}",
        format!("{string}")
    );

    Ok(())
}

#[test]
fn big_parse_test() -> Result<(), JSONError> {
    let mut s: String = String::from("{");

    let count: i32 = 2 << 16;
    let mut i: i32 = 0;
    while i < count {
        s.push_str(&format!("\"name_{0}\":{0},", i));
        i += 1;
    }

    s.push_str(&format!("\"name_{0}\":{0}", count));
    s.push('}');

    let t0 = std::time::Instant::now();
    let value = JSONValue::from_bytes(s.as_bytes().to_vec())?;
    let t1 = std::time::Instant::now();

    let mut i: i32 = 0;
    while i <= count {
        let v: i32 = value.get(&format!("name_{}", i)).unwrap().cast()?;
        assert_eq!(i, v);
        i += 1;
    }
    let t2 = std::time::Instant::now();
    println!("time to complete parse: {}", (t1 - t0).as_secs_f64());
    println!("time to complete iteration: {}", (t2 - t1).as_secs_f64());
    println!("total time: {}", (t2 - t0).as_secs_f64());

    Ok(())
}
