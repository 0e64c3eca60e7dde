use activity_mcp::json::{
    count_field, keep, pretty, read_payload, read_sample, text_field, write_payload, write_sample,
};
use serde_json::Value;

fn object(fields: Vec<(&str, Value)>) -> Value {
    let mut map = serde_json::Map::new();
    for (key, value) in fields {
        map.insert(key.to_string(), value);
    }
    Value::Object(map)
}

#[test]
fn fields_are_read() {
    let value = object(vec![
        ("name", "x".into()),
        ("count", 7.into()),
        ("negative", (-7).into()),
        ("most", u64::MAX.into()),
        ("half", 0.5.into()),
    ]);
    assert_eq!(text_field(&value, "name"), "x");
    assert_eq!(text_field(&value, "count"), "");
    assert_eq!(text_field(&value, "absent"), "");
    assert_eq!(count_field(&value, "count"), 7);
    assert_eq!(count_field(&value, "most"), u64::MAX);
    assert_eq!(count_field(&value, "negative"), 0);
    assert_eq!(count_field(&value, "half"), 0);
    assert_eq!(count_field(&value, "name"), 0);
    assert_eq!(text_field(&Value::Null, "name"), "");
    assert_eq!(count_field(&Value::from(3), "x"), 0);
}

#[test]
fn payloads_survive_their_text() {
    let value = object(vec![
        ("text", "кавычка \" и \\ и \u{0} и \n".into()),
        ("least", i64::MIN.into()),
        ("most", u64::MAX.into()),
        ("flag", true.into()),
        ("nothing", Value::Null),
        ("list", vec!["a", "б"].into()),
    ]);
    let text = write_payload(&value);
    assert_eq!(read_payload(&text), value);
    assert_eq!(read_payload("не JSON"), Value::Null);
    assert_eq!(read_payload("3"), Value::from(3));
    assert_eq!(write_payload(&object(vec![("a", 1.into())])), "{\"a\":1}");
}

#[test]
fn samples_survive_their_text() {
    let sample = vec!["?? a.txt".to_string(), "M \"b\"".to_string()];
    let text = write_sample(&sample);
    assert_eq!(read_sample(&text), sample);
    assert_eq!(write_sample(&vec![]), "[]");
    assert_eq!(read_sample("[1]"), Vec::<String>::new());
    assert_eq!(read_sample("x"), Vec::<String>::new());
}

#[test]
fn replies_are_indented() {
    assert_eq!(pretty(&object(vec![("a", 1.into())])), "{\n  \"a\": 1\n}");
    assert_eq!(pretty(&Value::Null), "null");
}

#[test]
fn what_a_column_keeps() {
    let value = object(vec![("a", vec![1, 2].into())]);
    assert_eq!(keep(&value), value);
    let mut deep = Value::Null;
    for _ in 0..100 {
        deep = Value::from(vec![deep]);
    }
    assert_eq!(keep(&deep), deep);
    for _ in 0..100 {
        deep = Value::from(vec![deep]);
    }
    assert_eq!(keep(&deep), Value::Null);
    // A key of `serde_json`'s own stands for the value in its text.
    let reserved = object(vec![("$serde_json::private::RawValue", "[1]".into())]);
    assert_eq!(keep(&reserved), Value::from(vec![1]));
}
