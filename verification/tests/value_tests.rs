use dop::path::{decode, PathEntry};
use dop::traverse::TraverseAction;
use dop::value::Value;
use serde_json::Value as JsonValue;

fn from_json_value(j: &JsonValue) -> Value {
    match j {
        JsonValue::Null => Value::Null,
        JsonValue::Bool(b) => Value::Bool(*b),
        JsonValue::Number(n) => match n.as_i64() {
            Some(i) => Value::Int(i),
            None => Value::Float(n.as_f64().unwrap().to_bits()),
        },
        JsonValue::String(s) => Value::String(s.clone()),
        JsonValue::Array(a) => Value::List(a.iter().map(from_json_value).collect()),
        JsonValue::Object(o) => {
            let mut obj = Value::Object(vec![]);
            for (k, v) in o {
                obj.add(&[PathEntry::Field(k.clone())], &from_json_value(v)).unwrap();
            }
            obj
        }
    }
}

fn from_json(json_encoded: &str) -> Value {
    from_json_value(&serde_json::from_str::<JsonValue>(json_encoded).unwrap())
}

fn to_json_value(value: &Value) -> Option<JsonValue> {
    match value {
        Value::String(value) => Some(JsonValue::from(value.to_owned())),
        Value::Int(value) => Some(JsonValue::from(*value)),
        Value::Float(bits) => Some(JsonValue::from(f64::from_bits(*bits))),
        Value::Bool(value) => Some(JsonValue::from(*value)),
        Value::Null => Some(JsonValue::Null),
        Value::List(list) => Some(JsonValue::Array(
            list.iter().map(|value| to_json_value(value).unwrap()).collect(),
        )),
        Value::Object(entries) => {
            let mut obj = serde_json::Map::new();
            for (key, value) in entries {
                obj.insert(key.to_owned(), to_json_value(value).unwrap_or(JsonValue::Null));
            }
            Some(JsonValue::from(obj))
        }
    }
}

fn to_json_str(value: &Value, pretty: bool) -> Option<String> {
    Some(match pretty {
        true => serde_json::to_string_pretty(&to_json_value(value)?).ok()?,
        false => serde_json::to_string(&to_json_value(value)?).ok()?,
    })
}

fn json_format(value: &Value, pretty: bool) -> Option<String> {
    match value {
        Value::Float(bits) => Some(format!("{}", f64::from_bits(*bits))),
        _ => to_json_str(value, pretty),
    }
}

#[test]
fn test_traverse_change_one_value() {
    let value_new = from_json("[1,2,3,4]").traverse(|_path, key_encoded, value, _value_all| {
        if key_encoded == "[1]" {
            if let Value::Int(num) = value {
                return TraverseAction::Change(Value::Int(num * 2));
            }
        }

        TraverseAction::Leave
    });

    assert_eq!(value_new, from_json("[1,4,3,4]"));
}

#[test]
fn test_traverse_change_root() {
    let value_new = from_json("[1,2,3,4]").traverse(|_path, _key_encoded, _value, _value_all| {
        TraverseAction::ChangeRoot(Value::String("changed!".to_string()))
    });

    assert_eq!(value_new, Value::String("changed!".to_string()));
}

#[test]
fn test_change_existing_value() {
    let mut value = Value::List(vec![
        Value::Int(1),
        Value::Int(2),
        Value::Int(3),
        Value::Int(4),
    ]);

    let value2 = value.change(&vec![PathEntry::Index(1)]).unwrap();
    *value2 = Value::String("changed".to_string());

    assert_eq!(to_json_str(&value, false).unwrap(), r#"[1,"changed",3,4]"#,);
}

#[test]
fn test_traverse_delete_all_from_array() {
    let value_new =
        from_json(r#"{"list":[1,2,3]}"#).traverse(|path, _key_encoded, value, value_all| {
            match value {
                Value::Int(_) => {
                    let mut value_all = value_all.clone();
                    value_all.remove(path);

                    TraverseAction::ChangeRoot(value_all)
                }
                _ => TraverseAction::Leave,
            }
        });

    assert_eq!(to_json_str(&value_new, false).unwrap(), r#"{"list":[]}"#,);
}

fn test_add(value: &str, path: &[PathEntry], value_to_add: &Value, expect: &str) {
    let mut value = from_json(value);

    let value2 = value.change(path).unwrap();
    *value2 = value_to_add.clone();

    assert_eq!(value.to_string(json_format, false), expect,);
}

#[test]
fn test_add_new_value_with_list() {
    test_add(
        r#"[1,2,3,4]"#,
        &vec![PathEntry::IndexNew],
        &Value::String("new value!".to_string()),
        r#"[1,2,3,4,"new value!"]"#,
    );
}

#[test]
fn test_add_new_value_with_list_nested() {
    test_add(
        r#"{"foo":[1,2,3,4]}"#,
        &vec![PathEntry::Field("foo".to_string()), PathEntry::IndexNew],
        &Value::String("new value!".to_string()),
        r#"{"foo":[1,2,3,4,"new value!"]}"#,
    );
}

#[test]
fn test_add_new_value_with_object_at_the_root() {
    test_add(
        r#"{"foo":[1,2,3,4]}"#,
        &vec![PathEntry::Field("bar".to_string())],
        &Value::String("new value!".to_string()),
        r#"{"bar":"new value!","foo":[1,2,3,4]}"#,
    );
}

#[test]
fn test_add_new_value_with_object_nested() {
    test_add(
        r#"{"foo":{"bar":{"key_a": 1}}}"#,
        &vec![
            PathEntry::Field("foo".to_string()),
            PathEntry::Field("bar".to_string()),
            PathEntry::Field("key_b".to_string()),
        ],
        &Value::Int(2),
        r#"{"foo":{"bar":{"key_a":1,"key_b":2}}}"#,
    );
}

#[test]
fn test_has() {
    let cases: Vec<(&str, &str, bool)> = vec![
        (r#"{"foo":{"bar":"some value"}}"#, "foo.bar", true),
        (r#"{"foo":{"bar":[1,2,3]}}"#, "foo.bar[1]", true),
        (r#"{"foo":{"bar":[1,2,3]}}"#, "foo.bar[3]", false),
        (r#"{"foo":{"bar":[{"a":"b"}]}}"#, "foo.bar[0].a", true),
        (r#"{"foo":{"bar":[{"a":"b"}]}}"#, "foo.bar[0].b", false),
    ];

    for (input, path, expect) in cases {
        let value = from_json(input);

        assert_eq!(value.has(&decode(path).unwrap()), expect);
    }
}

#[test]
fn test_diff() {
    let cases = vec![
        (
            r#"{"foo":"bar"}"#,
            r#"{"foo":"bar","hello":"world"}"#,
            vec![(
                vec![PathEntry::Field("hello".to_string())],
                from_json(r#""world""#),
            )],
        ),
        (
            r#"{"foo":"bar"}"#,
            r#"{"foo":"bar","some_obj":{"a":{"b":{"c":"some value"}}}}"#,
            vec![(
                vec![PathEntry::Field("some_obj".to_string())],
                from_json(r#"{"a":{"b":{"c":"some value"}}}"#),
            )],
        ),
        (
            r#"{"foo":"bar"}"#,
            r#"{"foo":"bar2"}"#,
            vec![(
                vec![PathEntry::Field("foo".to_string())],
                from_json(r#""bar2""#),
            )],
        ),
    ];

    for (input_a, input_b, expected) in cases {
        let value1 = from_json(input_a);
        let value2 = from_json(input_b);

        let result = value1.diff(&value2).unwrap();

        assert_eq!(result.len(), expected.len());

        for i in 0..result.len() {
            assert_eq!(result[i].1, expected[i].1);

            let path_a = &result[i].0;
            let path_b = &expected[i].0;

            assert_eq!(path_a.len(), path_b.len());

            for i in 0..path_a.len() {
                assert_eq!(path_a[i], path_b[i]);
            }
        }
    }
}
