use dop::common::{map_from_list, regex_test};
use dop::formats::{Toml, ToStrError, Yaml};
use dop::path::{decode, encode, PathEntry};
use dop::script::{field_name, get, get_internal, key_selected, parse_set_options, unset};
use dop::value::Value;
use serde_json::Value as JsonValue;

fn from_json_value(j: &JsonValue) -> Value {
    match j {
        JsonValue::Null => Value::Null,
        JsonValue::Bool(b) => Value::Bool(*b),
        JsonValue::Number(n) => match n.as_i64() {
            Some(i) => Value::Int(i),
            None => Value::Float(n.as_f64().unwrap().to_bits()),
        },
        JsonValue::String(s) => Value::String(s.clone()),
        JsonValue::Array(a) => Value::List(a.iter().map(from_json_value).collect()),
        JsonValue::Object(o) => {
            let mut obj = Value::Object(vec![]);
            for (k, v) in o {
                obj.add(&[PathEntry::Field(k.clone())], &from_json_value(v)).unwrap();
            }
            obj
        }
    }
}

fn from_json(s: &str) -> Value {
    from_json_value(&serde_json::from_str::<JsonValue>(s).unwrap())
}

fn s(x: &str) -> Value {
    Value::String(x.to_string())
}

#[test]
fn set_appends_and_adds_fields() {
    let mut value = from_json(r#"{"my_list":[1,2,3]}"#);
    dop::script::set(&mut value, &[], &[s("my_list[]"), Value::Int(4)]);
    dop::script::set(&mut value, &[], &[s("foo"), s("bar")]);
    assert_eq!(value, from_json(r#"{"foo":"bar","my_list":[1,2,3,4]}"#));
}

#[test]
fn set_visited_key_with_one_argument() {
    let mut value = from_json(r#"{"foo":"bar"}"#);
    let key = decode("foo").unwrap();
    dop::script::set(&mut value, &key, &[s("new value!")]);
    assert_eq!(value, from_json(r#"{"foo":"new value!"}"#));
}

#[test]
fn set_with_force_creates_parents() {
    let mut value = from_json(r#"{"foo":"bar"}"#);
    let mut options = Value::Object(vec![]);
    options
        .add(&[PathEntry::Field("force".to_string())], &Value::Bool(true))
        .unwrap();
    dop::script::set(&mut value, &[], &[s("one.two.three.four"), s("five"), options]);
    assert_eq!(
        value,
        from_json(r#"{"foo":"bar","one":{"two":{"three":{"four":"five"}}}}"#)
    );
}

#[test]
fn set_without_force_needs_parents() {
    let mut value = from_json(r#"{"foo":"bar"}"#);
    dop::script::set(&mut value, &[], &[s("one.two"), s("five")]);
    assert_eq!(value, from_json(r#"{"foo":"bar"}"#));
}

#[test]
fn set_ignores_non_string_keys_and_invalid_paths() {
    let mut value = from_json(r#"{"foo":"bar"}"#);
    dop::script::set(&mut value, &[], &[Value::Int(1), s("x")]);
    dop::script::set(&mut value, &[], &[s("foo.[0]"), s("x")]);
    dop::script::set(&mut value, &[], &[]);
    assert_eq!(value, from_json(r#"{"foo":"bar"}"#));
}

#[test]
fn set_in_execute_once_sets_list_items() {
    let mut value = from_json(r#"{"data":{"some_list":[1,2,3]}}"#);
    dop::script::set(&mut value, &[], &[s("data.some_list[0]"), Value::Int(10)]);
    dop::script::set(&mut value, &[], &[s("data.some_list[1]"), Value::Int(20)]);
    dop::script::set(&mut value, &[], &[s("data.some_list[2]"), Value::Int(30)]);
    assert_eq!(value, from_json(r#"{"data":{"some_list":[10,20,30]}}"#));
}

#[test]
fn parse_set_options_reads_force() {
    let mut options = Value::Object(vec![]);
    assert_eq!(parse_set_options(&options), Some(false));
    options
        .add(&[PathEntry::Field("force".to_string())], &Value::Bool(true))
        .unwrap();
    assert_eq!(parse_set_options(&options), Some(true));
    assert_eq!(parse_set_options(&Value::Bool(true)), None);
}

#[test]
fn unset_by_key_and_current_key() {
    let mut value = from_json(r#"{"list":[1,2,3]}"#);
    assert!(unset(&mut value, &[], Some("list[1]")));
    assert_eq!(value, from_json(r#"{"list":[1,3]}"#));

    let mut value = from_json(r#"{"some_list":[1,2,3]}"#);
    let key = decode("some_list[2]").unwrap();
    assert!(unset(&mut value, &key, None));
    assert_eq!(value, from_json(r#"{"some_list":[1,2]}"#));
}

#[test]
fn unset_refuses_out_of_range_index() {
    let mut value = from_json(r#"{"list":[1,2,3]}"#);
    assert!(!unset(&mut value, &[], Some("list[7]")));
    assert_eq!(value, from_json(r#"{"list":[1,2,3]}"#));
}

#[test]
fn unset_and_set_ignore_invalid_paths() {
    let original = from_json(r#"{"list":[1,2,3]}"#);
    for bad in ["foo]", "list[99999999999999999999]", "foo[bar]"] {
        let mut value = original.clone();
        assert!(!unset(&mut value, &[], Some(bad)));
        assert_eq!(value, original);
        let mut value = original.clone();
        dop::script::set(&mut value, &[], &[s(bad), Value::Int(1)]);
        assert_eq!(value, original);
    }
}

#[test]
fn remove_out_of_range_changes_nothing() {
    let mut value = from_json(r#"{"list":[1,2,3]}"#);
    value.remove(&decode("list[5]").unwrap());
    assert_eq!(value, from_json(r#"{"list":[1,2,3]}"#));
    value.remove(&decode("list[0]").unwrap());
    assert_eq!(value, from_json(r#"{"list":[2,3]}"#));
}

#[test]
fn get_reads_keys() {
    let value = from_json(r#"{"base":50,"list":[1,2,3]}"#);
    assert_eq!(
        get(&value, "list[1]", false, Some("base".to_string())),
        Some(Value::Int(50))
    );
    assert_eq!(get(&value, "list[1]", false, None), Some(Value::Int(2)));
    assert_eq!(get(&value, "", true, Some("list".to_string())), Some(from_json("[1,2,3]")));
    // Without a key while the script runs once, the whole input.
    assert_eq!(get(&value, "", true, None), Some(value.clone()));
    assert_eq!(get(&value, "", false, Some("missing".to_string())), None);
}

#[test]
fn get_internal_errors() {
    let value = from_json(r#"{"a":1}"#);
    match get_internal(&value, "", true, None) {
        Ok(Some(whole)) => assert_eq!(whole, value),
        _ => panic!("expected the whole input"),
    }
    // Texts that are no valid path: a stray `]`, an index too large for usize.
    for bad in ["foo]", "list[99999999999999999999]", "a.[0]"] {
        let args = vec![bad.to_string()];
        assert!(matches!(
            get_internal(&value, "", false, Some(&args)),
            Err(None)
        ));
    }
    let args = vec!["foo.[".to_string()];
    assert!(matches!(
        get_internal(&value, "", false, Some(&args)),
        Err(None)
    ));
    let args = vec!["b".to_string()];
    assert!(matches!(
        get_internal(&value, "", false, Some(&args)),
        Err(None)
    ));
    let args = vec!["a".to_string()];
    assert!(matches!(
        get_internal(&value, "", false, Some(&args)),
        Ok(Some(Value::Int(1)))
    ));
}

#[test]
fn field_names() {
    assert_eq!(field_name(&decode("a.b").unwrap()), Some("b".to_string()));
    assert_eq!(field_name(&decode("a[12]").unwrap()), Some("12".to_string()));
    assert_eq!(field_name(&[]), None);
}

#[test]
fn key_filters() {
    assert!(key_selected("list[1]", Some(r"list.\d"), None));
    assert!(!key_selected("base", Some(r"list.\d"), None));
    assert!(key_selected("base", None, Some("base")));
    assert!(!key_selected("base", None, Some("list")));
    assert!(key_selected("anything", None, None));
    // An invalid expression selects nothing.
    assert!(!key_selected("a", Some("foo(bar"), None));
}

#[test]
fn regex_test_matches_anywhere() {
    assert!(regex_test(r"domains\.[a-z]", "domains.google.com"));
    assert!(!regex_test(r"^\d+$", "12a"));
    assert!(!regex_test("(", "("));
}

#[test]
fn map_from_list_keeps_last_value() {
    let m = map_from_list(&vec![
        ("a".to_string(), 1),
        ("b".to_string(), 2),
        ("a".to_string(), 3),
    ]);
    assert_eq!(m.len(), 2);
    assert_eq!(m.get("a"), Some(&3));
    assert_eq!(m.get("b"), Some(&2));
}

#[test]
fn toml_refuses_null() {
    let toml = Toml {};
    match toml.to_toml_value(&Value::Null) {
        Err(ToStrError::UnsupportedType((kind, path))) => {
            assert_eq!(kind, "null");
            assert!(path.is_empty());
        }
        _ => panic!("expected an unsupported type"),
    }
    match toml.to_toml_value(&from_json(r#"{"a":{"b":1,"c":null}}"#)) {
        Ok(v) => assert_eq!(v, from_json(r#"{"a":"null"}"#)),
        Err(_) => panic!("nested null fields are replaced"),
    }
    match toml.to_toml_value(&from_json(r#"{"a":1,"c":null}"#)) {
        Err(ToStrError::UnsupportedType((kind, path))) => {
            assert_eq!(kind, "null");
            assert_eq!(encode(&path), "c");
        }
        _ => panic!("expected an unsupported type"),
    }
    match toml.to_toml_value(&from_json(r#"[1,[2,null]]"#)) {
        Err(ToStrError::UnsupportedType((_, path))) => assert_eq!(encode(&path), "[1][1]"),
        _ => panic!("expected an unsupported type"),
    }
    match toml.to_toml_value(&from_json(r#"{"data":{"some_list":[1,2,3]}}"#)) {
        Ok(v) => assert_eq!(v, from_json(r#"{"data":{"some_list":[1,2,3]}}"#)),
        Err(_) => panic!("no null here"),
    }
}

#[test]
fn yaml_key_order_follows_yaml_text() {
    // "1" is written quoted ('1'), which sorts before letters; "b" and "a" are plain.
    let entries = vec![
        ("b".to_string(), Value::Int(1)),
        ("1".to_string(), Value::Int(2)),
        ("a".to_string(), Value::Int(3)),
    ];
    let order = Yaml {}.key_order(&entries).unwrap();
    assert_eq!(order, vec![1, 2, 0]);
    assert_eq!(Yaml {}.key_order(&vec![]).unwrap(), Vec::<usize>::new());
}
