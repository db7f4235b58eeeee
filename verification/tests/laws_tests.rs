use dop::path::{decode, PathEntry};
use dop::traverse::TraverseAction;
use dop::value::Value;
use serde_json::Value as JsonValue;

fn from_json_value(j: &JsonValue) -> Value {
    match j {
        JsonValue::Null => Value::Null,
        JsonValue::Bool(b) => Value::Bool(*b),
        JsonValue::Number(n) => match n.as_i64() {
            Some(i) => Value::Int(i),
            None => Value::Float(n.as_f64().unwrap().to_bits()),
        },
        JsonValue::String(s) => Value::String(s.clone()),
        JsonValue::Array(a) => Value::List(a.iter().map(from_json_value).collect()),
        JsonValue::Object(o) => {
            let mut obj = Value::Object(vec![]);
            for (k, v) in o {
                obj.add(&[PathEntry::Field(k.clone())], &from_json_value(v)).unwrap();
            }
            obj
        }
    }
}

fn from_json(s: &str) -> Value {
    from_json_value(&serde_json::from_str::<JsonValue>(s).unwrap())
}

#[test]
fn read_after_add() {
    let mut value = from_json(r#"{"a":{"list":[1]}}"#);
    let path = value
        .add(&decode("a.list[]").unwrap(), &Value::Int(9))
        .unwrap();
    assert_eq!(path, decode("a.list[1]").unwrap());
    assert_eq!(value.get(&path), Some(&Value::Int(9)));

    let path = value.add(&decode("a.x").unwrap(), &Value::Bool(true)).unwrap();
    assert_eq!(value.get(&path), Some(&Value::Bool(true)));
}

#[test]
fn add_refusals_leave_value_unchanged() {
    let mut value = from_json(r#"{"a":[1,2]}"#);
    assert_eq!(value.add(&[], &Value::Null), None);
    assert_eq!(value.add(&decode("a[0]").unwrap(), &Value::Null), None);
    assert_eq!(value.add(&decode("b.c").unwrap(), &Value::Null), None);
    assert_eq!(value, from_json(r#"{"a":[1,2]}"#));
}

#[test]
fn add_replaces_existing_field() {
    let mut value = from_json(r#"{"a":1,"b":2}"#);
    value.add(&decode("a").unwrap(), &Value::Int(5)).unwrap();
    assert_eq!(value, from_json(r#"{"a":5,"b":2}"#));
}

#[test]
fn read_after_change() {
    let mut value = from_json(r#"{"a":{"b":1}}"#);
    let path = decode("a.c").unwrap();
    *value.change(&path).unwrap() = Value::String("x".to_string());
    assert_eq!(value.get(&path), Some(&Value::String("x".to_string())));
    assert!(value.change(&decode("z.y").unwrap()).is_none());
    assert!(value.change(&[]).is_none());
}

#[test]
fn change_adds_null_for_missing_field() {
    let mut value = from_json(r#"{"a":{}}"#);
    assert_eq!(value.change(&decode("a.b").unwrap()), Some(&mut Value::Null));
    assert_eq!(value, from_json(r#"{"a":{"b":null}}"#));
}

#[test]
fn removed_field_is_gone() {
    let mut value = from_json(r#"{"a":{"b":1,"c":2}}"#);
    let path = decode("a.b").unwrap();
    value.remove(&path);
    assert!(!value.has(&path));
    assert_eq!(value, from_json(r#"{"a":{"c":2}}"#));
}

#[test]
fn remove_list_element_shifts() {
    let mut value = from_json(r#"[1,2,3]"#);
    value.remove(&decode("[0]").unwrap());
    assert_eq!(value, from_json("[2,3]"));
    value.remove(&[]);
    assert_eq!(value, from_json("[2,3]"));
    assert!(value.can_remove(&decode("[1]").unwrap()));
    assert!(!value.can_remove(&decode("[2]").unwrap()));
}

#[test]
fn traverse_leave_keeps_tree() {
    let value = from_json(r#"{"a":[1,{"b":null}],"c":"d"}"#);
    let same = value.traverse(|_, _, _, _| TraverseAction::Leave);
    assert_eq!(same, value);
}

#[test]
fn traverse_visits_breadth_first() {
    let value = from_json(r#"{"a":[1,{"b":2}],"c":3}"#);
    let visited = std::cell::RefCell::new(vec![]);
    value.traverse(|_, key, _, _| {
        visited.borrow_mut().push(key.to_string());
        TraverseAction::Leave
    });
    assert_eq!(
        visited.into_inner(),
        vec!["a", "c", "a[0]", "a[1]", "a[1].b"]
    );
}

#[test]
fn traverse_remove_revisits_shifted_elements() {
    let value = from_json(r#"{"list":[1,"x",2]}"#);
    let result = value.traverse(|_, _, v, _| match v {
        Value::Int(_) => TraverseAction::Remove,
        _ => TraverseAction::Leave,
    });
    assert_eq!(result, from_json(r#"{"list":["x"]}"#));
}

#[test]
fn diff_with_itself_is_none() {
    let value = from_json(r#"{"a":[1,{"b":2.5}],"c":"d","e":null}"#);
    assert!(value.diff(&value.clone()).is_none());
}

#[test]
fn diff_reports_kind_changes_and_skips_descendants() {
    let a = from_json(r#"{"x":1,"y":{"z":1}}"#);
    let b = from_json(r#"{"x":"1","y":[1,{"k":2}]}"#);
    let d = a.diff(&b).unwrap();
    assert_eq!(d.len(), 2);
    assert_eq!(d[0].0, decode("x").unwrap());
    assert_eq!(d[0].1, Value::String("1".to_string()));
    assert_eq!(d[1].0, decode("y").unwrap());
}

#[test]
fn type_names() {
    assert_eq!(Value::String(String::new()).type_encoded(), "string");
    assert_eq!(Value::Int(0).type_encoded(), "int");
    assert_eq!(Value::Float(0).type_encoded(), "float");
    assert_eq!(Value::Bool(false).type_encoded(), "bool");
    assert_eq!(Value::Object(vec![]).type_encoded(), "object");
    assert_eq!(Value::List(vec![]).type_encoded(), "list");
    assert_eq!(Value::Null.type_encoded(), "null");
}

#[test]
fn to_string_of_scalars() {
    let none = |_: &Value, _: bool| -> Option<String> { None };
    assert_eq!(Value::Int(-42).to_string(none, false), "-42");
    assert_eq!(Value::Int(i64::MIN).to_string(none, false), "-9223372036854775808");
    assert_eq!(Value::Int(0).to_string(none, false), "0");
    assert_eq!(Value::Bool(true).to_string(none, false), "true");
    assert_eq!(Value::Null.to_string(none, false), "null");
    assert_eq!(Value::String("hi".to_string()).to_string(none, false), "hi");
    let list = |_: &Value, pretty: bool| -> Option<String> { Some(format!("list {}", pretty)) };
    assert_eq!(Value::List(vec![]).to_string(list, true), "list true");
}

#[test]
fn objects_stay_ordered_by_key() {
    let mut value = Value::Object(vec![]);
    for key in ["m", "b", "z", "a", "b"] {
        value
            .add(&[PathEntry::Field(key.to_string())], &Value::Int(1))
            .unwrap();
    }
    match value {
        Value::Object(entries) => {
            let keys: Vec<&str> = entries.iter().map(|(k, _)| k.as_str()).collect();
            assert_eq!(keys, vec!["a", "b", "m", "z"]);
        }
        _ => panic!("an object"),
    }
}

#[test]
fn get_without_argument_reads_visited_node() {
    let value = from_json(r#"{"a":{"list":[1,{"b":true}]},"c":"x"}"#);
    for text in ["a", "a.list", "a.list[0]", "a.list[1].b", "c"] {
        let path = decode(text).unwrap();
        let key = dop::path::encode(&path);
        assert_eq!(key, text);
        let read = dop::script::get(&value, &key, false, None);
        assert_eq!(read.as_ref(), value.get(&path));
        assert!(read.is_some());
    }
}

#[test]
fn diff_compares_numbers_not_bits() {
    let zero = Value::Object(vec![("a".to_string(), Value::Float(0.0f64.to_bits()))]);
    let minus_zero = Value::Object(vec![("a".to_string(), Value::Float((-0.0f64).to_bits()))]);
    assert!(zero.diff(&minus_zero).is_none());
    let nan = Value::Object(vec![("a".to_string(), Value::Float(f64::NAN.to_bits()))]);
    let d = nan.diff(&nan.clone()).unwrap();
    assert_eq!(d, vec![(decode("a").unwrap(), Value::Float(f64::NAN.to_bits()))]);
    let one = Value::Object(vec![("a".to_string(), Value::Float(1.5f64.to_bits()))]);
    assert!(one.diff(&one.clone()).is_none());
    assert!(one.diff(&zero).is_some());
}

#[test]
fn traverse_visits_each_path_once_in_breadth_first_order() {
    let value = from_json(r#"{"a":[1,[2,3],{"b":4}],"c":{"d":[5]}}"#);
    let visited = std::cell::RefCell::new(vec![]);
    value.traverse(|key, _, _, _| {
        visited.borrow_mut().push(key.to_vec());
        TraverseAction::Leave
    });
    let visited = visited.into_inner();
    for (a, x) in visited.iter().enumerate() {
        assert!(value.get(x).is_some());
        for y in visited.iter().skip(a + 1) {
            assert_ne!(x, y);
            assert!(x.len() <= y.len());
        }
    }
    assert_eq!(visited.len(), 10);
}

#[test]
fn traverse_changing_one_node_replaces_only_its_subtree() {
    let value = from_json(r#"{"a":[1,{"b":[2,3]}],"c":"d"}"#);
    let target = decode("a[1]").unwrap();
    let result = value.traverse(|key, _, _, _| {
        if key == target.as_slice() {
            TraverseAction::Change(Value::Int(7))
        } else {
            TraverseAction::Leave
        }
    });
    assert_eq!(result, from_json(r#"{"a":[1,7],"c":"d"}"#));
    assert_eq!(result.get(&decode("a[1].b").unwrap()), None);
}
