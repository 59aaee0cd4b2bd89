use structfs::path::Path;
use structfs::value::{Value, ValueMap};

fn p(s: &str) -> Path {
    Path::parse(s).unwrap()
}

#[test]
fn get_nested_value() {
    let mut value = Value::map();
    value.set(&p("foo/bar"), Value::from("hello")).unwrap();
    assert_eq!(value.get(&p("foo/bar")), Some(&Value::from("hello")));
    let foo = value.get(&p("foo")).unwrap();
    assert!(foo.is_map());
    assert_eq!(foo.get(&p("bar")), Some(&Value::from("hello")));
    assert_eq!(value.get(&p("nonexistent")), None);
}

#[test]
fn set_creates_intermediate_maps() {
    let mut value = Value::map();
    value.set(&p("a/b/c/d"), Value::from(42i64)).unwrap();
    assert_eq!(value.get(&p("a/b/c/d")), Some(&Value::from(42i64)));
    assert!(value.get(&p("a")).unwrap().is_map());
    assert!(value.get(&p("a/b")).unwrap().is_map());
}

#[test]
fn remove_works() {
    let mut value = Value::map();
    value.set(&p("foo/bar"), Value::from("hello")).unwrap();
    let removed = value.remove(&p("foo/bar")).unwrap();
    assert_eq!(removed, Some(Value::from("hello")));
    assert_eq!(value.get(&p("foo/bar")), None);
    assert!(value.get(&p("foo")).is_some());
}

#[test]
fn array_access_works() {
    let mut value = Value::map();
    value
        .set(&p("items"), Value::Array(vec![Value::from("a"), Value::from("b"), Value::from("c")]))
        .unwrap();
    assert_eq!(value.get(&p("items/0")), Some(&Value::from("a")));
    assert_eq!(value.get(&p("items/1")), Some(&Value::from("b")));
    assert_eq!(value.get(&p("items/2")), Some(&Value::from("c")));
    assert_eq!(value.get(&p("items/3")), None);
}

#[test]
fn value_constructors() {
    assert!(Value::null().is_null());
    assert!(Value::map().is_map());
    assert!(Value::array().is_array());
}

#[test]
fn value_default_is_null() {
    let value = Value::default();
    assert!(value.is_null());
}

#[test]
fn value_type_checks() {
    assert!(Value::Null.is_null());
    assert!(!Value::Null.is_map());
    assert!(!Value::Null.is_array());
    assert!(!Value::Bool(true).is_null());
    assert!(!Value::Bool(true).is_map());
    assert!(!Value::Bool(true).is_array());
    assert!(Value::Object(ValueMap::new()).is_map());
    assert!(!Value::Object(ValueMap::new()).is_null());
    assert!(Value::Array(vec![]).is_array());
    assert!(!Value::Array(vec![]).is_null());
}

#[test]
fn get_on_empty_path_returns_self() {
    let value = Value::from("hello");
    assert_eq!(value.get(&p("")), Some(&value));
}

#[test]
fn get_on_primitive_returns_none() {
    let value = Value::from("hello");
    assert_eq!(value.get(&p("foo")), None);
}

#[test]
fn set_at_empty_path_replaces_self() {
    let mut value = Value::from("old");
    value.set(&p(""), Value::from("new")).unwrap();
    assert_eq!(value, Value::from("new"));
}

#[test]
fn set_array_element() {
    let mut value = Value::Array(vec![Value::from("a"), Value::from("b")]);
    value.set(&p("0"), Value::from("x")).unwrap();
    assert_eq!(value.get(&p("0")), Some(&Value::from("x")));
}

#[test]
fn set_array_append() {
    let mut value = Value::Array(vec![Value::from("a")]);
    value.set(&p("1"), Value::from("b")).unwrap();
    assert_eq!(value.get(&p("1")), Some(&Value::from("b")));
}

#[test]
fn set_array_out_of_bounds_error() {
    let mut value = Value::Array(vec![Value::from("a")]);
    let result = value.set(&p("5"), Value::from("x"));
    assert!(result.is_err());
}

#[test]
fn set_on_primitive_error() {
    let mut value = Value::from("hello");
    let result = value.set(&p("foo"), Value::from("bar"));
    assert!(result.is_err());
}

#[test]
fn set_invalid_array_index_error() {
    let mut value = Value::Array(vec![Value::from("a")]);
    let result = value.set(&p("not_a_number"), Value::from("x"));
    assert!(result.is_err());
}

#[test]
fn set_through_array() {
    let mut value = Value::map();
    value.set(&p("items"), Value::Array(vec![Value::map(), Value::map()])).unwrap();
    value.set(&p("items/0/name"), Value::from("first")).unwrap();
    assert_eq!(value.get(&p("items/0/name")), Some(&Value::from("first")));
}

#[test]
fn set_through_array_invalid_index_error() {
    let mut value = Value::map();
    value.set(&p("items"), Value::Array(vec![])).unwrap();
    let result = value.set(&p("items/0/name"), Value::from("x"));
    assert!(result.is_err());
}

#[test]
fn set_through_primitive_error() {
    let mut value = Value::map();
    value.set(&p("foo"), Value::from("primitive")).unwrap();
    let result = value.set(&p("foo/bar"), Value::from("x"));
    assert!(result.is_err());
}

#[test]
fn remove_at_empty_path() {
    let mut value = Value::from("hello");
    let removed = value.remove(&p("")).unwrap();
    assert_eq!(removed, Some(Value::from("hello")));
    assert!(value.is_null());
}

#[test]
fn remove_nonexistent() {
    let mut value = Value::map();
    let removed = value.remove(&p("nonexistent")).unwrap();
    assert_eq!(removed, None);
}

#[test]
fn remove_from_array() {
    let mut value = Value::Array(vec![Value::from("a"), Value::from("b"), Value::from("c")]);
    let removed = value.remove(&p("1")).unwrap();
    assert_eq!(removed, Some(Value::from("b")));
    match &value {
        Value::Array(arr) => assert_eq!(arr.len(), 2),
        _ => panic!("Expected array"),
    }
}

#[test]
fn remove_from_array_out_of_bounds() {
    let mut value = Value::Array(vec![Value::from("a")]);
    let removed = value.remove(&p("5")).unwrap();
    assert_eq!(removed, None);
}

#[test]
fn remove_invalid_array_index_error() {
    let mut value = Value::Array(vec![Value::from("a")]);
    let result = value.remove(&p("not_a_number"));
    assert!(result.is_err());
}

#[test]
fn remove_from_primitive() {
    let mut value = Value::map();
    value.set(&p("foo"), Value::from("primitive")).unwrap();
    let removed = value.remove(&p("foo/bar")).unwrap();
    assert_eq!(removed, None);
}

#[test]
fn from_bool() {
    assert_eq!(Value::from(true), Value::Bool(true));
    assert_eq!(Value::from(false), Value::Bool(false));
}

#[test]
fn from_i64() {
    assert_eq!(Value::from(42i64), Value::Integer(42));
    assert_eq!(Value::from(-100i64), Value::Integer(-100));
}

#[test]
fn from_i32() {
    assert_eq!(Value::from(42i32), Value::Integer(42));
}

#[test]
fn from_string() {
    assert_eq!(Value::from("hello".to_string()), Value::String("hello".to_string()));
}

#[test]
fn from_str() {
    assert_eq!(Value::from("hello"), Value::String("hello".to_string()));
}

#[test]
fn from_vec_u8() {
    assert_eq!(Value::from(vec![1u8, 2, 3]), Value::Bytes(vec![1u8, 2, 3]));
}

#[test]
fn from_vec_values() {
    let values: Vec<i64> = vec![1, 2, 3];
    let value = Value::from(values);
    match value {
        Value::Array(arr) => {
            assert_eq!(arr.len(), 3);
            assert_eq!(arr[0], Value::Integer(1));
        },
        _ => panic!("Expected array"),
    }
}

#[test]
fn value_equality() {
    assert_eq!(Value::Null, Value::Null);
    assert_eq!(Value::Bool(true), Value::Bool(true));
    assert_ne!(Value::Bool(true), Value::Bool(false));
    assert_eq!(Value::Integer(42), Value::Integer(42));
    assert_ne!(Value::Integer(42), Value::Integer(43));
    assert_eq!(Value::String("a".to_string()), Value::String("a".to_string()));
    assert_ne!(Value::String("a".to_string()), Value::String("b".to_string()));
}

#[test]
fn value_clone() {
    let original = Value::Object({
        let mut m = ValueMap::new();
        m.insert("key".to_string(), Value::from("value"));
        m
    });
    let cloned = original.clone();
    assert_eq!(original, cloned);
}

#[test]
fn value_debug() {
    let value = Value::from("test");
    let debug = format!("{:?}", value);
    assert!(debug.contains("String"));
    assert!(debug.contains("test"));
}

#[test]
fn set_then_get_below_reads_the_written_tree() {
    let mut inner = ValueMap::new();
    inner.insert("x".to_string(), Value::from(1i64));
    let mut value = Value::map();
    value.set(&p("a/b"), Value::Object(inner)).unwrap();
    assert_eq!(value.get(&p("a/b/x")), Some(&Value::Integer(1)));
}

#[test]
fn set_keeps_unrelated_paths() {
    let mut value = Value::map();
    value.set(&p("a/x"), Value::from(1i64)).unwrap();
    value.set(&p("a/y"), Value::from(2i64)).unwrap();
    assert_eq!(value.get(&p("a/x")), Some(&Value::Integer(1)));
    assert_eq!(value.get(&p("a/y")), Some(&Value::Integer(2)));
}

#[test]
fn set_errors_name_the_fault() {
    let mut value = Value::Array(vec![Value::from("a")]);
    let err = value.set(&p("5"), Value::from("x")).unwrap_err();
    assert_eq!(err.to_string(), "invalid path: array index 5 out of bounds");
}

#[test]
fn child_names_of_map_and_array() {
    let mut value = Value::map();
    value.set(&p("b"), Value::from(1i64)).unwrap();
    value.set(&p("a"), Value::from(2i64)).unwrap();
    assert_eq!(value.child_names(), vec!["a".to_string(), "b".to_string()]);
    let arr = Value::Array(vec![Value::Null, Value::Null]);
    assert_eq!(arr.child_names(), vec!["0".to_string(), "1".to_string()]);
    assert!(Value::from("s").child_names().is_empty());
}

#[test]
fn set_through_an_array_creates_maps_and_keeps_others() {
    let mut root = Value::Object(ValueMap::new());
    root.set(&Path::parse("list").unwrap(), Value::Array(vec![Value::Object(ValueMap::new()), Value::from(5i64)])).unwrap();
    root.set(&Path::parse("list/0/a/b").unwrap(), Value::from("x")).unwrap();
    assert!(matches!(root.get(&Path::parse("list/0/a").unwrap()), Some(Value::Object(_))));
    assert_eq!(root.get(&Path::parse("list/0/a/b").unwrap()), Some(&Value::from("x")));
    assert_eq!(root.get(&Path::parse("list/1").unwrap()), Some(&Value::from(5i64)));
}

#[test]
fn float_values_compare_as_numbers() {
    let pos_zero = Value::Float(0.0f64.to_bits());
    let neg_zero = Value::Float((-0.0f64).to_bits());
    assert!(pos_zero == neg_zero);
    let nan = Value::Float(f64::NAN.to_bits());
    assert!(nan != Value::Float(f64::NAN.to_bits()));
    assert!(Value::Float(1.5f64.to_bits()) == Value::Float(1.5f64.to_bits()));
    assert!(Value::Float(1.5f64.to_bits()) != Value::Float(2.5f64.to_bits()));
    assert!(Value::Float(1.0f64.to_bits()) != Value::Integer(1));
}

#[test]
fn nested_values_compare_element_by_element() {
    let a = Value::Array(vec![Value::Integer(1), Value::Float(0.0f64.to_bits())]);
    let b = Value::Array(vec![Value::Integer(1), Value::Float((-0.0f64).to_bits())]);
    assert!(a == b);
    let c = Value::Array(vec![Value::Integer(1)]);
    assert!(a != c);
}
