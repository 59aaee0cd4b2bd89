use structfs::reference::{Reference, Schema, TypeDescriptor, TypeInfo};
use structfs::value::{Value, ValueMap};

fn map_of(entries: Vec<(&str, Value)>) -> Value {
    let mut m = ValueMap::new();
    for (k, v) in entries {
        m.insert(k.to_string(), v);
    }
    Value::Object(m)
}

#[test]
fn reference_new() {
    let r = Reference::new("handles/0");
    assert_eq!(r.path, "handles/0");
    assert!(r.type_info.is_none());
}

#[test]
fn reference_with_type() {
    let r = Reference::with_type("handles/0", "handle");
    assert_eq!(r.path, "handles/0");
    assert_eq!(r.type_info.as_ref().unwrap().name, "handle");
}

#[test]
fn reference_to_value_minimal() {
    let r = Reference::new("handles/0");
    let v = r.to_value();
    if let Value::Object(map) = v {
        assert_eq!(map.get("path"), Some(&Value::String("handles/0".into())));
        assert!(!map.contains_key("type"));
    } else {
        panic!("Expected map");
    }
}

#[test]
fn reference_to_value_with_type() {
    let r = Reference::with_type("handles/0", "handle");
    let v = r.to_value();
    if let Value::Object(map) = v {
        assert_eq!(map.get("path"), Some(&Value::String("handles/0".into())));
        if let Some(Value::Object(type_map)) = map.get("type") {
            assert_eq!(type_map.get("name"), Some(&Value::String("handle".into())));
        } else {
            panic!("Expected type map");
        }
    } else {
        panic!("Expected map");
    }
}

#[test]
fn reference_from_value_minimal() {
    let v = map_of(vec![("path", Value::String("handles/0".into()))]);
    let r = Reference::from_value(&v).unwrap();
    assert_eq!(r.path, "handles/0");
    assert!(r.type_info.is_none());
}

#[test]
fn reference_from_value_with_type() {
    let type_map = map_of(vec![("name", Value::String("handle".into()))]);
    let v = map_of(vec![("path", Value::String("handles/0".into())), ("type", type_map)]);
    let r = Reference::from_value(&v).unwrap();
    assert_eq!(r.path, "handles/0");
    assert_eq!(r.type_info.as_ref().unwrap().name, "handle");
}

#[test]
fn reference_from_value_not_map() {
    assert!(Reference::from_value(&Value::String("x".into())).is_none());
}

#[test]
fn reference_from_value_no_path() {
    let v = map_of(vec![("other", Value::String("x".into()))]);
    assert!(Reference::from_value(&v).is_none());
}

#[test]
fn reference_from_value_path_not_string() {
    let v = map_of(vec![("path", Value::Integer(42))]);
    assert!(Reference::from_value(&v).is_none());
}

#[test]
fn is_reference_true() {
    let v = map_of(vec![("path", Value::String("x".into()))]);
    assert!(Reference::is_reference(&v));
}

#[test]
fn is_reference_false_not_map() {
    assert!(!Reference::is_reference(&Value::String("x".into())));
}

#[test]
fn is_reference_false_no_path() {
    let v = map_of(vec![("other", Value::String("x".into()))]);
    assert!(!Reference::is_reference(&v));
}

#[test]
fn is_reference_false_path_not_string() {
    let v = map_of(vec![("path", Value::Integer(42))]);
    assert!(!Reference::is_reference(&v));
}

#[test]
fn reference_roundtrip() {
    let original = Reference::with_type("meta/handles/0", "handle");
    let value = original.to_value();
    let parsed = Reference::from_value(&value).unwrap();
    assert_eq!(original, parsed);
}

#[test]
fn type_info_new() {
    let ti = TypeInfo::new("handle");
    assert_eq!(ti.name, "handle");
    assert!(ti.schema.is_none());
}

#[test]
fn type_info_to_value() {
    let ti = TypeInfo::new("integer");
    let v = ti.to_value();
    if let Value::Object(map) = v {
        assert_eq!(map.get("name"), Some(&Value::String("integer".into())));
    } else {
        panic!("Expected map");
    }
}

#[test]
fn type_info_with_schema() {
    let mut schema = Schema::new();
    schema.insert("position", TypeDescriptor::new("integer"));
    let ti = TypeInfo { name: "handle".to_string(), schema: Some(schema) };
    let v = ti.to_value();
    if let Value::Object(map) = v {
        assert!(map.contains_key("schema"));
    } else {
        panic!("Expected map");
    }
}

#[test]
fn type_info_from_value() {
    let v = map_of(vec![("name", Value::String("handle".into()))]);
    let ti = TypeInfo::from_value(&v).unwrap();
    assert_eq!(ti.name, "handle");
}

#[test]
fn type_info_from_value_not_map() {
    assert!(TypeInfo::from_value(&Value::String("x".into())).is_none());
}

#[test]
fn type_info_from_value_no_name() {
    assert!(TypeInfo::from_value(&Value::Object(ValueMap::new())).is_none());
}

#[test]
fn type_descriptor_new() {
    let td = TypeDescriptor::new("string");
    assert_eq!(td.type_info.name, "string");
}

#[test]
fn type_descriptor_to_value() {
    let td = TypeDescriptor::new("integer");
    let v = td.to_value();
    if let Value::Object(map) = v {
        assert!(map.contains_key("type"));
    } else {
        panic!("Expected map");
    }
}

#[test]
fn type_descriptor_from_value() {
    let type_map = map_of(vec![("name", Value::String("integer".into()))]);
    let v = map_of(vec![("type", type_map)]);
    let td = TypeDescriptor::from_value(&v).unwrap();
    assert_eq!(td.type_info.name, "integer");
}

#[test]
fn type_descriptor_from_value_not_map() {
    assert!(TypeDescriptor::from_value(&Value::String("x".into())).is_none());
}

#[test]
fn type_descriptor_from_value_no_type() {
    assert!(TypeDescriptor::from_value(&Value::Object(ValueMap::new())).is_none());
}

#[test]
fn type_info_with_schema_roundtrips() {
    let mut schema = Schema::new();
    schema.insert("offset", TypeDescriptor::new("integer"));
    schema.insert("name", TypeDescriptor::new("string"));
    let ti = TypeInfo { name: "cursor".to_string(), schema: Some(schema) };
    let back = TypeInfo::from_value(&ti.to_value()).unwrap();
    assert_eq!(back.name, "cursor");
    let names: Vec<String> = back.schema.as_ref().unwrap().entries().iter().map(|(k, _)| k.clone()).collect();
    assert_eq!(names, vec!["name".to_string(), "offset".to_string()]);
    assert_eq!(back, ti);
}

#[test]
fn nested_schema_reference_roundtrips() {
    let mut inner = Schema::new();
    inner.insert("x", TypeDescriptor::new("integer"));
    let mut outer = Schema::new();
    outer.insert("point", TypeDescriptor { type_info: TypeInfo { name: "point".to_string(), schema: Some(inner) } });
    outer.insert("label", TypeDescriptor::new("string"));
    let r = Reference { path: "shapes/0".to_string(), type_info: Some(TypeInfo { name: "shape".to_string(), schema: Some(outer) }) };
    assert_eq!(Reference::from_value(&r.to_value()), Some(r));
}
