use std::cell::Cell;

use bytes::Bytes;
use structfs::error::Error;
use structfs::format::Format;
use structfs::lazy_record::LazyRecord;
use structfs::record::{Codec, Record};
use structfs::value::{Value, ValueMap};

/// A JSON codec for the tests, counting its decodes.
struct TestJsonCodec {
    decodes: Cell<usize>,
}

impl TestJsonCodec {
    fn new() -> Self {
        TestJsonCodec { decodes: Cell::new(0) }
    }
}

fn json_to_value(json: serde_json::Value) -> Value {
    match json {
        serde_json::Value::Null => Value::Null,
        serde_json::Value::Bool(b) => Value::Bool(b),
        serde_json::Value::Number(n) => match n.as_i64() {
            Some(i) => Value::Integer(i),
            None => Value::Float(n.as_f64().unwrap_or(0.0).to_bits()),
        },
        serde_json::Value::String(s) => Value::String(s),
        serde_json::Value::Array(a) => Value::Array(a.into_iter().map(json_to_value).collect()),
        serde_json::Value::Object(o) => {
            let mut m = ValueMap::new();
            for (k, v) in o {
                m.insert(k, json_to_value(v));
            }
            Value::Object(m)
        }
    }
}

impl Codec for TestJsonCodec {
    fn decode(&self, bytes: &Bytes, format: &Format) -> Result<Value, Error> {
        self.decodes.set(self.decodes.get() + 1);
        if !format.same_as(&Format::JSON) {
            return Err(Error::UnsupportedFormat(format.duplicate()));
        }
        let json: serde_json::Value =
            serde_json::from_slice(bytes).map_err(|e| Error::decode(format.duplicate(), &e.to_string()))?;
        Ok(json_to_value(json))
    }

    fn encode(&self, _value: &Value, format: &Format) -> Result<Bytes, Error> {
        Err(Error::UnsupportedFormat(format.duplicate()))
    }

    fn supports(&self, format: &Format) -> bool {
        format.same_as(&Format::JSON)
    }
}

#[test]
fn lazy_parsing_works() {
    let json = b"{\"name\":\"Alice\",\"age\":30}";
    let mut record = LazyRecord::from_raw(Bytes::from_static(json), Format::JSON);
    assert!(!record.is_parsed());
    assert!(record.bytes().is_some());
    assert!(record.value_if_parsed().is_none());
    let codec = TestJsonCodec::new();
    let value = record.value(&codec).unwrap().clone();
    assert!(matches!(value, Value::Object(_)));
    assert!(record.is_parsed());
    let value2 = record.value(&codec).unwrap();
    assert_eq!(value2, &value);
    assert_eq!(codec.decodes.get(), 1);
}

#[test]
fn from_parsed_works() {
    let value = Value::from("hello");
    let mut record = LazyRecord::from_parsed(value.clone());
    assert!(record.is_parsed());
    assert!(!record.has_bytes());
    let codec = TestJsonCodec::new();
    let retrieved = record.value(&codec).unwrap();
    assert_eq!(retrieved, &value);
    assert_eq!(codec.decodes.get(), 0);
}

#[test]
fn from_both_works() {
    let json = b"{\"x\":1}";
    let value = Value::from(42i64);
    let mut record = LazyRecord::from_both(Bytes::from_static(json), Format::JSON, value.clone());
    assert!(record.is_parsed());
    assert!(record.has_bytes());
    let codec = TestJsonCodec::new();
    let retrieved = record.value(&codec).unwrap();
    assert_eq!(retrieved, &value);
    assert_eq!(codec.decodes.get(), 0);
}

#[test]
fn clone_preserves_parsed_state() {
    let json = b"{\"a\":1}";
    let mut record = LazyRecord::from_raw(Bytes::from_static(json), Format::JSON);
    let codec = TestJsonCodec::new();
    let _ = record.value(&codec).unwrap();
    assert!(record.is_parsed());
    let cloned = record.clone();
    assert!(cloned.is_parsed());
}

#[test]
fn into_record_works() {
    let record = LazyRecord::from_raw(Bytes::from_static(b"data"), Format::OCTET_STREAM);
    let converted = record.into_record();
    assert!(matches!(converted, Record::Raw { .. }));
    let record = LazyRecord::from_parsed(Value::from("test"));
    let converted = record.into_record();
    assert!(matches!(converted, Record::Parsed(_)));
}

#[test]
fn format_method_works() {
    let record = LazyRecord::from_raw(Bytes::from_static(b"test"), Format::JSON);
    assert!(record.format().unwrap().same_as(&Format::JSON));
    let record_parsed = LazyRecord::from_parsed(Value::Null);
    assert!(record_parsed.format().is_none());
}

#[test]
fn from_record_raw() {
    let raw_record = Record::Raw { bytes: Bytes::from_static(b"{\"a\":1}"), format: Format::JSON };
    let lazy: LazyRecord = raw_record.into();
    assert!(lazy.has_bytes());
    assert!(!lazy.is_parsed());
}

#[test]
fn from_record_parsed() {
    let parsed_record = Record::Parsed(Value::from(42i64));
    let lazy: LazyRecord = parsed_record.into();
    assert!(!lazy.has_bytes());
    assert!(lazy.is_parsed());
}

#[test]
fn clone_unparsed_record() {
    let record = LazyRecord::from_raw(Bytes::from_static(b"test"), Format::JSON);
    assert!(!record.is_parsed());
    let cloned = record.clone();
    assert!(!cloned.is_parsed());
    assert!(cloned.has_bytes());
    assert_eq!(cloned.bytes(), record.bytes());
}

#[test]
fn value_if_parsed_returns_none_when_not_parsed() {
    let record = LazyRecord::from_raw(Bytes::from_static(b"test"), Format::JSON);
    assert!(record.value_if_parsed().is_none());
}

#[test]
fn value_if_parsed_returns_some_when_parsed() {
    let value = Value::from("hello");
    let record = LazyRecord::from_parsed(value.clone());
    let retrieved = record.value_if_parsed();
    assert!(retrieved.is_some());
    assert_eq!(retrieved.unwrap(), &value);
}

#[test]
fn bytes_returns_none_for_parsed_only() {
    let record = LazyRecord::from_parsed(Value::Null);
    assert!(record.bytes().is_none());
}

#[test]
fn has_bytes_returns_correct_value() {
    let raw = LazyRecord::from_raw(Bytes::from_static(b"test"), Format::JSON);
    assert!(raw.has_bytes());
    let parsed = LazyRecord::from_parsed(Value::Null);
    assert!(!parsed.has_bytes());
    let both = LazyRecord::from_both(Bytes::from_static(b"test"), Format::JSON, Value::Null);
    assert!(both.has_bytes());
}

#[test]
fn into_record_after_parse() {
    let json = b"{\"name\":\"test\"}";
    let mut record = LazyRecord::from_raw(Bytes::from_static(json), Format::JSON);
    let codec = TestJsonCodec::new();
    let _ = record.value(&codec).unwrap();
    assert!(record.is_parsed());
    let converted = record.into_record();
    assert!(matches!(converted, Record::Parsed(_)));
}

#[test]
fn value_caches_across_calls() {
    let json = b"{\"key\":\"value\"}";
    let mut record = LazyRecord::from_raw(Bytes::from_static(json), Format::JSON);
    let codec = TestJsonCodec::new();
    let first = record.value(&codec).unwrap().clone();
    let second = record.value(&codec).unwrap().clone();
    let third = record.value(&codec).unwrap().clone();
    assert_eq!(first, second);
    assert_eq!(second, third);
    assert_eq!(codec.decodes.get(), 1);
}

#[test]
fn failed_parse_leaves_record_unparsed() {
    let mut record = LazyRecord::from_raw(Bytes::from_static(b"not valid json{"), Format::JSON);
    let codec = TestJsonCodec::new();
    assert!(record.value(&codec).is_err());
    assert!(!record.is_parsed());
    assert!(record.has_bytes());
    assert!(matches!(record.into_record(), Record::Raw { .. }));
}
