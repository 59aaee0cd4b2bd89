use bytes::Bytes;
use std::collections::hash_map::DefaultHasher;
use std::hash::{Hash, Hasher};

use structfs::error::Error;
use structfs::format::Format;
use structfs::record::{Codec, NoCodec, Record};
use structfs::value::Value;

#[test]
fn constants_work() {
    assert_eq!(Format::JSON.as_str(), "application/json");
    assert!(Format::JSON.is_json());
    assert!(!Format::JSON.is_protobuf());
}

#[test]
fn custom_formats() {
    let f = Format::new("application/x-custom".to_string());
    assert_eq!(f.as_str(), "application/x-custom");
}

#[test]
fn equality() {
    assert_eq!(Format::JSON, Format::from("application/json"));
    assert_eq!(Format::JSON, Format::new("application/json".to_string()));
}

/// A codec that claims JSON and decodes nothing.
struct TestJsonCodec;

impl Codec for TestJsonCodec {
    fn decode(&self, _bytes: &Bytes, format: &Format) -> Result<Value, Error> {
        Err(Error::UnsupportedFormat(format.clone()))
    }

    fn encode(&self, _value: &Value, format: &Format) -> Result<Bytes, Error> {
        Err(Error::UnsupportedFormat(format.clone()))
    }

    fn supports(&self, format: &Format) -> bool {
        format.is_json()
    }
}

#[test]
fn codec_supports() {
    let codec = TestJsonCodec;
    assert!(codec.supports(&Format::JSON));
    assert!(!codec.supports(&Format::OCTET_STREAM));
}

#[test]
fn value_format_is_value() {
    assert!(Format::VALUE.is_value());
    assert_eq!(Format::VALUE.as_str(), "application/x-structfs-value");
    assert_eq!(Format::OCTET_STREAM.to_string(), "application/octet-stream");
    assert_eq!(Format::from_static("text/plain").as_str(), "text/plain");
}

#[test]
fn no_codec_refuses_every_format() {
    let codec = NoCodec;
    assert!(!codec.supports(&Format::JSON));
    match codec.decode(&Bytes::from_static(b"x"), &Format::JSON) {
        Err(Error::UnsupportedFormat(f)) => assert_eq!(f, Format::JSON),
        _ => panic!("expected unsupported format"),
    }
    match codec.encode(&Value::Null, &Format::CBOR) {
        Err(Error::UnsupportedFormat(f)) => assert_eq!(f, Format::CBOR),
        _ => panic!("expected unsupported format"),
    }
}

#[test]
fn raw_record_in_target_format_passes_through() {
    let record = Record::raw(Bytes::from_static(b"abc"), Format::OCTET_STREAM);
    let bytes = record.into_bytes(&NoCodec, &Format::OCTET_STREAM).unwrap();
    assert_eq!(bytes, Bytes::from_static(b"abc"));
}

#[test]
fn equal_formats_hash_alike() {
    fn hash_of(f: &Format) -> u64 {
        let mut h = DefaultHasher::new();
        f.hash(&mut h);
        h.finish()
    }
    let named = Format::new("application/json".to_string());
    assert_eq!(named, Format::JSON);
    assert_eq!(hash_of(&named), hash_of(&Format::JSON));
    assert_eq!(hash_of(&Format::from_static("application/cbor")), hash_of(&Format::CBOR));
    assert_eq!(Format::new("text/plain".to_string()).as_str(), "text/plain");
}
