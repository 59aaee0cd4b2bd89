use bytes::Bytes;

use structfs::error::Error;
use structfs::format::Format;
use structfs::ll::LLError;
use structfs::path::{Path, PathError};

#[test]
fn error_display() {
    let e = Error::NoRoute { path: Path::parse("foo/bar").unwrap() };
    assert!(e.to_string().contains("foo/bar"));
    let e = Error::UnsupportedFormat(Format::PROTOBUF);
    assert!(e.to_string().contains("protobuf"));
}

#[test]
fn path_error_display() {
    let e = Error::Path(PathError::InvalidComponent {
        component: "bad".to_string(),
        position: 1,
        message: "invalid".to_string(),
    });
    assert!(e.to_string().contains("path error"));
}

#[test]
fn invalid_path_display() {
    let e = Error::InvalidPath { message: "bad path".to_string() };
    assert!(e.to_string().contains("invalid path"));
    assert!(e.to_string().contains("bad path"));
}

#[test]
fn decode_error_display() {
    let e = Error::Decode { format: Format::JSON, message: "unexpected token".to_string() };
    let display = e.to_string();
    assert!(display.contains("decode error"));
    assert!(display.contains("json"));
    assert!(display.contains("unexpected token"));
}

#[test]
fn encode_error_display() {
    let e = Error::Encode { format: Format::CBOR, message: "serialization failed".to_string() };
    let display = e.to_string();
    assert!(display.contains("encode error"));
    assert!(display.contains("cbor"));
    assert!(display.contains("serialization failed"));
}

#[test]
fn ll_error_display() {
    let e = Error::Ll(LLError::NotSupported);
    assert!(e.to_string().contains("ll error"));
}

#[test]
fn other_error_display() {
    let e = Error::Other { message: "something went wrong".to_string() };
    assert_eq!(e.to_string(), "something went wrong");
}

#[test]
fn path_error_source() {
    let e = Error::Path(PathError::InvalidPath { message: "test".to_string() });
    assert!(e.source().is_some());
}

#[test]
fn other_error_source_is_none() {
    let e = Error::Other { message: "test".to_string() };
    assert!(e.source().is_none());
}

#[test]
fn path_error_conversion() {
    let path_err = PathError::InvalidPath { message: "test".to_string() };
    let e: Error = path_err.into();
    assert!(matches!(e, Error::Path(_)));
}

#[test]
fn ll_error_conversion() {
    let e: Error = LLError::ResourceExhausted.into();
    assert!(matches!(e, Error::Ll(_)));
}

#[test]
fn error_texts_are_exact() {
    assert_eq!(Error::store("overlay", "read", "boom").to_string(), "overlay read failed: boom");
    assert_eq!(Error::not_found("x").to_string(), "not found: x");
    assert_eq!(Error::permission_denied("y").to_string(), "permission denied: y");
    assert_eq!(Error::conflict("z").to_string(), "conflict: z");
    assert_eq!(Error::cancelled("c").to_string(), "cancelled: c");
    assert_eq!(Error::resource_limit("r").to_string(), "resource limit exceeded: r");
    assert!(Error::not_found("x").is_not_found());
    assert!(!Error::conflict("x").is_not_found());
}

#[test]
fn ll_protocol_error_carries_detail() {
    let e = LLError::protocol(7, "bad");
    assert_eq!(e.to_string(), "protocol error (code 7)");
    match e {
        LLError::Protocol { code, detail } => {
            assert_eq!(code, 7);
            assert_eq!(detail, Bytes::from_static(b"bad"));
        },
        _ => panic!("expected a protocol error"),
    }
    assert_eq!(Error::Ll(LLError::ResourceExhausted).to_string(), "ll error: resource exhausted");
}

#[test]
fn ll_error_source() {
    let e = Error::Ll(LLError::NotSupported);
    assert!(e.source().is_some());
    assert!(matches!(e.source(), Some(structfs::error::Cause::Ll(LLError::NotSupported))));
}
