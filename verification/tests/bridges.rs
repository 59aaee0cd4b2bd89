use std::collections::HashMap;

use bytes::Bytes;

use structfs::async_bridge::{AsyncCoreToLL, AsyncLLToCore};
use structfs::bridge::{path_from_bytes, path_from_ll, CoreToLL, LLToCore};
use structfs::error::Error;
use structfs::format::Format;
use structfs::ll::{LLError, LLPath, LLReader, LLWriter};
use structfs::path::Path;
use structfs::record::{NoCodec, Record};
use structfs::traits::{Reader, Writer};

fn p(s: &str) -> Path {
    Path::parse(s).unwrap()
}

/// A low-level store over a hash map.
struct TestLLStore {
    data: HashMap<Vec<Vec<u8>>, Bytes>,
}

impl TestLLStore {
    fn new() -> Self {
        TestLLStore { data: HashMap::new() }
    }
}

impl LLReader for TestLLStore {
    fn ll_read(&mut self, path: &[&[u8]]) -> Result<Option<Bytes>, LLError> {
        let key: Vec<Vec<u8>> = path.iter().map(|c| c.to_vec()).collect();
        Ok(self.data.get(&key).cloned())
    }
}

impl LLWriter for TestLLStore {
    fn ll_write(&mut self, path: &[&[u8]], data: Bytes) -> Result<LLPath, LLError> {
        let key: Vec<Vec<u8>> = path.iter().map(|c| c.to_vec()).collect();
        self.data.insert(key, data);
        Ok(path.iter().map(|c| Bytes::copy_from_slice(c)).collect())
    }
}

/// A store over a hash map.
struct TestCoreStore {
    data: HashMap<Path, Record>,
}

impl TestCoreStore {
    fn new() -> Self {
        TestCoreStore { data: HashMap::new() }
    }
}

impl Reader for TestCoreStore {
    fn read(&mut self, from: &Path) -> Result<Option<Record>, Error> {
        Ok(self.data.get(from).cloned())
    }
}

impl Writer for TestCoreStore {
    fn write(&mut self, to: &Path, data: Record) -> Result<Path, Error> {
        self.data.insert(to.clone(), data);
        Ok(to.clone())
    }
}

#[test]
fn ll_to_core_read() {
    let mut ll = TestLLStore::new();
    ll.data.insert(vec![b"users".to_vec(), b"123".to_vec()], Bytes::from_static(b"hello"));
    let mut bridge = LLToCore::new(ll, NoCodec, Format::OCTET_STREAM);
    let result = bridge.read(&p("users/123")).unwrap();
    assert!(result.is_some());
    assert_eq!(result.unwrap().as_bytes(), Some(&Bytes::from_static(b"hello")));
}

#[test]
fn ll_to_core_write() {
    let ll = TestLLStore::new();
    let mut bridge = LLToCore::new(ll, NoCodec, Format::OCTET_STREAM);
    let record = Record::raw(Bytes::from_static(b"data"), Format::OCTET_STREAM);
    bridge.write(&p("test/path"), record).unwrap();
    let key = vec![b"test".to_vec(), b"path".to_vec()];
    assert!(bridge.inner().data.contains_key(&key));
}

#[test]
fn core_to_ll_read() {
    let mut core = TestCoreStore::new();
    core.data.insert(p("users/123"), Record::raw(Bytes::from_static(b"hello"), Format::OCTET_STREAM));
    let mut bridge = CoreToLL::new(core, NoCodec, Format::OCTET_STREAM);
    let result = bridge.ll_read(&[b"users", b"123"]).unwrap();
    assert_eq!(result, Some(Bytes::from_static(b"hello")));
}

#[test]
fn core_to_ll_write() {
    let core = TestCoreStore::new();
    let mut bridge = CoreToLL::new(core, NoCodec, Format::OCTET_STREAM);
    bridge.ll_write(&[b"test", b"path"], Bytes::from_static(b"data")).unwrap();
    assert!(bridge.inner().data.contains_key(&p("test/path")));
}

#[test]
fn invalid_utf8_path_rejected() {
    let core = TestCoreStore::new();
    let mut bridge = CoreToLL::new(core, NoCodec, Format::OCTET_STREAM);
    let result = bridge.ll_read(&[&[0xFF, 0xFE]]);
    assert!(matches!(result, Err(LLError::Protocol { .. })));
}

#[test]
fn invalid_path_is_protocol_error_one() {
    let mut bridge = CoreToLL::new(TestCoreStore::new(), NoCodec, Format::OCTET_STREAM);
    match bridge.ll_write(&[b"bad-name"], Bytes::from_static(b"x")) {
        Err(LLError::Protocol { code, detail }) => {
            assert_eq!(code, 1);
            let text = String::from_utf8(detail.to_vec()).unwrap();
            assert!(text.contains("bad-name"));
        },
        _ => panic!("expected a protocol error"),
    }
}

#[test]
fn core_read_failure_is_protocol_error_two() {
    struct Failing;
    impl Reader for Failing {
        fn read(&mut self, _from: &Path) -> Result<Option<Record>, Error> {
            Err(Error::not_found("nothing"))
        }
    }
    let mut bridge = CoreToLL::new(Failing, NoCodec, Format::OCTET_STREAM);
    match bridge.ll_read(&[b"a"]) {
        Err(LLError::Protocol { code, detail }) => {
            assert_eq!(code, 2);
            assert_eq!(detail, Bytes::from_static(b"not found: nothing"));
        },
        _ => panic!("expected a protocol error"),
    }
}

#[test]
fn serialization_failure_is_protocol_error_three() {
    let mut core = TestCoreStore::new();
    core.data.insert(p("x"), Record::parsed(structfs::value::Value::Null));
    let mut bridge = CoreToLL::new(core, NoCodec, Format::JSON);
    match bridge.ll_read(&[b"x"]) {
        Err(LLError::Protocol { code, .. }) => assert_eq!(code, 3),
        _ => panic!("expected a protocol error"),
    }
}

#[test]
fn ll_write_returns_the_written_path() {
    let mut bridge = CoreToLL::new(TestCoreStore::new(), NoCodec, Format::OCTET_STREAM);
    let out = bridge.ll_write(&[b"a", b"b"], Bytes::from_static(b"d")).unwrap();
    assert_eq!(out, vec![Bytes::from_static(b"a"), Bytes::from_static(b"b")]);
}

#[test]
fn ll_error_passes_through_as_store_error() {
    struct Refusing;
    impl LLReader for Refusing {
        fn ll_read(&mut self, _path: &[&[u8]]) -> Result<Option<Bytes>, LLError> {
            Err(LLError::NotSupported)
        }
    }
    let mut bridge = LLToCore::new(Refusing, NoCodec, Format::JSON);
    assert!(matches!(bridge.read(&p("a")), Err(Error::Ll(LLError::NotSupported))));
}

#[test]
fn read_format_hint_is_applied() {
    let mut ll = TestLLStore::new();
    ll.data.insert(vec![b"k".to_vec()], Bytes::from_static(b"{}"));
    let mut bridge = LLToCore::with_formats(ll, NoCodec, Format::JSON, Format::OCTET_STREAM);
    let record = bridge.read(&p("k")).unwrap().unwrap();
    assert_eq!(record.format(), Format::JSON);
    bridge.inner_mut().data.clear();
    assert!(bridge.read(&p("k")).unwrap().is_none());
    let inner = bridge.into_inner();
    assert!(inner.data.is_empty());
}

#[test]
fn path_conversions() {
    assert_eq!(path_from_bytes(&[b"a", b"b"]).unwrap(), p("a/b"));
    assert!(path_from_bytes(&[b"a b"]).is_err());
    let ll = vec![Bytes::from_static(b"x"), Bytes::from_static(b"0")];
    assert_eq!(path_from_ll(&ll).unwrap(), p("x/0"));
    assert!(matches!(path_from_ll(&[Bytes::from_static(&[0xff])]), Err(Error::Path(_))));
}

#[test]
fn async_bridges_hold_their_parts() {
    let bridge = AsyncLLToCore::with_formats(TestLLStore::new(), NoCodec, Format::JSON, Format::CBOR);
    assert_eq!(bridge.read_format(), &Format::JSON);
    assert_eq!(bridge.write_format(), &Format::CBOR);
    let back = AsyncCoreToLL::new(TestCoreStore::new(), NoCodec, Format::OCTET_STREAM);
    assert_eq!(back.format(), &Format::OCTET_STREAM);
    assert!(back.into_inner().data.is_empty());
}
