use std::collections::HashMap;

use structfs::conformance::{check_conventions, check_leaf_roundtrip, check_missing_reads_none};
use structfs::error::Error;
use structfs::memory_store::MemoryStore;
use structfs::path::Path;
use structfs::record::Record;
use structfs::traits::{children_answer, Reader, Store, Writer};
use structfs::value::{Value, ValueMap};

fn p(s: &str) -> Path {
    Path::parse(s).unwrap()
}

#[test]
fn deep_write_creates_intermediates() {
    let mut store = MemoryStore::new();
    store.write(&p("a/b/c"), Record::parsed(Value::from(1i64))).unwrap();
    assert!(store.read(&p("a")).unwrap().is_some());
    assert!(store.read(&p("a/b")).unwrap().is_some());
    assert_eq!(store.read(&p("a/b/c")).unwrap().unwrap().as_value(), Some(&Value::Integer(1)));
}

#[test]
fn null_deletes_subtree_component_wise() {
    let mut store = MemoryStore::new();
    store.write(&p("accounts/personal"), Record::parsed(Value::from(1i64))).unwrap();
    store.write(&p("accounts_other"), Record::parsed(Value::from(2i64))).unwrap();
    store.write(&p("accounts"), Record::parsed(Value::Null)).unwrap();
    assert!(store.read(&p("accounts")).unwrap().is_none());
    assert!(store.read(&p("accounts/personal")).unwrap().is_none());
    assert!(store.read(&p("accounts_other")).unwrap().is_some());
}

#[test]
fn map_write_replaces_subtree() {
    let mut store = MemoryStore::new();
    store.write(&p("cfg/old"), Record::parsed(Value::from("stale"))).unwrap();
    let mut new_state = ValueMap::new();
    new_state.insert("fresh".to_string(), Value::from("new"));
    store.write(&p("cfg"), Record::parsed(Value::Object(new_state))).unwrap();
    assert!(store.read(&p("cfg/old")).unwrap().is_none());
    assert!(store.read(&p("cfg/fresh")).unwrap().is_some());
}

#[test]
fn empty_store_reads_none_at_root() {
    let mut store = MemoryStore::new();
    assert!(store.read(&p("")).unwrap().is_none());
    assert!(store.read_children(&p("")).unwrap().is_none());
}

#[test]
fn root_write_and_clear() {
    let mut store = MemoryStore::new();
    store.write(&p(""), Record::parsed(Value::from("everything"))).unwrap();
    assert!(store.read(&p("")).unwrap().is_some());
    store.write(&p(""), Record::parsed(Value::Null)).unwrap();
    assert!(store.read(&p("")).unwrap().is_none());
}

#[test]
fn read_children_overridden() {
    let mut store = MemoryStore::new();
    store.write(&p("m/a"), Record::parsed(Value::from(1i64))).unwrap();
    store.write(&p("m/b"), Record::parsed(Value::from(2i64))).unwrap();
    assert_eq!(store.read_children(&p("m")).unwrap(), Some(vec!["a".to_string(), "b".to_string()]));
    assert_eq!(store.read_children(&p("m/a")).unwrap(), Some(vec![]));
    assert_eq!(store.read_children(&p("missing")).unwrap(), None);
}

#[test]
fn memory_store_is_conformant() {
    check_conventions(&mut MemoryStore::new()).unwrap();
}

/// A store over a hash map, for the interface tests.
struct TestStore {
    data: HashMap<Path, Record>,
}

impl Reader for TestStore {
    fn read(&mut self, from: &Path) -> Result<Option<Record>, Error> {
        Ok(self.data.get(from).cloned())
    }
}

impl Writer for TestStore {
    fn write(&mut self, to: &Path, data: Record) -> Result<Path, Error> {
        self.data.insert(to.clone(), data);
        Ok(to.clone())
    }
}

#[test]
fn basic_store_works() {
    let mut store = TestStore { data: HashMap::new() };
    let path = p("users/123");
    let record = Record::parsed(Value::from("Alice"));
    store.write(&path, record.clone()).unwrap();
    let result = store.read(&path).unwrap();
    assert!(result.is_some());
}

#[test]
fn object_safety_works() {
    let mut store = TestStore { data: HashMap::new() };
    let boxed: &mut dyn Store = &mut store;
    let path = p("test");
    boxed.write(&path, Record::parsed(Value::from("hello"))).unwrap();
    let result = boxed.read(&path).unwrap();
    assert!(result.is_some());
}

#[test]
fn snapshot_from_entries() {
    let entries = vec![
        (p("users/alice"), Value::from("a")),
        (p("users/bob"), Value::Null),
        (p("settings"), Value::Object(ValueMap::new())),
    ];
    let mut store = MemoryStore::from_entries(entries).unwrap();
    assert_eq!(store.read(&p("users/alice")).unwrap().unwrap().as_value(), Some(&Value::from("a")));
    assert_eq!(store.read(&p("users/bob")).unwrap().unwrap().as_value(), Some(&Value::Null));
    assert!(store.read(&p("users")).unwrap().unwrap().as_value().unwrap().is_map());
    assert_eq!(store.read_children(&p("settings")).unwrap(), Some(vec![]));
    assert!(store.read(&p("other")).unwrap().is_none());
}

#[test]
fn snapshot_with_null_root() {
    let store = MemoryStore::from_entries(vec![(p(""), Value::Null)]).unwrap();
    assert_eq!(store.root(), Some(&Value::Null));
}

#[test]
fn empty_snapshot_has_no_root() {
    let store = MemoryStore::from_entries(vec![]).unwrap();
    assert!(store.root().is_none());
}

#[test]
fn snapshot_rejects_overlap_in_any_order() {
    for entries in [
        vec![(p("a/b"), Value::from(1i64)), (p("a"), Value::from(2i64))],
        vec![(p("a"), Value::from(2i64)), (p("a/b"), Value::from(1i64))],
    ] {
        match MemoryStore::from_entries(entries) {
            Err(Error::Conflict { message }) => {
                assert_eq!(message, "snapshot paths overlap: 'a' and 'a/b'");
            },
            _ => panic!("expected a conflict"),
        }
    }
}

#[test]
fn snapshot_rejects_duplicates() {
    let result = MemoryStore::from_entries(vec![(p("x"), Value::from(1i64)), (p("x"), Value::from(2i64))]);
    match result {
        Err(Error::Conflict { message }) => assert_eq!(message, "snapshot paths overlap: 'x' and 'x'"),
        _ => panic!("expected a conflict"),
    }
}

#[test]
fn snapshot_names_first_pair_in_path_order() {
    let entries = vec![
        (p("z/1"), Value::from(1i64)),
        (p("b/c"), Value::from(1i64)),
        (p("z"), Value::from(1i64)),
        (p("b"), Value::from(1i64)),
    ];
    match MemoryStore::from_entries(entries) {
        Err(Error::Conflict { message }) => assert_eq!(message, "snapshot paths overlap: 'b' and 'b/c'"),
        _ => panic!("expected a conflict"),
    }
}

#[test]
fn written_value_reads_back_below() {
    let mut store = MemoryStore::new();
    let mut m = ValueMap::new();
    m.insert("k".to_string(), Value::from(5i64));
    store.write(&p("x"), Record::parsed(Value::Object(m))).unwrap();
    assert_eq!(store.read(&p("x/k")).unwrap().unwrap().as_value(), Some(&Value::Integer(5)));
}

#[test]
fn raw_write_is_refused() {
    let mut store = MemoryStore::new();
    let result = store.write(&p("x"), Record::raw(bytes::Bytes::from_static(b"1"), structfs::format::Format::JSON));
    assert!(matches!(result, Err(Error::UnsupportedFormat(_))));
}

#[test]
fn snapshot_construction_and_write_convention_are_distinct() {
    let mut store = MemoryStore::from_entries(vec![
        (p("settings/example"), Value::Null),
        (p("empty_map"), Value::map()),
        (p("empty_array"), Value::Array(vec![])),
    ])
    .unwrap();
    assert_eq!(store.read(&p("settings/example")).unwrap().unwrap().as_value(), Some(&Value::Null));
    assert_eq!(store.read_children(&p("settings")).unwrap(), Some(vec!["example".to_string()]));
    store.write(&p("settings/example"), Record::parsed(Value::Null)).unwrap();
    assert!(store.read(&p("settings/example")).unwrap().is_none());
    assert_eq!(store.read_children(&p("settings")).unwrap(), Some(vec![]));
    assert!(store.read(&p("empty_map")).unwrap().is_some());
    assert!(store.read(&p("empty_array")).unwrap().is_some());
    let mut root = MemoryStore::from_entries(vec![(p(""), Value::Null)]).unwrap();
    assert_eq!(root.root(), Some(&Value::Null));
    assert!(root.read(&p("")).unwrap().is_some());
    root.write(&p(""), Record::parsed(Value::Null)).unwrap();
    assert_eq!(root.root(), None);
    assert_eq!(MemoryStore::from_entries(vec![]).unwrap().root(), None);
}

#[test]
fn snapshots_reject_ambiguous_entries_in_either_order() {
    for paths in [[p("a"), p("a/b")], [p("a"), p("a")], [p(""), p("a")]] {
        for order in [vec![paths[0].clone(), paths[1].clone()], vec![paths[1].clone(), paths[0].clone()]] {
            assert!(MemoryStore::from_entries(order.into_iter().map(|q| (q, Value::Null)).collect()).is_err());
        }
    }
    let mut store =
        MemoryStore::from_entries(vec![(p("a/0"), Value::Bool(true)), (p("aa"), Value::Bool(false))]).unwrap();
    assert!(store.read(&p("a")).unwrap().unwrap().as_value().unwrap().is_map());
    let mut m = ValueMap::new();
    m.insert("not/a/path".to_string(), Value::Null);
    let value = Value::Object(m);
    assert_eq!(MemoryStore::with_root(value.clone()).root(), Some(&value));
}

#[test]
fn children_answer_lists_names_or_passes_through() {
    let mut m = structfs::value::ValueMap::new();
    m.insert("b".to_string(), Value::from(1i64));
    m.insert("a".to_string(), Value::from(2i64));
    let listed = children_answer(Ok(Some(Record::parsed(Value::Object(m))))).unwrap();
    assert_eq!(listed, Some(vec!["a".to_string(), "b".to_string()]));
    let arr = children_answer(Ok(Some(Record::parsed(Value::Array(vec![Value::Null, Value::Null]))))).unwrap();
    assert_eq!(arr, Some(vec!["0".to_string(), "1".to_string()]));
    assert_eq!(children_answer(Ok(None)).unwrap(), None);
    assert!(children_answer(Err(structfs::error::Error::store("s", "read", "boom"))).is_err());
}

#[test]
fn empty_memory_store_passes_leaf_and_missing_checks() {
    let mut store = MemoryStore::new();
    assert_eq!(check_missing_reads_none(&mut store), Ok(()));
    assert_eq!(check_leaf_roundtrip(&mut store), Ok(()));
    assert_eq!(
        store.read(&p("conformance_leaf/value")).unwrap().unwrap().as_value(),
        Some(&Value::from("roundtrip"))
    );
}
