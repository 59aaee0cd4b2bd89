use std::collections::HashMap;

use structfs::error::Error;
use structfs::mount_store::{config_to_value, value_to_config, MountConfig, MountInfo, MountStore, StoreFactory};
use structfs::path::Path;
use structfs::record::{NoCodec, Record};
use structfs::traits::{Reader, Store, Writer};
use structfs::value::{Value, ValueMap};

fn p(s: &str) -> Path {
    Path::parse(s).unwrap()
}

struct TestStore {
    data: HashMap<Path, Record>,
}

impl TestStore {
    fn new() -> Self {
        TestStore { data: HashMap::new() }
    }
}

impl Reader for TestStore {
    fn read(&mut self, from: &Path) -> Result<Option<Record>, Error> {
        Ok(self.data.get(from).cloned())
    }
}

impl Writer for TestStore {
    fn write(&mut self, to: &Path, data: Record) -> Result<Path, Error> {
        self.data.insert(to.clone(), data);
        Ok(to.clone())
    }
}

struct TestFactory;

impl StoreFactory for TestFactory {
    type Store = Box<dyn Store>;

    fn create(&self, _config: &MountConfig) -> Result<Box<dyn Store>, Error> {
        Ok(Box::new(TestStore::new()))
    }
}

struct FailingFactory;

impl StoreFactory for FailingFactory {
    type Store = Box<dyn Store>;

    fn create(&self, _config: &MountConfig) -> Result<Box<dyn Store>, Error> {
        Err(Error::store("factory", "create", "Factory failed"))
    }
}

fn map_of(entries: Vec<(&str, Value)>) -> Value {
    let mut m = ValueMap::new();
    for (k, v) in entries {
        m.insert(k.to_string(), v);
    }
    Value::Object(m)
}

#[test]
fn mount_and_access() {
    let mut store = MountStore::new(TestFactory);
    store.mount("data", MountConfig::Memory).unwrap();
    store.write(&p("data/test"), Record::parsed(Value::from("hello"))).unwrap();
    let record = store.read(&p("data/test")).unwrap().unwrap();
    let value = record.into_value(&NoCodec).unwrap();
    assert_eq!(value, Value::from("hello"));
}

#[test]
fn list_mounts() {
    let mut store = MountStore::new(TestFactory);
    store.mount("data", MountConfig::Memory).unwrap();
    store.mount("local", MountConfig::Local { path: "/tmp".to_string() }).unwrap();
    let record = store.read(&p("ctx/mounts")).unwrap().unwrap();
    let value = record.into_value(&NoCodec).unwrap();
    match value {
        Value::Array(arr) => assert_eq!(arr.len(), 2),
        _ => panic!("expected array"),
    }
}

#[test]
fn mount_via_write() {
    let mut store = MountStore::new(TestFactory);
    let config = config_to_value(&MountConfig::Memory);
    store.write(&p("ctx/mounts/data"), Record::parsed(config)).unwrap();
    let mounts = store.list_mounts();
    assert_eq!(mounts.len(), 1);
    assert_eq!(mounts[0].path, "data");
}

#[test]
fn unmount_via_write_null() {
    let mut store = MountStore::new(TestFactory);
    store.mount("data", MountConfig::Memory).unwrap();
    assert_eq!(store.list_mounts().len(), 1);
    store.write(&p("ctx/mounts/data"), Record::parsed(Value::Null)).unwrap();
    assert_eq!(store.list_mounts().len(), 0);
}

#[test]
fn config_conversion_roundtrip() {
    let configs = vec![
        MountConfig::Memory,
        MountConfig::Local { path: "/tmp/test".to_string() },
        MountConfig::Http { url: "https://api.example.com".to_string() },
        MountConfig::HttpBroker,
        MountConfig::AsyncHttpBroker,
        MountConfig::Structfs { url: "https://fs.example.com".to_string() },
        MountConfig::Help,
        MountConfig::Sys,
        MountConfig::Repl,
    ];
    for config in configs {
        let value = config_to_value(&config);
        let back = value_to_config(&value).unwrap();
        assert_eq!(config, back);
    }
}

#[test]
fn mount_store_directly() {
    let mut store = MountStore::new(TestFactory);
    let test_store: Box<dyn Store> = Box::new(TestStore::new());
    store.mount_store("direct", test_store).unwrap();
    store.write(&p("direct/test"), Record::parsed(Value::from("direct_value"))).unwrap();
    let record = store.read(&p("direct/test")).unwrap().unwrap();
    let value = record.into_value(&NoCodec).unwrap();
    assert_eq!(value, Value::from("direct_value"));
}

#[test]
fn unmount_nonexistent_fails() {
    let mut store = MountStore::new(TestFactory);
    let result = store.unmount("nonexistent");
    assert!(result.is_err());
    assert!(result.unwrap_err().to_string().contains("No mount"));
}

#[test]
fn read_specific_mount_config() {
    let mut store = MountStore::new(TestFactory);
    store.mount("mydata", MountConfig::Local { path: "/my/path".to_string() }).unwrap();
    let record = store.read(&p("ctx/mounts/mydata")).unwrap().unwrap();
    let value = record.into_value(&NoCodec).unwrap();
    match value {
        Value::Object(map) => {
            assert_eq!(map.get("type"), Some(&Value::String("local".to_string())));
            assert_eq!(map.get("path"), Some(&Value::String("/my/path".to_string())));
        },
        _ => panic!("expected map"),
    }
}

#[test]
fn read_nonexistent_mount_config() {
    let mut store = MountStore::new(TestFactory);
    let result = store.read(&p("ctx/mounts/nonexistent")).unwrap();
    assert!(result.is_none());
}

#[test]
fn write_directly_to_mounts_fails() {
    let mut store = MountStore::new(TestFactory);
    let result = store.write(&p("ctx/mounts"), Record::parsed(Value::Null));
    assert!(result.is_err());
    assert!(result.unwrap_err().to_string().contains("Cannot write"));
}

#[test]
fn value_to_config_unknown_type_fails() {
    let result = value_to_config(&map_of(vec![("type", Value::String("unknown".to_string()))]));
    assert!(result.is_err());
    assert!(result.unwrap_err().to_string().contains("Unknown mount type"));
}

#[test]
fn value_to_config_non_map_fails() {
    let result = value_to_config(&Value::String("not a map".to_string()));
    assert!(result.is_err());
    assert!(result.unwrap_err().to_string().contains("must be a map"));
}

#[test]
fn value_to_config_missing_type_fails() {
    let result = value_to_config(&Value::Object(ValueMap::new()));
    assert!(result.is_err());
    assert!(result.unwrap_err().to_string().contains("Missing 'type'"));
}

#[test]
fn value_to_config_type_not_string_fails() {
    let result = value_to_config(&map_of(vec![("type", Value::Integer(123))]));
    assert!(result.is_err());
    assert!(result.unwrap_err().to_string().contains("Missing 'type'"));
}

#[test]
fn value_to_config_local_missing_path_fails() {
    let result = value_to_config(&map_of(vec![("type", Value::String("local".to_string()))]));
    assert!(result.is_err());
    assert!(result.unwrap_err().to_string().contains("Missing 'path'"));
}

#[test]
fn value_to_config_http_missing_url_fails() {
    let result = value_to_config(&map_of(vec![("type", Value::String("http".to_string()))]));
    assert!(result.is_err());
    assert!(result.unwrap_err().to_string().contains("Missing 'url'"));
}

#[test]
fn value_to_config_structfs_missing_url_fails() {
    let result = value_to_config(&map_of(vec![("type", Value::String("structfs".to_string()))]));
    assert!(result.is_err());
    assert!(result.unwrap_err().to_string().contains("Missing 'url'"));
}

#[test]
fn mount_with_failing_factory() {
    let mut store = MountStore::new(FailingFactory);
    let result = store.mount("data", MountConfig::Memory);
    assert!(result.is_err());
    assert!(result.unwrap_err().to_string().contains("Factory failed"));
}

#[test]
fn mount_info_serialization() {
    let info = MountInfo { path: "/test".to_string(), config: MountConfig::Memory };
    let debug = format!("{:?}", info);
    assert!(debug.contains("/test"));
    assert!(debug.contains("Memory"));
    let cloned = info.clone();
    assert_eq!(cloned.path, "/test");
}

#[test]
fn mount_config_debug_clone() {
    let config = MountConfig::Http { url: "https://test.com".to_string() };
    let debug = format!("{:?}", config);
    assert!(debug.contains("https://test.com"));
    let cloned = config.clone();
    assert_eq!(cloned, config);
}

#[test]
fn nested_mount_path() {
    let mut store = MountStore::new(TestFactory);
    let config = config_to_value(&MountConfig::Memory);
    store.write(&p("ctx/mounts/nested/path"), Record::parsed(config)).unwrap();
    let mounts = store.list_mounts();
    assert_eq!(mounts.len(), 1);
    assert_eq!(mounts[0].path, "nested/path");
}

#[test]
fn delegate_to_overlay_read() {
    let mut store = MountStore::new(TestFactory);
    let result = store.read(&p("unmounted/path"));
    assert!(result.is_err());
    assert!(result.unwrap_err().to_string().contains("no route"));
}

#[test]
fn is_mounts_path_variations() {
    assert!(MountStore::<TestFactory>::is_mounts_path(&p("ctx/mounts")));
    assert!(MountStore::<TestFactory>::is_mounts_path(&p("ctx/mounts/foo")));
    assert!(MountStore::<TestFactory>::is_mounts_path(&p("ctx/mounts/foo/bar")));
    assert!(!MountStore::<TestFactory>::is_mounts_path(&p("ctx")));
    assert!(!MountStore::<TestFactory>::is_mounts_path(&p("ctx/other")));
    assert!(!MountStore::<TestFactory>::is_mounts_path(&p("other")));
}

#[test]
fn get_mount_name_variations() {
    assert_eq!(MountStore::<TestFactory>::get_mount_name(&p("ctx/mounts/foo")), Some("foo".to_string()));
    assert_eq!(MountStore::<TestFactory>::get_mount_name(&p("ctx/mounts/foo/bar")), Some("foo/bar".to_string()));
    assert_eq!(MountStore::<TestFactory>::get_mount_name(&p("ctx/mounts")), None);
    assert_eq!(MountStore::<TestFactory>::get_mount_name(&p("ctx")), None);
}

#[test]
fn unmount_removes_from_overlay() {
    let mut store = MountStore::new(TestFactory);
    store.mount("data", MountConfig::Memory).unwrap();
    store.write(&p("data/key"), Record::parsed(Value::Integer(42))).unwrap();
    let result = store.read(&p("data/key")).unwrap();
    assert!(result.is_some());
    store.unmount("data").unwrap();
    let result = store.read(&p("data/key"));
    assert!(result.is_err());
}

#[test]
fn unmount_allows_remount() {
    let mut store = MountStore::new(TestFactory);
    store.mount("data", MountConfig::Memory).unwrap();
    store.write(&p("data/key"), Record::parsed(Value::Integer(1))).unwrap();
    store.unmount("data").unwrap();
    store.mount("data", MountConfig::Memory).unwrap();
    let result = store.read(&p("data/key")).unwrap();
    assert!(result.is_none());
}

#[test]
fn unmount_priority_preserved() {
    let mut store = MountStore::new(TestFactory);
    store.mount("data", MountConfig::Memory).unwrap();
    store.mount("data/nested", MountConfig::Memory).unwrap();
    store.write(&p("data/nested/key"), Record::parsed(Value::Integer(1))).unwrap();
    store.unmount("data/nested").unwrap();
    store.write(&p("data/other"), Record::parsed(Value::Integer(2))).unwrap();
    let result = store.read(&p("data/other")).unwrap();
    assert!(result.is_some());
}

#[test]
fn unmount_message_is_exact() {
    let mut store = MountStore::new(TestFactory);
    let err = store.unmount("gone").unwrap_err();
    assert!(err.to_string().ends_with("No mount at 'gone'"));
}

#[test]
fn mount_created_returns_the_factory_error() {
    let mut store: MountStore<TestFactory> = MountStore::new(TestFactory);
    let failed: Result<Box<dyn Store>, Error> = Err(Error::store("factory", "create", "Factory failed"));
    let r = store.mount_created("data", MountConfig::Memory, failed);
    assert_eq!(r.unwrap_err().to_string(), Error::store("factory", "create", "Factory failed").to_string());
    assert_eq!(store.list_mounts().len(), 0);
}

#[test]
fn mount_created_rejects_a_bad_name() {
    let mut store = MountStore::new(TestFactory);
    let created: Box<dyn Store> = Box::new(TestStore::new());
    let r = store.mount_created("bad name!", MountConfig::Memory, Ok(created));
    assert!(matches!(r, Err(Error::Path(_))));
    assert_eq!(store.list_mounts().len(), 0);
}

#[test]
fn mount_created_mounts_and_tracks() {
    let mut store = MountStore::new(TestFactory);
    let created: Box<dyn Store> = Box::new(TestStore::new());
    store.mount_created("data", MountConfig::Memory, Ok(created)).unwrap();
    assert_eq!(store.list_mounts().len(), 1);
    store.write(&p("data/k"), Record::parsed(Value::from("v"))).unwrap();
    let value = store.read(&p("data/k")).unwrap().unwrap().into_value(&NoCodec).unwrap();
    assert_eq!(value, Value::from("v"));
}

struct DocsFactory;

impl StoreFactory for DocsFactory {
    type Store = Box<dyn Store>;

    fn create(&self, _config: &MountConfig) -> Result<Box<dyn Store>, Error> {
        let mut s = TestStore::new();
        s.data.insert(p("docs"), Record::parsed(Value::from("manual")));
        Ok(Box::new(s))
    }
}

#[test]
fn mount_redirects_help_to_found_docs() {
    let mut store = MountStore::new(DocsFactory);
    store.mount("svc", MountConfig::Memory).unwrap();
    let value = store.read(&p("ctx/help/svc")).unwrap().unwrap().into_value(&NoCodec).unwrap();
    assert_eq!(value, Value::from("manual"));
    assert!(store.write(&p("ctx/help/svc"), Record::parsed(Value::from("x"))).is_err());
}

#[test]
fn mount_without_docs_adds_no_help_redirect() {
    let mut store = MountStore::new(TestFactory);
    store.mount("svc", MountConfig::Memory).unwrap();
    assert!(store.list_redirects().is_empty());
}
