use std::collections::HashMap;

use structfs::error::Error;
use structfs::overlay_store::{OnlyReadable, OnlyWritable, OverlayStore, RedirectMode, SubStoreView};
use structfs::path::Path;
use structfs::record::{NoCodec, Record};
use structfs::traits::{Reader, Store, Writer};
use structfs::value::Value;

fn p(s: &str) -> Path {
    Path::parse(s).unwrap()
}

/// A store over a hash map.
struct TestStore {
    data: HashMap<Path, Record>,
}

impl TestStore {
    fn new(_name: &str) -> Self {
        TestStore { data: HashMap::new() }
    }
}

impl Reader for TestStore {
    fn read(&mut self, from: &Path) -> Result<Option<Record>, Error> {
        Ok(self.data.get(from).cloned())
    }
}

impl Writer for TestStore {
    fn write(&mut self, to: &Path, data: Record) -> Result<Path, Error> {
        self.data.insert(to.clone(), data);
        Ok(to.clone())
    }
}

fn read_value<S: Reader>(store: &mut S, path: &str) -> Value {
    store.read(&p(path)).unwrap().unwrap().into_value(&NoCodec).unwrap()
}

#[test]
fn basic_routing() {
    let mut overlay = OverlayStore::new();
    let mut users_store = TestStore::new("users");
    users_store.write(&p("alice"), Record::parsed(Value::from("Alice"))).unwrap();
    let mut config_store = TestStore::new("config");
    config_store.write(&p("theme"), Record::parsed(Value::from("dark"))).unwrap();
    overlay.mount(p("users"), users_store);
    overlay.mount(p("config"), config_store);
    assert_eq!(read_value(&mut overlay, "users/alice"), Value::from("Alice"));
    assert_eq!(read_value(&mut overlay, "config/theme"), Value::from("dark"));
}

#[test]
fn mount_replaces_existing() {
    let mut overlay = OverlayStore::new();
    let mut store1 = TestStore::new("first");
    store1.write(&p("key"), Record::parsed(Value::from("first"))).unwrap();
    let mut store2 = TestStore::new("second");
    store2.write(&p("key"), Record::parsed(Value::from("second"))).unwrap();
    let old = overlay.mount(p("data"), store1);
    assert!(old.is_none());
    let old = overlay.mount(p("data"), store2);
    assert!(old.is_some());
    assert_eq!(read_value(&mut overlay, "data/key"), Value::from("second"));
    assert_eq!(overlay.store_count(), 1);
}

#[test]
fn root_mount() {
    let mut overlay = OverlayStore::new();
    let mut store = TestStore::new("root");
    store.write(&p("test"), Record::parsed(Value::from("value"))).unwrap();
    overlay.mount(p(""), store);
    assert_eq!(read_value(&mut overlay, "test"), Value::from("value"));
}

#[test]
fn no_route_error() {
    let mut overlay: OverlayStore<TestStore> = OverlayStore::new();
    let result = overlay.read(&p("nonexistent"));
    assert!(result.is_err());
}

#[test]
fn write_through_overlay() {
    let mut overlay = OverlayStore::new();
    overlay.mount(p("data"), TestStore::new("data"));
    let result = overlay.write(&p("data/key"), Record::parsed(Value::from("value")));
    assert!(result.is_ok());
    assert_eq!(read_value(&mut overlay, "data/key"), Value::from("value"));
}

#[test]
fn only_readable_rejects_writes() {
    let mut overlay = OverlayStore::new();
    overlay.mount(p("readonly"), OnlyReadable::new(TestStore::new("readonly")));
    let result = overlay.write(&p("readonly/key"), Record::parsed(Value::from("value")));
    assert!(result.is_err());
}

#[test]
fn only_writable_returns_none_on_read() {
    let mut overlay = OverlayStore::new();
    overlay.mount(p("writeonly"), OnlyWritable::new(TestStore::new("writeonly")));
    let result = overlay.read(&p("writeonly/key")).unwrap();
    assert!(result.is_none());
}

#[test]
fn only_readable_inner() {
    let store = TestStore::new("test");
    let readable = OnlyReadable::new(store);
    let _inner = readable.inner();
}

#[test]
fn only_writable_inner() {
    let store = TestStore::new("test");
    let writable = OnlyWritable::new(store);
    let _inner = writable.inner();
}

#[test]
fn sub_store_view_read() {
    let mut store = TestStore::new("test");
    store.write(&p("prefix/key"), Record::parsed(Value::from("value"))).unwrap();
    let mut view = SubStoreView::new(store, p("prefix"));
    assert_eq!(read_value(&mut view, "key"), Value::from("value"));
}

#[test]
fn sub_store_view_write() {
    let store = TestStore::new("test");
    let mut view = SubStoreView::new(store, p("prefix"));
    view.write(&p("key"), Record::parsed(Value::from("data"))).unwrap();
    assert_eq!(read_value(&mut view, "key"), Value::from("data"));
}

#[test]
fn store_count() {
    let mut overlay = OverlayStore::new();
    assert_eq!(overlay.store_count(), 0);
    overlay.mount(p("a"), TestStore::new("a"));
    assert_eq!(overlay.store_count(), 1);
    overlay.mount(p("b"), TestStore::new("b"));
    assert_eq!(overlay.store_count(), 2);
}

#[test]
fn overlay_store_default() {
    let overlay: OverlayStore<TestStore> = OverlayStore::default();
    assert_eq!(overlay.store_count(), 0);
}

#[test]
fn write_no_route_error() {
    let mut overlay: OverlayStore<TestStore> = OverlayStore::new();
    let result = overlay.write(&p("nonexistent"), Record::parsed(Value::Null));
    assert!(result.is_err());
    assert!(result.unwrap_err().to_string().contains("no route"));
}

#[test]
fn only_writable_write() {
    let store = TestStore::new("test");
    let mut writable = OnlyWritable::new(store);
    let result = writable.write(&p("key"), Record::parsed(Value::from("data")));
    assert!(result.is_ok());
}

#[test]
fn only_readable_read() {
    let mut store = TestStore::new("test");
    store.write(&p("key"), Record::parsed(Value::from("data"))).unwrap();
    let mut readable = OnlyReadable::new(store);
    assert_eq!(read_value(&mut readable, "key"), Value::from("data"));
}

#[test]
fn only_readable_error_message() {
    let store = TestStore::new("test");
    let mut readable = OnlyReadable::new(store);
    let result = readable.write(&p("test/path"), Record::parsed(Value::Null));
    assert!(result.is_err());
    let err = result.unwrap_err();
    assert!(err.to_string().contains("read-only"));
    assert!(err.to_string().contains("test/path"));
}

#[test]
fn write_returns_full_path() {
    let mut overlay = OverlayStore::new();
    overlay.mount(p("prefix"), TestStore::new("test"));
    let result = overlay.write(&p("prefix/key"), Record::parsed(Value::from("data")));
    assert_eq!(result.unwrap(), p("prefix/key"));
}

#[test]
fn nested_prefix() {
    let mut overlay = OverlayStore::new();
    let mut store = TestStore::new("nested");
    store.write(&p("deep/key"), Record::parsed(Value::from("value"))).unwrap();
    overlay.mount(p("a/b"), store);
    assert_eq!(read_value(&mut overlay, "a/b/deep/key"), Value::from("value"));
}

#[test]
fn unmount_existing() {
    let mut overlay = OverlayStore::new();
    overlay.mount(p("a"), TestStore::new("a"));
    overlay.mount(p("b"), TestStore::new("b"));
    assert_eq!(overlay.store_count(), 2);
    let removed = overlay.unmount(&p("a"));
    assert!(removed.is_some());
    assert_eq!(overlay.store_count(), 1);
    let result = overlay.read(&p("a/key"));
    assert!(result.is_err());
    overlay.write(&p("b/key"), Record::parsed(Value::from("test"))).unwrap();
    let result = overlay.read(&p("b/key"));
    assert!(result.unwrap().is_some());
}

#[test]
fn unmount_nonexistent() {
    let mut overlay = OverlayStore::new();
    overlay.mount(p("a"), TestStore::new("a"));
    let removed = overlay.unmount(&p("nonexistent"));
    assert!(removed.is_none());
    assert_eq!(overlay.store_count(), 1);
}

#[test]
fn unmount_keeps_children() {
    let mut overlay = OverlayStore::new();
    overlay.mount(p("data"), TestStore::new("data"));
    overlay.mount(p("data/nested"), TestStore::new("nested"));
    assert_eq!(overlay.store_count(), 2);
    overlay.write(&p("data/nested/key"), Record::parsed(Value::from("nested_value"))).unwrap();
    overlay.unmount(&p("data"));
    assert_eq!(overlay.store_count(), 1);
    let result = overlay.read(&p("data/nested/key")).unwrap();
    assert!(result.is_some());
}

#[test]
fn unmount_subtree_removes_all() {
    let mut overlay = OverlayStore::new();
    overlay.mount(p("data"), TestStore::new("data"));
    overlay.mount(p("data/cache"), TestStore::new("cache"));
    assert_eq!(overlay.store_count(), 2);
    let subtree = overlay.unmount_subtree(&p("data")).unwrap();
    assert_eq!(subtree.store_count(), 2);
    assert!(overlay.is_empty());
}

#[test]
fn deeper_mount_wins() {
    let mut overlay = OverlayStore::new();
    overlay.mount(p("data"), TestStore::new("data"));
    overlay.mount(p("data/special"), TestStore::new("special"));
    overlay.write(&p("data/special/key"), Record::parsed(Value::from("special"))).unwrap();
    overlay.write(&p("data/other/key"), Record::parsed(Value::from("other"))).unwrap();
    overlay.unmount(&p("data/special"));
    let result = overlay.read(&p("data/other/key")).unwrap();
    assert!(result.is_some());
    let result = overlay.read(&p("data/special/key")).unwrap();
    assert!(result.is_none());
}

#[test]
fn has_route() {
    let mut overlay = OverlayStore::new();
    overlay.mount(p("data"), TestStore::new("data"));
    assert!(overlay.has_route(&p("data")));
    assert!(overlay.has_route(&p("data/anything")));
    assert!(!overlay.has_route(&p("other")));
}

#[test]
fn is_empty() {
    let mut overlay = OverlayStore::new();
    assert!(overlay.is_empty());
    overlay.mount(p("a"), TestStore::new("a"));
    assert!(!overlay.is_empty());
    overlay.unmount(&p("a"));
    assert!(overlay.is_empty());
}

#[test]
fn mounts_iteration() {
    let mut overlay = OverlayStore::new();
    overlay.mount(p("a"), TestStore::new("a"));
    overlay.mount(p("b"), TestStore::new("b"));
    overlay.mount(p("a/c"), TestStore::new("c"));
    let mounts: Vec<Path> = overlay.mounts().into_iter().map(|(q, _)| q).collect();
    assert_eq!(mounts.len(), 3);
}

#[test]
fn mount_boxed() {
    let mut overlay: OverlayStore<Box<dyn Store>> = OverlayStore::new();
    let store: Box<dyn Store> = Box::new(TestStore::new("boxed"));
    overlay.mount_boxed(p("boxed"), store);
    overlay.write(&p("boxed/key"), Record::parsed(Value::from("value"))).unwrap();
    let result = overlay.read(&p("boxed/key")).unwrap();
    assert!(result.is_some());
}

#[test]
fn deprecated_add_layer() {
    let mut overlay = OverlayStore::new();
    overlay.add_layer(p("data"), TestStore::new("data"));
    overlay.write(&p("data/key"), Record::parsed(Value::from("value"))).unwrap();
    let result = overlay.read(&p("data/key")).unwrap();
    assert!(result.is_some());
}

#[test]
fn deprecated_layer_count() {
    let mut overlay = OverlayStore::new();
    assert_eq!(overlay.layer_count(), 0);
    overlay.mount(p("a"), TestStore::new("a"));
    assert_eq!(overlay.layer_count(), 1);
}

#[test]
fn deprecated_remove_layer() {
    let mut overlay = OverlayStore::new();
    overlay.mount(p("a"), TestStore::new("a"));
    let removed = overlay.remove_layer(&p("a"));
    assert!(removed.is_some());
    assert!(overlay.is_empty());
}

#[test]
fn fallthrough_routing() {
    let mut overlay = OverlayStore::new();
    overlay.mount(p("data"), TestStore::new("data"));
    overlay.write(&p("data/deep/nested/key"), Record::parsed(Value::from("value"))).unwrap();
    let result = overlay.read(&p("data/deep/nested/key")).unwrap();
    assert!(result.is_some());
}

#[test]
fn empty_path_mounts_at_root() {
    let mut overlay = OverlayStore::new();
    overlay.mount(p(""), TestStore::new("root"));
    overlay.write(&p("any/path"), Record::parsed(Value::from("v"))).unwrap();
    let result = overlay.read(&p("any/path")).unwrap();
    assert!(result.is_some());
}

#[test]
fn redirect_basic() {
    let mut overlay = OverlayStore::new();
    let mut store = TestStore::new("data");
    store.write(&p("key"), Record::parsed(Value::from("value"))).unwrap();
    overlay.mount(p("data"), store);
    overlay.add_redirect(p("alias"), p("data"), RedirectMode::ReadWrite, None);
    assert_eq!(read_value(&mut overlay, "alias/key"), Value::from("value"));
}

#[test]
fn redirect_write() {
    let mut overlay = OverlayStore::new();
    overlay.mount(p("data"), TestStore::new("data"));
    overlay.add_redirect(p("alias"), p("data"), RedirectMode::ReadWrite, None);
    overlay.write(&p("alias/key"), Record::parsed(Value::from("written"))).unwrap();
    assert_eq!(read_value(&mut overlay, "data/key"), Value::from("written"));
}

#[test]
fn redirect_read_only() {
    let mut overlay = OverlayStore::new();
    let mut store = TestStore::new("data");
    store.write(&p("key"), Record::parsed(Value::from("value"))).unwrap();
    overlay.mount(p("data"), store);
    overlay.add_redirect(p("readonly"), p("data"), RedirectMode::ReadOnly, None);
    let result = overlay.read(&p("readonly/key")).unwrap();
    assert!(result.is_some());
    let result = overlay.write(&p("readonly/key"), Record::parsed(Value::Null));
    assert!(result.is_err());
}

#[test]
fn redirect_write_only() {
    let mut overlay = OverlayStore::new();
    overlay.mount(p("data"), TestStore::new("data"));
    overlay.add_redirect(p("writeonly"), p("data"), RedirectMode::WriteOnly, None);
    overlay.write(&p("writeonly/key"), Record::parsed(Value::from("value"))).unwrap();
    let result = overlay.read(&p("writeonly/key"));
    assert!(result.is_err());
    let result = overlay.read(&p("data/key")).unwrap();
    assert!(result.is_some());
}

#[test]
fn redirect_cycle_detection() {
    let mut overlay: OverlayStore<TestStore> = OverlayStore::new();
    overlay.add_redirect(p("a"), p("b"), RedirectMode::ReadWrite, None);
    overlay.add_redirect(p("b"), p("a"), RedirectMode::ReadWrite, None);
    let result = overlay.read(&p("a/key"));
    assert!(result.is_err());
    assert!(result.unwrap_err().to_string().contains("cycle"));
}

#[test]
fn redirect_chain() {
    let mut overlay = OverlayStore::new();
    let mut store = TestStore::new("data");
    store.write(&p("key"), Record::parsed(Value::from("chained"))).unwrap();
    overlay.mount(p("data"), store);
    overlay.add_redirect(p("b"), p("data"), RedirectMode::ReadWrite, None);
    overlay.add_redirect(p("a"), p("b"), RedirectMode::ReadWrite, None);
    assert_eq!(read_value(&mut overlay, "a/key"), Value::from("chained"));
}

#[test]
fn redirect_remove_for_mount() {
    let mut overlay = OverlayStore::new();
    overlay.mount(p("data"), TestStore::new("data"));
    overlay.add_redirect(p("alias1"), p("data"), RedirectMode::ReadWrite, Some("mymount".to_string()));
    overlay.add_redirect(p("alias2"), p("data"), RedirectMode::ReadWrite, Some("mymount".to_string()));
    overlay.add_redirect(p("other"), p("data"), RedirectMode::ReadWrite, Some("othermount".to_string()));
    assert_eq!(overlay.list_redirects().len(), 3);
    overlay.remove_redirects_for_mount("mymount");
    let redirects = overlay.list_redirects();
    assert_eq!(redirects.len(), 1);
    assert_eq!(redirects[0].0, p("other"));
}

#[test]
fn redirect_list() {
    let mut overlay = OverlayStore::new();
    overlay.mount(p("data"), TestStore::new("data"));
    overlay.add_redirect(p("alias"), p("data"), RedirectMode::ReadOnly, None);
    let redirects = overlay.list_redirects();
    assert_eq!(redirects.len(), 1);
    assert_eq!(redirects[0].0, p("alias"));
    assert_eq!(redirects[0].1, p("data"));
    assert_eq!(redirects[0].2, RedirectMode::ReadOnly);
}

#[test]
fn route_count_vs_store_count() {
    let mut overlay = OverlayStore::new();
    overlay.mount(p("data"), TestStore::new("data"));
    overlay.add_redirect(p("alias"), p("data"), RedirectMode::ReadWrite, None);
    assert_eq!(overlay.route_count(), 2);
    assert_eq!(overlay.store_count(), 1);
}

#[test]
fn self_redirect_is_a_cycle() {
    let mut overlay: OverlayStore<TestStore> = OverlayStore::new();
    overlay.add_redirect(p("loop"), p("loop"), RedirectMode::ReadWrite, None);
    let err = overlay.write(&p("loop/x"), Record::parsed(Value::Null)).unwrap_err();
    assert_eq!(err.to_string(), "overlay write failed: redirect cycle detected");
}

#[test]
fn redirect_keeps_the_rest_of_the_path() {
    let mut overlay = OverlayStore::new();
    overlay.mount(p("data"), TestStore::new("data"));
    overlay.add_redirect(p("alias"), p("data/sub"), RedirectMode::ReadWrite, None);
    let written = overlay.write(&p("alias/x/y"), Record::parsed(Value::from(1i64))).unwrap();
    assert_eq!(written, p("data/sub/x/y"));
    assert!(overlay.read(&p("data/sub/x/y")).unwrap().is_some());
}
