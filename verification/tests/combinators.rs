use std::collections::HashMap;

use structfs::combinators::{Cascade, Masked, ReadOnly, Rooted};
use structfs::error::Error;
use structfs::path::Path;
use structfs::path_pattern::PathPattern;
use structfs::record::Record;
use structfs::traits::{Reader, Writer};
use structfs::value::Value;

fn p(s: &str) -> Path {
    Path::parse(s).unwrap()
}

struct MapStore {
    data: HashMap<Path, Record>,
}

impl MapStore {
    fn new() -> Self {
        MapStore { data: HashMap::new() }
    }
}

impl Reader for MapStore {
    fn read(&mut self, from: &Path) -> Result<Option<Record>, Error> {
        Ok(self.data.get(from).cloned())
    }
}

impl Writer for MapStore {
    fn write(&mut self, to: &Path, data: Record) -> Result<Path, Error> {
        self.data.insert(to.clone(), data);
        Ok(to.clone())
    }
}

#[test]
fn read_only_passes_reads_rejects_writes() {
    let mut inner = MapStore::new();
    inner.write(&p("key"), Record::parsed(Value::from("v"))).unwrap();
    let mut ro = ReadOnly::new(inner);
    assert!(ro.read(&p("key")).unwrap().is_some());
    let err = ro.write(&p("key"), Record::parsed(Value::from("w"))).unwrap_err();
    assert!(matches!(err, Error::PermissionDenied { .. }));
    let mut inner = ro.into_inner();
    assert_eq!(inner.read(&p("key")).unwrap().unwrap().as_value(), Some(&Value::from("v")));
}

#[test]
fn cascade_layers_reads_and_writes_to_primary() {
    let mut fallback = MapStore::new();
    fallback.write(&p("base"), Record::parsed(Value::from("default"))).unwrap();
    fallback.write(&p("both"), Record::parsed(Value::from("under"))).unwrap();
    let mut primary = MapStore::new();
    primary.write(&p("both"), Record::parsed(Value::from("over"))).unwrap();
    let mut cascade = Cascade::new(primary, fallback);
    assert_eq!(cascade.read(&p("base")).unwrap().unwrap().as_value(), Some(&Value::from("default")));
    assert_eq!(cascade.read(&p("both")).unwrap().unwrap().as_value(), Some(&Value::from("over")));
    assert!(cascade.read(&p("missing")).unwrap().is_none());
    cascade.write(&p("new"), Record::parsed(Value::from("x"))).unwrap();
    let (mut primary, mut fallback) = cascade.into_inner();
    assert!(primary.read(&p("new")).unwrap().is_some());
    assert!(fallback.read(&p("new")).unwrap().is_none());
}

#[test]
fn masked_redacts_component_wise() {
    let mut inner = MapStore::new();
    inner.write(&p("gate/api_key"), Record::parsed(Value::from("s3cret"))).unwrap();
    inner.write(&p("gate/api_key_other"), Record::parsed(Value::from("visible"))).unwrap();
    inner.write(&p("gate/model"), Record::parsed(Value::from("gpt-oss"))).unwrap();
    let mut masked = Masked::new(inner, vec![PathPattern::prefix(p("gate/api_key"))]);
    assert_eq!(masked.read(&p("gate/api_key")).unwrap().unwrap().as_value(), Some(&Value::from("[masked]")));
    assert_eq!(
        masked.read(&p("gate/api_key_other")).unwrap().unwrap().as_value(),
        Some(&Value::from("visible"))
    );
    assert_eq!(masked.read(&p("gate/model")).unwrap().unwrap().as_value(), Some(&Value::from("gpt-oss")));
    assert!(masked.read(&p("gate/api_key/sub")).unwrap().is_none());
}

#[test]
fn masked_passes_writes_through() {
    let inner = MapStore::new();
    let mut masked = Masked::with_mask(inner, vec![PathPattern::exact(p("secret"))], Value::Null);
    masked.write(&p("secret"), Record::parsed(Value::from("v"))).unwrap();
    assert_eq!(masked.read(&p("secret")).unwrap().unwrap().as_value(), Some(&Value::Null));
    let mut inner = masked.into_inner();
    assert_eq!(inner.read(&p("secret")).unwrap().unwrap().as_value(), Some(&Value::from("v")));
}

#[test]
fn rooted_confines_and_strips() {
    let mut rooted = Rooted::new(p("export/v1"), MapStore::new());
    let result = rooted.write(&p("users/alice"), Record::parsed(Value::from("a"))).unwrap();
    assert_eq!(result, p("users/alice"));
    let mut inner = rooted.into_inner();
    assert!(inner.read(&p("export/v1/users/alice")).unwrap().is_some());
}

#[test]
fn rooted_reads_under_root() {
    let mut inner = MapStore::new();
    inner.write(&p("jail/key"), Record::parsed(Value::from("v"))).unwrap();
    let mut rooted = Rooted::new(p("jail"), inner);
    assert!(rooted.read(&p("key")).unwrap().is_some());
    assert!(rooted.read(&p("jail/key")).unwrap().is_none());
}

/// A store whose write answers with a path outside the requested subtree.
struct EscapingStore;

impl Reader for EscapingStore {
    fn read(&mut self, _from: &Path) -> Result<Option<Record>, Error> {
        Ok(None)
    }
}

impl Writer for EscapingStore {
    fn write(&mut self, _to: &Path, _data: Record) -> Result<Path, Error> {
        Ok(Path::parse("elsewhere/entirely").unwrap())
    }
}

#[test]
fn rooted_escaping_write_result_is_error() {
    let mut rooted = Rooted::new(p("jail"), EscapingStore);
    let err = rooted.write(&p("key"), Record::parsed(Value::Null)).unwrap_err();
    assert!(err.to_string().contains("outside root"));
}

#[test]
fn read_only_message_names_the_path() {
    let mut ro = ReadOnly::new(MapStore::new());
    let err = ro.write(&p("a/b"), Record::parsed(Value::Null)).unwrap_err();
    assert_eq!(err.to_string(), "permission denied: store is read-only (write to a/b)");
}

#[test]
fn masked_is_masked_matches_patterns() {
    let masked = Masked::new(MapStore::new(), vec![PathPattern::prefix(p("secret"))]);
    assert!(masked.is_masked(&p("secret/x")));
    assert!(!masked.is_masked(&p("secretive")));
}

#[test]
fn exact_matches_only_itself() {
    let pat = PathPattern::exact(p("a/b"));
    assert!(pat.matches(&p("a/b")));
    assert!(!pat.matches(&p("a")));
    assert!(!pat.matches(&p("a/b/c")));
}

#[test]
fn prefix_is_component_wise() {
    let pat = PathPattern::prefix(p("gate/api_key"));
    assert!(pat.matches(&p("gate/api_key")));
    assert!(pat.matches(&p("gate/api_key/inner")));
    assert!(!pat.matches(&p("gate/api_key_other")));
}

#[test]
fn empty_prefix_matches_everything() {
    let pat = PathPattern::prefix(p(""));
    assert!(pat.matches(&p("")));
    assert!(pat.matches(&p("anything/at/all")));
}

#[test]
fn prefix_suffix_middle_may_be_empty() {
    let pat = PathPattern::prefix_suffix(p("accounts"), p("provider"));
    assert!(pat.matches(&p("accounts/provider")));
    assert!(pat.matches(&p("accounts/personal/provider")));
    assert!(pat.matches(&p("accounts/a/b/provider")));
    assert!(!pat.matches(&p("accounts")));
    assert!(!pat.matches(&p("accounts/personal/model")));
    assert!(!pat.matches(&p("other/personal/provider")));
}

#[test]
fn prefix_suffix_component_wise() {
    let pat = PathPattern::prefix_suffix(p("a"), p("key"));
    assert!(!pat.matches(&p("a/x/key_other")));
    assert!(pat.matches(&p("a/x/key")));
}

#[test]
fn explicit_policy_and_serde_preserve_watch_boundaries() {
    let pattern = PathPattern::prefix_suffix_with_min_middle(p("accounts"), p("provider"), 1);
    assert!(!pattern.matches(&p("accounts/provider")));
    assert!(pattern.matches(&p("accounts/alice/provider")));
    assert!(pattern.matches(&p("accounts/a/b/provider")));
    assert!(!pattern.matches(&p("accounts/a/provider_other")));
    let old = PathPattern::prefix_suffix(p("accounts"), p("provider"));
    assert!(old.matches(&p("accounts/provider")));
    assert!(!PathPattern::prefix_suffix_with_min_middle(p(""), p(""), usize::MAX).matches(&p("a")));
    assert!(!PathPattern::prefix_suffix_with_min_middle(p("a"), p("a/b"), 0).matches(&p("a/b")));
    assert!(PathPattern::prefix_suffix_with_min_middle(p(""), p(""), 1).matches(&p("a")));
}
