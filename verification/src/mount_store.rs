//! A store that manages its own mounts through reads and writes.
//!
//! Reading `ctx/mounts` lists the mounts; writing a configuration to
//! `ctx/mounts/<name>` mounts a store at `<name>`; writing null there
//! unmounts it. Every other path is routed by the overlay of mounted
//! stores.

use vstd::prelude::*;

use crate::error::Error;
use crate::format::Format;
use crate::overlay_store::{
    operation_name, redirect_of, resolution, routed_from, same_routes_but_store, OverlayStore, RedirectMode, Resolution, RouteTarget,
};
use crate::path::{path_string, Path};
use crate::record::{Codec, NoCodec, Record};
use crate::strmap::{assoc, keys_sorted, locate};
use crate::text::{push_str, str_eq, to_owned_string};
use crate::traits::{Reader, Store, Writer};
use crate::value::{Model, Value, ValueMap};

verus! {

/// The configuration of a mount point.
#[derive(Debug, Clone, PartialEq)]
pub enum MountConfig {
    /// In-memory store.
    Memory,
    /// Local filesystem store.
    Local { path: String },
    /// HTTP client store for a base URL.
    Http { url: String },
    /// HTTP broker: write a request, read its handle to execute it.
    HttpBroker,
    /// HTTP broker that executes requests in the background.
    AsyncHttpBroker,
    /// Remote StructFS store over HTTP.
    Structfs { url: String },
    /// Help and documentation store.
    Help,
    /// System primitives store.
    Sys,
    /// REPL documentation store.
    Repl,
}

/// The content of a mount configuration.
pub enum ConfigModel {
    Memory,
    Local(Seq<char>),
    Http(Seq<char>),
    HttpBroker,
    AsyncHttpBroker,
    Structfs(Seq<char>),
    Help,
    Sys,
    Repl,
}

impl MountConfig {
    /// The content of this configuration.
    pub open spec fn model(&self) -> ConfigModel {
        match self {
            MountConfig::Memory => ConfigModel::Memory,
            MountConfig::Local { path } => ConfigModel::Local(path@),
            MountConfig::Http { url } => ConfigModel::Http(url@),
            MountConfig::HttpBroker => ConfigModel::HttpBroker,
            MountConfig::AsyncHttpBroker => ConfigModel::AsyncHttpBroker,
            MountConfig::Structfs { url } => ConfigModel::Structfs(url@),
            MountConfig::Help => ConfigModel::Help,
            MountConfig::Sys => ConfigModel::Sys,
            MountConfig::Repl => ConfigModel::Repl,
        }
    }

    /// A copy of this configuration.
    pub fn duplicate(&self) -> (r: MountConfig)
        ensures
            r.model() == self.model(),
    {
        match self {
            MountConfig::Memory => MountConfig::Memory,
            MountConfig::Local { path } => MountConfig::Local { path: path.clone() },
            MountConfig::Http { url } => MountConfig::Http { url: url.clone() },
            MountConfig::HttpBroker => MountConfig::HttpBroker,
            MountConfig::AsyncHttpBroker => MountConfig::AsyncHttpBroker,
            MountConfig::Structfs { url } => MountConfig::Structfs { url: url.clone() },
            MountConfig::Help => MountConfig::Help,
            MountConfig::Sys => MountConfig::Sys,
            MountConfig::Repl => MountConfig::Repl,
        }
    }
}

/// The type tag of a configuration.
pub open spec fn config_tag(c: ConfigModel) -> Seq<char> {
    match c {
        ConfigModel::Memory => "memory"@,
        ConfigModel::Local(_) => "local"@,
        ConfigModel::Http(_) => "http"@,
        ConfigModel::HttpBroker => "httpbroker"@,
        ConfigModel::AsyncHttpBroker => "asynchttpbroker"@,
        ConfigModel::Structfs(_) => "structfs"@,
        ConfigModel::Help => "help"@,
        ConfigModel::Sys => "sys"@,
        ConfigModel::Repl => "repl"@,
    }
}

/// A configuration as a value: a map with its type tag under `type`, and
/// its path or URL under `path` or `url`.
pub open spec fn config_value(c: ConfigModel) -> Model {
    let base = Map::<Seq<char>, Model>::empty().insert("type"@, Model::Str(config_tag(c)));
    Model::Object(
        match c {
            ConfigModel::Local(p) => base.insert("path"@, Model::Str(p)),
            ConfigModel::Http(u) => base.insert("url"@, Model::Str(u)),
            ConfigModel::Structfs(u) => base.insert("url"@, Model::Str(u)),
            _ => base,
        },
    )
}

/// The string under `key` in `m`, if there is one.
pub open spec fn string_field(m: Map<Seq<char>, Model>, key: Seq<char>) -> Option<Seq<char>> {
    if m.contains_key(key) && m[key] is Str {
        Some(m[key]->Str_0)
    } else {
        None
    }
}

/// The configuration that a value describes, or the message of why it
/// describes none.
pub open spec fn config_of(v: Model) -> Result<ConfigModel, Seq<char>> {
    match v {
        Model::Object(m) => match string_field(m, "type"@) {
            None => Err("Missing 'type' field in mount config"@),
            Some(t) => if t == "memory"@ {
                Ok(ConfigModel::Memory)
            } else if t == "local"@ {
                match string_field(m, "path"@) {
                    Some(p) => Ok(ConfigModel::Local(p)),
                    None => Err("Missing 'path' field for local mount"@),
                }
            } else if t == "http"@ {
                match string_field(m, "url"@) {
                    Some(u) => Ok(ConfigModel::Http(u)),
                    None => Err("Missing 'url' field for http mount"@),
                }
            } else if t == "httpbroker"@ {
                Ok(ConfigModel::HttpBroker)
            } else if t == "asynchttpbroker"@ {
                Ok(ConfigModel::AsyncHttpBroker)
            } else if t == "structfs"@ {
                match string_field(m, "url"@) {
                    Some(u) => Ok(ConfigModel::Structfs(u)),
                    None => Err("Missing 'url' field for structfs mount"@),
                }
            } else if t == "help"@ {
                Ok(ConfigModel::Help)
            } else if t == "sys"@ {
                Ok(ConfigModel::Sys)
            } else if t == "repl"@ {
                Ok(ConfigModel::Repl)
            } else {
                Err("Unknown mount type: "@ + t)
            },
        },
        _ => Err("Mount config must be a map"@),
    }
}

fn text_value(s: &str) -> (r: Value)
    ensures
        r.model() == Model::Str(s@),
{
    Value::String(to_owned_string(s))
}

/// A configuration as a value.
pub fn config_to_value(config: &MountConfig) -> (r: Value)
    ensures
        r.model() == config_value(config.model()),
{
    let mut map = ValueMap::new();
    let tag = match config {
        MountConfig::Memory => "memory",
        MountConfig::Local { .. } => "local",
        MountConfig::Http { .. } => "http",
        MountConfig::HttpBroker => "httpbroker",
        MountConfig::AsyncHttpBroker => "asynchttpbroker",
        MountConfig::Structfs { .. } => "structfs",
        MountConfig::Help => "help",
        MountConfig::Sys => "sys",
        MountConfig::Repl => "repl",
    };
    map.insert(to_owned_string("type"), text_value(tag));
    match config {
        MountConfig::Local { path } => {
            map.insert(to_owned_string("path"), Value::String(path.clone()));
        },
        MountConfig::Http { url } => {
            map.insert(to_owned_string("url"), Value::String(url.clone()));
        },
        MountConfig::Structfs { url } => {
            map.insert(to_owned_string("url"), Value::String(url.clone()));
        },
        _ => {},
    }
    let r = Value::Object(map);
    assert(r.model() =~~= config_value(config.model()));
    r
}

fn string_field_of(m: &ValueMap, key: &str) -> (r: Option<String>)
    ensures
        match r {
            Some(s) => string_field(m.model_map(), key@) == Some(s@),
            None => string_field(m.model_map(), key@) is None,
        },
{
    match m.get(key) {
        Some(Value::String(s)) => Some(s.clone()),
        _ => None,
    }
}

fn config_error(message: &str) -> (r: Error)
    ensures
        r matches Error::Decode { format, message: m } && format@ == Format::VALUE@ && m@ == message@,
{
    Error::decode(Format::VALUE, message)
}

/// The configuration a value describes; a decode error in the parsed-value
/// format otherwise.
pub fn value_to_config(value: &Value) -> (r: Result<MountConfig, Error>)
    ensures
        match config_of(value.model()) {
            Ok(c) => r matches Ok(config) && config.model() == c,
            Err(msg) => r matches Err(Error::Decode { format, message }) && format@ == Format::VALUE@ && message@ == msg,
        },
{
    match value {
        Value::Object(map) => {
            let t = match string_field_of(map, "type") {
                Some(t) => t,
                None => {
                    return Err(config_error("Missing 'type' field in mount config"));
                },
            };
            let t = t.as_str();
            if str_eq(t, "memory") {
                Ok(MountConfig::Memory)
            } else if str_eq(t, "local") {
                match string_field_of(map, "path") {
                    Some(path) => Ok(MountConfig::Local { path }),
                    None => Err(config_error("Missing 'path' field for local mount")),
                }
            } else if str_eq(t, "http") {
                match string_field_of(map, "url") {
                    Some(url) => Ok(MountConfig::Http { url }),
                    None => Err(config_error("Missing 'url' field for http mount")),
                }
            } else if str_eq(t, "httpbroker") {
                Ok(MountConfig::HttpBroker)
            } else if str_eq(t, "asynchttpbroker") {
                Ok(MountConfig::AsyncHttpBroker)
            } else if str_eq(t, "structfs") {
                match string_field_of(map, "url") {
                    Some(url) => Ok(MountConfig::Structfs { url }),
                    None => Err(config_error("Missing 'url' field for structfs mount")),
                }
            } else if str_eq(t, "help") {
                Ok(MountConfig::Help)
            } else if str_eq(t, "sys") {
                Ok(MountConfig::Sys)
            } else if str_eq(t, "repl") {
                Ok(MountConfig::Repl)
            } else {
                let mut message = to_owned_string("Unknown mount type: ");
                push_str(&mut message, t);
                Err(Error::decode(Format::VALUE, message.as_str()))
            }
        },
        _ => Err(config_error("Mount config must be a map")),
    }
}

/// A configuration read back from its value is the same configuration.
pub proof fn lemma_config_roundtrip(c: ConfigModel)
    ensures
        config_of(config_value(c)) == Ok::<ConfigModel, Seq<char>>(c),
{
    reveal_strlit("type");
    reveal_strlit("path");
    reveal_strlit("url");
    reveal_strlit("memory");
    reveal_strlit("local");
    reveal_strlit("http");
    reveal_strlit("httpbroker");
    reveal_strlit("asynchttpbroker");
    reveal_strlit("structfs");
    reveal_strlit("help");
    reveal_strlit("sys");
    reveal_strlit("repl");
    assert("path"@.len() == 4 && "type"@.len() == 4 && "url"@.len() == 3);
    assert("memory"@.len() == 6 && "local"@.len() == 5 && "http"@.len() == 4 && "httpbroker"@.len() == 10);
    assert("asynchttpbroker"@.len() == 15 && "structfs"@.len() == 8 && "help"@.len() == 4);
    assert("sys"@.len() == 3 && "repl"@.len() == 4);
    assert("help"@[1] != "http"@[1]);
    assert("repl"@[0] != "http"@[0]);
    assert("repl"@[0] != "help"@[0]);
    assert("path"@[0] != "type"@[0]);
    assert("url"@ != "type"@);
    assert("path"@ != "type"@);
    let m = config_value(c)->Object_0;
    assert(string_field(m, "type"@) == Some(config_tag(c)));
    match c {
        ConfigModel::Local(p) => {
            assert(string_field(m, "path"@) == Some(p));
        },
        ConfigModel::Http(u) => {
            assert(string_field(m, "url"@) == Some(u));
        },
        ConfigModel::Structfs(u) => {
            assert(string_field(m, "url"@) == Some(u));
        },
        _ => {},
    }
}

/// A mount point and its configuration.
#[derive(Debug, Clone)]
pub struct MountInfo {
    pub path: String,
    pub config: MountConfig,
}

/// Whether `p` lies at or below `ctx/mounts`.
pub open spec fn is_mounts_path_spec(p: Seq<Seq<char>>) -> bool {
    p.len() >= 2 && p[0] == "ctx"@ && p[1] == "mounts"@
}

/// The mount name that `p` addresses below `ctx/mounts`: the rest of the
/// path, joined with `/`.
pub open spec fn mount_name_spec(p: Seq<Seq<char>>) -> Option<Seq<char>> {
    if p.len() >= 3 && p[0] == "ctx"@ && p[1] == "mounts"@ {
        Some(path_string(p.skip(2)))
    } else {
        None
    }
}

// ---------------------------------------------------------------------
// The mount store
// ---------------------------------------------------------------------

/// Creates stores from mount configurations.
pub trait StoreFactory {
    /// The stores it creates.
    type Store;

    /// Create the store a configuration describes.
    fn create(&self, config: &MountConfig) -> Result<Self::Store, Error>;
}

/// Whether a string parses as a path.
pub open spec fn parses(s: Seq<char>) -> bool {
    crate::path::valid_path(crate::path::split_path(s))
}

/// A mount listing entry as a value: a map with the mount's name under
/// `path` and its configuration under `config`.
pub open spec fn mount_entry_value(name: Seq<char>, c: ConfigModel) -> Model {
    Model::Object(
        Map::<Seq<char>, Model>::empty().insert("path"@, Model::Str(name)).insert("config"@, config_value(c)),
    )
}

/// The message of an unmount of a name that is not mounted.
pub open spec fn no_mount_message(name: Seq<char>) -> Seq<char> {
    "No mount at '"@ + name + "'"@
}

/// The tracked mounts: names with their configurations, sorted by name.
pub struct MountTable {
    entries: Vec<(String, MountConfig)>,
}

impl MountTable {
    #[verifier::type_invariant]
    closed spec fn wf(self) -> bool {
        keys_sorted(self.entries@)
    }

    /// Each tracked mount's name with its configuration.
    pub closed spec fn map(self) -> Map<Seq<char>, ConfigModel> {
        assoc(self.entries@).map_values(|c: MountConfig| c.model())
    }

    /// The tracked mounts as (name, configuration) pairs, by name.
    pub closed spec fn listing(self) -> Seq<(Seq<char>, ConfigModel)> {
        self.entries@.map_values(|e: (String, MountConfig)| (e.0@, e.1.model()))
    }

    /// An empty table.
    pub fn new() -> (r: MountTable)
        ensures
            r.map() == Map::<Seq<char>, ConfigModel>::empty(),
            r.listing().len() == 0,
    {
        let r = MountTable { entries: Vec::new() };
        assert(r.map() =~= Map::<Seq<char>, ConfigModel>::empty());
        r
    }

    /// Track `name` with `config`, replacing what it had.
    pub fn insert(&mut self, name: &str, config: MountConfig)
        ensures
            final(self).map() == old(self).map().insert(name@, config.model()),
    {
        proof {
            use_type_invariant(&*self);
        }
        let ghost s = self.entries@;
        let mut ms: Vec<(String, MountConfig)> = Vec::new();
        std::mem::swap(&mut ms, &mut self.entries);
        let (found, i) = locate(&ms, name);
        if found {
            ms.remove(i);
            ms.insert(i, (to_owned_string(name), config));
            proof {
                assert(ms@ =~= s.update(i as int, ms@[i as int]));
                crate::strmap::lemma_assoc_update(s, i as int, ms@[i as int]);
            }
        } else {
            ms.insert(i, (to_owned_string(name), config));
            proof {
                crate::strmap::lemma_assoc_insert(s, i as int, ms@[i as int]);
            }
        }
        self.entries = ms;
        proof {
            assert(self.map() =~= old(self).map().insert(name@, config.model()));
        }
    }

    /// Stop tracking `name`.
    pub fn remove(&mut self, name: &str)
        ensures
            final(self).map() == old(self).map().remove(name@),
    {
        proof {
            use_type_invariant(&*self);
        }
        let ghost s = self.entries@;
        let mut ms: Vec<(String, MountConfig)> = Vec::new();
        std::mem::swap(&mut ms, &mut self.entries);
        let (found, i) = locate(&ms, name);
        if found {
            proof {
                crate::strmap::lemma_assoc_remove(s, i as int);
            }
            ms.remove(i);
        } else {
            proof {
                crate::strmap::lemma_assoc_absent(s, name@, i as int);
                assert(assoc(s).remove(name@) =~= assoc(s));
            }
        }
        self.entries = ms;
        proof {
            assert(self.map() =~= old(self).map().remove(name@));
        }
    }

    /// The configuration tracked under `name`.
    pub fn get(&self, name: &str) -> (r: Option<&MountConfig>)
        ensures
            match r {
                Some(c) => self.map().contains_key(name@) && self.map()[name@] == c.model(),
                None => !self.map().contains_key(name@),
            },
    {
        proof {
            use_type_invariant(self);
        }
        let (found, i) = locate(&self.entries, name);
        if found {
            proof {
                crate::strmap::lemma_assoc_at(self.entries@, i as int);
            }
            Some(&self.entries[i].1)
        } else {
            proof {
                crate::strmap::lemma_assoc_absent(self.entries@, name@, i as int);
            }
            None
        }
    }

    /// The tracked mounts, by name.
    pub fn infos(&self) -> (r: Vec<MountInfo>)
        ensures
            r@.len() == self.listing().len(),
            forall|i: int| 0 <= i < r@.len() ==> (#[trigger] r@[i]).path@ == self.listing()[i].0 && r@[i].config.model()
                == self.listing()[i].1,
            forall|i: int, j: int| 0 <= i < j < r@.len() ==> crate::text::seq_lt(#[trigger] r@[i].path@, #[trigger] r@[j].path@),
            forall|i: int| 0 <= i < r@.len() ==> #[trigger] self.map().contains_key(r@[i].path@) && self.map()[r@[i].path@]
                == r@[i].config.model(),
            forall|k: Seq<char>| #[trigger] self.map().contains_key(k) ==> exists|i: int| 0 <= i < r@.len() && #[trigger] r@[i].path@ == k,
    {
        proof {
            use_type_invariant(self);
        }
        let mut out: Vec<MountInfo> = Vec::new();
        let mut i: usize = 0;
        while i < self.entries.len()
            invariant
                i <= self.entries@.len(),
                keys_sorted(self.entries@),
                out@.len() == i,
                forall|k: int| 0 <= k < i ==> (#[trigger] out@[k]).path@ == self.entries@[k].0@ && out@[k].config.model()
                    == self.entries@[k].1.model(),
            decreases self.entries@.len() - i,
        {
            out.push(MountInfo { path: self.entries[i].0.clone(), config: self.entries[i].1.duplicate() });
            i = i + 1;
        }
        proof {
            assert forall|k: int| 0 <= k < out@.len() implies #[trigger] self.map().contains_key(out@[k].path@) && self.map()[out@[k].path@]
                == out@[k].config.model() by {
                crate::strmap::lemma_assoc_at(self.entries@, k);
            }
            assert forall|k: Seq<char>| #[trigger] self.map().contains_key(k) implies exists|j: int| 0 <= j < out@.len() && #[trigger] out@[j].path@ == k by {
                crate::strmap::lemma_assoc_dom(self.entries@, k);
                let j = choose|j: int| 0 <= j < self.entries@.len() && (#[trigger] self.entries@[j]).0@ == k;
                assert(out@[j].path@ == k);
            }
            assert forall|a: int, b: int| 0 <= a < b < out@.len() implies crate::text::seq_lt(#[trigger] out@[a].path@, #[trigger] out@[b].path@) by {
                assert(out@[a].path@ == self.entries@[a].0@);
                assert(out@[b].path@ == self.entries@[b].0@);
            }
        }
        out
    }
}

/// A store that manages its mounts through reads and writes at
/// `ctx/mounts`.
pub struct MountStore<F: StoreFactory> {
    overlay: OverlayStore<F::Store>,
    mounts: MountTable,
    factory: F,
}

fn parse_or_error(s: &str) -> (r: Result<Path, Error>)
    ensures
        match r {
            Ok(p) => p@ == crate::path::split_path(s@) && parses(s@),
            Err(e) => !parses(s@) && e is Path,
        },
{
    match Path::parse(s) {
        Ok(p) => Ok(p),
        Err(e) => {
            proof {
                crate::path::lemma_first_invalid(crate::path::split_path(s@), 0);
            }
            Err(Error::Path(e))
        },
    }
}

impl<F: StoreFactory> MountStore<F> {
    /// The mount table: each tracked mount's name with its configuration.
    pub closed spec fn table(self) -> Map<Seq<char>, ConfigModel> {
        self.mounts.map()
    }

    /// The tracked mounts as (name, configuration) pairs, by name.
    pub closed spec fn listing(self) -> Seq<(Seq<char>, ConfigModel)> {
        self.mounts.listing()
    }

    /// The overlay's routes.
    pub closed spec fn routes(self) -> Map<Seq<Seq<char>>, crate::overlay_store::RouteTarget<F::Store>> {
        self.overlay.routes()
    }

    /// A store with no mounts that creates stores with `factory`.
    pub fn new(factory: F) -> (r: MountStore<F>)
        ensures
            r.table() == Map::<Seq<char>, ConfigModel>::empty(),
            r.listing().len() == 0,
            r.routes() == Map::<Seq<Seq<char>>, crate::overlay_store::RouteTarget<F::Store>>::empty(),
    {
        MountStore { overlay: OverlayStore::new(), mounts: MountTable::new(), factory }
    }

    /// Whether `path` lies at or below `ctx/mounts`.
    pub fn is_mounts_path(path: &Path) -> (r: bool)
        ensures
            r == is_mounts_path_spec(path@),
    {
        path.len() >= 2 && str_eq(path.component(0), "ctx") && str_eq(path.component(1), "mounts")
    }

    /// The mount name that `path` addresses below `ctx/mounts`.
    pub fn get_mount_name(path: &Path) -> (r: Option<String>)
        ensures
            match r {
                Some(s) => mount_name_spec(path@) == Some(s@),
                None => mount_name_spec(path@) is None,
            },
    {
        if path.len() >= 3 && str_eq(path.component(0), "ctx") && str_eq(path.component(1), "mounts") {
            let rest = path.slice(2, path.len());
            assert(path@.subrange(2, path@.len() as int) =~= path@.skip(2));
            Some(rest.to_string())
        } else {
            None
        }
    }
}

/// The path `ctx/help/<name>` from which a mount's documentation is
/// redirected.
pub open spec fn help_path(name: Seq<char>) -> Seq<Seq<char>> {
    crate::path::split_path("ctx/help"@) + crate::path::split_path(name)
}

/// The path probed for documentation below the mount at `m`.
pub open spec fn docs_path(m: Seq<Seq<char>>) -> Seq<Seq<char>> {
    m + crate::path::split_path("docs"@)
}

/// The route at `q` is still there in `b` as it was in `a`: a store
/// still a store (its contents may have changed), a redirect unchanged;
/// and `b` has no route at `q` where `a` had none.
pub open spec fn route_kept<S>(a: Map<Seq<Seq<char>>, RouteTarget<S>>, b: Map<Seq<Seq<char>>, RouteTarget<S>>, q: Seq<Seq<char>>) -> bool {
    &&& b.contains_key(q) == a.contains_key(q)
    &&& a.contains_key(q) && a[q] is Store ==> b[q] is Store
    &&& a.contains_key(q) && a[q] is Redirect ==> b[q] == a[q]
}

/// `b` is `a` after probing for documentation: every route kept, except
/// that `help` may have become a read-only redirect to `docs` made by the
/// mount `name`.
pub open spec fn probed_routes<S>(
    a: Map<Seq<Seq<char>>, RouteTarget<S>>,
    b: Map<Seq<Seq<char>>, RouteTarget<S>>,
    help: Seq<Seq<char>>,
    docs: Seq<Seq<char>>,
    name: Seq<char>,
) -> bool {
    &&& forall|q: Seq<Seq<char>>| q != help ==> #[trigger] route_kept(a, b, q)
    &&& route_kept(a, b, help) || docs_redirect(b, help, docs, name)
}

/// `b` routes `help` as a read-only redirect to `docs` made by the mount
/// `name`.
pub open spec fn docs_redirect<S>(b: Map<Seq<Seq<char>>, RouteTarget<S>>, help: Seq<Seq<char>>, docs: Seq<Seq<char>>, name: Seq<char>) -> bool {
    &&& b.contains_key(help)
    &&& b[help] matches RouteTarget::Redirect { target, mode, source_mount }
    &&& target@ == docs
    &&& mode == RedirectMode::ReadOnly
    &&& source_mount matches Some(n) && n@ == name
}

/// The documentation redirect never lands on the mount itself.
proof fn lemma_help_path_differs(name: Seq<char>)
    ensures
        help_path(name) != crate::path::split_path(name),
{
    reveal_strlit("ctx/help");
    let h = crate::path::split_path("ctx/help"@);
    let s = "ctx/help"@;
    assert(s.last() == 'p');
    assert(h.len() > 0);
    assert(help_path(name).len() == h.len() + crate::path::split_path(name).len());
}

impl<F: StoreFactory> MountStore<F> where F::Store: Store {
    /// Probe the new mount for documentation at `docs` below it; when the
    /// probe reads something, redirect `ctx/help/<name>` there, read-only.
    fn discover_and_redirect_docs(&mut self, name: &str, mount_path: &Path)
        ensures
            final(self).table() == old(self).table(),
            probed_routes(old(self).routes(), final(self).routes(), help_path(name@), docs_path(mount_path@), name@),
    {
        let ghost before = self.routes();
        let docs = match Path::parse("docs") {
            Ok(p) => p,
            Err(_) => {
                assert forall|q: Seq<Seq<char>>| q != help_path(name@) implies #[trigger] route_kept(before, before, q) by {}
                return;
            },
        };
        let docs_path = mount_path.join(&docs);
        let probe = self.overlay.read(&docs_path);
        let ghost probed = self.routes();
        proof {
            crate::overlay_store::lemma_mounted_is_store(before, docs_path@, false, Seq::empty(), usize::MAX as nat);
            assert forall|q: Seq<Seq<char>>| #[trigger] route_kept(before, probed, q) by {
                match resolution(before, docs_path@, false) {
                    Resolution::Mounted(m, _) => {
                        assert(same_routes_but_store(before, probed, m));
                        assert(probed.contains_key(q) == before.contains_key(q));
                    },
                    _ => {},
                }
            }
        }
        if let Ok(Some(_)) = probe {
            if let Ok(help_suffix) = Path::parse(name) {
                if let Ok(help_root) = Path::parse("ctx/help") {
                    let help = help_root.join(&help_suffix);
                    self.overlay.add_redirect(help, docs_path, RedirectMode::ReadOnly, Some(to_owned_string(name)));
                    proof {
                        assert forall|q: Seq<Seq<char>>| q != help_path(name@) implies #[trigger] route_kept(before, self.routes(), q) by {
                            assert(route_kept(before, probed, q));
                        }
                    }
                    return;
                }
            }
        }
        proof {
            assert forall|q: Seq<Seq<char>>| q != help_path(name@) implies #[trigger] route_kept(before, self.routes(), q) by {
                assert(route_kept(before, probed, q));
            }
            assert(route_kept(before, probed, help_path(name@)));
        }
    }
}

impl<F: StoreFactory> MountStore<F> where F::Store: Store {
    /// Create a store from `config` with the factory and mount it at
    /// `name`, tracking the configuration; documentation found at `docs`
    /// below the new mount is redirected from `ctx/help/<name>`.
    pub fn mount(&mut self, name: &str, config: MountConfig) -> (r: Result<(), Error>)
        ensures
            r is Ok ==> parses(name@) && final(self).table() == old(self).table().insert(name@, config.model()),
            r is Ok ==> final(self).routes().contains_key(crate::path::split_path(name@))
                && final(self).routes()[crate::path::split_path(name@)] is Store,
            r is Ok ==> forall|q: Seq<Seq<char>>| q != crate::path::split_path(name@) && q != help_path(name@)
                ==> #[trigger] route_kept(old(self).routes(), final(self).routes(), q),
            r is Err ==> *final(self) == *old(self),
            !parses(name@) ==> r is Err,
    {
        let created = self.factory.create(&config);
        self.mount_created(name, config, created)
    }

    /// Mount what the factory answered for `config` at `name`: its error
    /// is returned as it is; a created store is mounted at `name` and
    /// `config` tracked, when `name` parses.
    pub fn mount_created(&mut self, name: &str, config: MountConfig, created: Result<F::Store, Error>) -> (r: Result<(), Error>)
        ensures
            created matches Err(e) ==> r == Err::<(), Error>(e),
            created is Ok ==> (r is Ok <==> parses(name@)),
            created is Ok && !parses(name@) ==> (r matches Err(e) && e is Path),
            r is Err ==> *final(self) == *old(self),
            r is Ok ==> final(self).table() == old(self).table().insert(name@, config.model()),
            r is Ok ==> final(self).routes().contains_key(crate::path::split_path(name@))
                && final(self).routes()[crate::path::split_path(name@)] is Store,
            r is Ok ==> forall|q: Seq<Seq<char>>| q != crate::path::split_path(name@) && q != help_path(name@)
                ==> #[trigger] route_kept(old(self).routes(), final(self).routes(), q),
    {
        let store = match created {
            Ok(s) => s,
            Err(e) => {
                return Err(e);
            },
        };
        let mount_path = match parse_or_error(name) {
            Ok(p) => p,
            Err(e) => {
                return Err(e);
            },
        };
        let ghost before = self.routes();
        self.overlay.mount(mount_path.duplicate(), store);
        self.mounts.insert(name, config);
        let ghost mounted = self.routes();
        self.discover_and_redirect_docs(name, &mount_path);
        proof {
            let mp = crate::path::split_path(name@);
            lemma_help_path_differs(name@);
            assert(route_kept(mounted, self.routes(), mp));
            assert forall|q: Seq<Seq<char>>| q != mp && q != help_path(name@) implies #[trigger] route_kept(before, self.routes(), q) by {
                assert(route_kept(mounted, self.routes(), q));
            }
        }
        Ok(())
    }

    /// Mount an already created store at `name`, without tracking a
    /// configuration for it (it is not listed among the mounts).
    pub fn mount_store(&mut self, name: &str, store: F::Store) -> (r: Result<(), Error>)
        ensures
            r is Ok <==> parses(name@),
            final(self).table() == old(self).table(),
            r is Err ==> *final(self) == *old(self),
    {
        let mount_path = match parse_or_error(name) {
            Ok(p) => p,
            Err(e) => {
                return Err(e);
            },
        };
        self.overlay.mount(mount_path.duplicate(), store);
        self.discover_and_redirect_docs(name, &mount_path);
        Ok(())
    }

    /// Unmount the tracked mount `name`, with the redirects it created.
    pub fn unmount(&mut self, name: &str) -> (r: Result<(), Error>)
        ensures
            !old(self).table().contains_key(name@) ==> *final(self) == *old(self) && (r matches Err(e) && e.is_store(
                "mount_store"@,
                "unmount"@,
                no_mount_message(name@),
            )),
            old(self).table().contains_key(name@) && !parses(name@) ==> *final(self) == *old(self) && (r matches Err(
                e,
            ) && e is Path),
            old(self).table().contains_key(name@) && parses(name@) ==> {
                &&& r is Ok
                &&& final(self).table() == old(self).table().remove(name@)
                &&& forall|q: Seq<Seq<char>>| #[trigger] final(self).routes().contains_key(q) == (old(self).routes().contains_key(q)
                    && q != crate::path::split_path(name@) && !redirect_of(old(self).routes()[q], name@))
                &&& forall|q: Seq<Seq<char>>| #[trigger] final(self).routes().contains_key(q) ==> final(self).routes()[q]
                    == old(self).routes()[q]
            },
    {
        if self.mounts.get(name).is_none() {
            let mut message = to_owned_string("No mount at '");
            push_str(&mut message, name);
            push_str(&mut message, "'");
            return Err(Error::store("mount_store", "unmount", message.as_str()));
        }
        let mount_path = match parse_or_error(name) {
            Ok(p) => p,
            Err(e) => {
                return Err(e);
            },
        };
        self.overlay.unmount(&mount_path);
        self.overlay.remove_redirects_for_mount(name);
        self.mounts.remove(name);
        Ok(())
    }

    /// Every redirect of the overlay.
    pub fn list_redirects(&self) -> (r: Vec<(Path, Path, RedirectMode)>)
        ensures
            forall|k: int| 0 <= k < r@.len() ==> self.routes().contains_key((#[trigger] r@[k]).0@)
                && (self.routes()[r@[k].0@] matches RouteTarget::Redirect { target, mode, .. } && target@ == r@[k].1@ && mode == r@[k].2),
            forall|q: Seq<Seq<char>>| #[trigger] self.routes().contains_key(q) && self.routes()[q] is Redirect ==> exists|k: int|
                0 <= k < r@.len() && (#[trigger] r@[k]).0@ == q,
    {
        self.overlay.list_redirects()
    }

    /// The tracked mounts, by name.
    pub fn list_mounts(&self) -> (r: Vec<MountInfo>)
        ensures
            r@.len() == self.listing().len(),
            forall|i: int| 0 <= i < r@.len() ==> (#[trigger] r@[i]).path@ == self.listing()[i].0 && r@[i].config.model()
                == self.listing()[i].1,
            forall|i: int, j: int| 0 <= i < j < r@.len() ==> crate::text::seq_lt(#[trigger] r@[i].path@, #[trigger] r@[j].path@),
            forall|i: int| 0 <= i < r@.len() ==> #[trigger] self.table().contains_key(r@[i].path@) && self.table()[r@[i].path@]
                == r@[i].config.model(),
            forall|k: Seq<char>| #[trigger] self.table().contains_key(k) ==> exists|i: int| 0 <= i < r@.len() && #[trigger] r@[i].path@ == k,
    {
        self.mounts.infos()
    }

    /// The mount listing as a value: an array, by name, of maps with each
    /// mount's name under `path` and configuration under `config`.
    fn mounts_to_value(&self) -> (r: Value)
        ensures
            r.model() is Array,
            r.model()->Array_0.len() == self.listing().len(),
            forall|i: int| 0 <= i < self.listing().len() ==> #[trigger] r.model()->Array_0[i] == mount_entry_value(
                self.listing()[i].0,
                self.listing()[i].1,
            ),
    {
        let infos = self.mounts.infos();
        let mut arr: Vec<Value> = Vec::new();
        let mut i: usize = 0;
        while i < infos.len()
            invariant
                i <= infos@.len(),
                infos@.len() == self.listing().len(),
                forall|k: int| 0 <= k < infos@.len() ==> (#[trigger] infos@[k]).path@ == self.listing()[k].0 && infos@[k].config.model()
                    == self.listing()[k].1,
                arr@.len() == i,
                forall|k: int| 0 <= k < i ==> (#[trigger] arr@[k]).model() == mount_entry_value(self.listing()[k].0, self.listing()[k].1),
            decreases infos@.len() - i,
        {
            let mut map = ValueMap::new();
            map.insert(to_owned_string("path"), Value::String(infos[i].path.clone()));
            map.insert(to_owned_string("config"), config_to_value(&infos[i].config));
            let entry = Value::Object(map);
            assert(entry.model() =~~= mount_entry_value(self.listing()[i as int].0, self.listing()[i as int].1));
            arr.push(entry);
            i = i + 1;
        }
        proof {
            crate::value::lemma_seq_model(arr@);
        }
        Value::Array(arr)
    }
}

impl<F: StoreFactory> Reader for MountStore<F> where F::Store: Store {
    /// A read answers the listing of mounts, a mount's configuration, or
    /// what the overlay routes it to: the routing errors, or the answer of
    /// the store mounted at the longest prefix to the rest of the path.
    open spec fn read_answers(&self, from: Seq<Seq<char>>, r: Result<Option<Record>, Error>) -> bool {
        if is_mounts_path_spec(from) && from.len() == 2 {
            r matches Ok(Some(Record::Parsed(v))) && v.model() is Array && v.model()->Array_0.len() == self.listing().len()
                && forall|i: int| 0 <= i < self.listing().len() ==> #[trigger] v.model()->Array_0[i] == mount_entry_value(
                self.listing()[i].0,
                self.listing()[i].1,
            )
        } else if mount_name_spec(from) is Some {
            let n = mount_name_spec(from)->Some_0;
            if self.table().contains_key(n) {
                r matches Ok(Some(Record::Parsed(v))) && v.model() == config_value(self.table()[n])
            } else {
                r matches Ok(None)
            }
        } else if !is_mounts_path_spec(from) {
            match resolution(self.routes(), from, false) {
                Resolution::Cycle => r matches Err(e) && e.is_store("overlay"@, "read"@, "redirect cycle detected"@),
                Resolution::Unrouted => r matches Err(Error::NoRoute { path }) && path@ == from,
                Resolution::Mounted(m, sfx) => <F::Store as Reader>::read_answers(&self.routes()[m]->Store_0, sfx, r),
            }
        } else {
            true
        }
    }

    fn read(&mut self, from: &Path) -> (r: Result<Option<Record>, Error>)
        ensures
            final(self).table() == old(self).table(),
            is_mounts_path_spec(from@) && from@.len() == 2 ==> *final(self) == *old(self) && (r matches Ok(Some(Record::Parsed(v)))
                && v.model() is Array && v.model()->Array_0.len() == old(self).listing().len() && forall|i: int|
                0 <= i < old(self).listing().len() ==> #[trigger] v.model()->Array_0[i] == mount_entry_value(
                old(self).listing()[i].0,
                old(self).listing()[i].1,
            )),
            mount_name_spec(from@) matches Some(n) ==> *final(self) == *old(self) && if old(self).table().contains_key(n) {
                r matches Ok(Some(Record::Parsed(v))) && v.model() == config_value(old(self).table()[n])
            } else {
                r matches Ok(None)
            },
            !is_mounts_path_spec(from@) ==> match resolution(old(self).routes(), from@, false) {
                Resolution::Cycle => final(self).routes() == old(self).routes() && (r matches Err(e) && e.is_store(
                    "overlay"@,
                    "read"@,
                    "redirect cycle detected"@,
                )),
                Resolution::Unrouted => final(self).routes() == old(self).routes() && (r matches Err(Error::NoRoute { path })
                    && path@ == from@),
                Resolution::Mounted(m, sfx) => same_routes_but_store(old(self).routes(), final(self).routes(), m)
                    && <F::Store as Reader>::read_answers(&old(self).routes()[m]->Store_0, sfx, r),
            },
    {
        let ghost start = *self;
        if Self::is_mounts_path(from) {
            if from.len() == 2 {
                let value = self.mounts_to_value();
                let r = Ok(Some(Record::Parsed(value)));
                assert(<MountStore<F> as Reader>::read_answers(&start, from@, r));
                return r;
            } else if let Some(name) = Self::get_mount_name(from) {
                return match self.mounts.get(name.as_str()) {
                    Some(config) => Ok(Some(Record::Parsed(config_to_value(config)))),
                    None => Ok(None),
                };
            }
        }
        let r = self.overlay.read(from);
        assert(<MountStore<F> as Reader>::read_answers(&start, from@, r));
        r
    }
}

impl<F: StoreFactory> Writer for MountStore<F> where F::Store: Store {
    /// A write at the mounts path is refused; at a mount's name it mounts
    /// or unmounts as the value says; elsewhere it answers what the overlay
    /// routes it to: the routing errors, or the mounted store's answer with
    /// the mount point put back in front of its result path.
    open spec fn write_answers(&self, to: Seq<Seq<char>>, data: Record, r: Result<Path, Error>) -> bool {
        if is_mounts_path_spec(to) && to.len() == 2 {
            r matches Err(e) && e.is_store("mount_store"@, "write"@, "Cannot write directly to /ctx/mounts"@)
        } else if mount_name_spec(to) is Some {
            let n = mount_name_spec(to)->Some_0;
            match data {
                Record::Raw { format: f, .. } => r matches Err(Error::UnsupportedFormat(g)) && g@ == f@,
                Record::Parsed(v) => if v.model() is Null {
                    &&& r is Ok <==> (self.table().contains_key(n) && parses(n))
                    &&& r matches Ok(p) ==> p@ == to
                } else {
                    match config_of(v.model()) {
                        Err(msg) => r matches Err(Error::Decode { format, message }) && format@ == Format::VALUE@
                            && message@ == msg,
                        Ok(_) => r matches Ok(p) ==> p@ == to,
                    }
                },
            }
        } else if !is_mounts_path_spec(to) {
            match resolution(self.routes(), to, true) {
                Resolution::Cycle => r matches Err(e) && e.is_store("overlay"@, "write"@, "redirect cycle detected"@),
                Resolution::Unrouted => r matches Err(Error::NoRoute { path }) && path@ == to,
                Resolution::Mounted(m, sfx) => exists|g: Result<Path, Error>|
                    <F::Store as Writer>::write_answers(&self.routes()[m]->Store_0, sfx, data, g) && #[trigger] routed_from(
                    m,
                    g,
                    r,
                ),
            }
        } else {
            true
        }
    }

    fn write(&mut self, destination: &Path, data: Record) -> (r: Result<Path, Error>)
        ensures
            is_mounts_path_spec(destination@) && destination@.len() == 2 ==> *final(self) == *old(self) && (r matches Err(e)
                && e.is_store("mount_store"@, "write"@, "Cannot write directly to /ctx/mounts"@)),
            mount_name_spec(destination@) matches Some(n) ==> match data {
                Record::Raw { format: f, .. } => *final(self) == *old(self) && (r matches Err(Error::UnsupportedFormat(g))
                    && g@ == f@),
                Record::Parsed(v) => if v.model() is Null {
                    &&& r is Ok <==> (old(self).table().contains_key(n) && parses(n))
                    &&& r is Ok ==> final(self).table() == old(self).table().remove(n) && (r matches Ok(p) && p@ == destination@)
                    &&& r is Err ==> *final(self) == *old(self)
                } else {
                    match config_of(v.model()) {
                        Err(msg) => *final(self) == *old(self) && (r matches Err(Error::Decode { format, message })
                            && format@ == Format::VALUE@ && message@ == msg),
                        Ok(c) => {
                            &&& r is Ok ==> final(self).table() == old(self).table().insert(n, c) && (r matches Ok(p) && p@
                                == destination@)
                            &&& r is Err ==> *final(self) == *old(self)
                        },
                    }
                },
            },
            !is_mounts_path_spec(destination@) ==> final(self).table() == old(self).table() && match resolution(
                old(self).routes(),
                destination@,
                true,
            ) {
                Resolution::Cycle => final(self).routes() == old(self).routes() && (r matches Err(e) && e.is_store(
                    "overlay"@,
                    "write"@,
                    "redirect cycle detected"@,
                )),
                Resolution::Unrouted => final(self).routes() == old(self).routes() && (r matches Err(Error::NoRoute { path })
                    && path@ == destination@),
                Resolution::Mounted(m, sfx) => same_routes_but_store(old(self).routes(), final(self).routes(), m) && exists|
                    g: Result<Path, Error>,
                | <F::Store as Writer>::write_answers(&old(self).routes()[m]->Store_0, sfx, data, g) && #[trigger] routed_from(
                    m,
                    g,
                    r,
                ),
            },
    {
        if Self::is_mounts_path(destination) {
            if let Some(name) = Self::get_mount_name(destination) {
                let value = match data {
                    Record::Parsed(v) => v,
                    Record::Raw { bytes, format } => {
                        return match NoCodec.decode(&bytes, &format) {
                            Ok(_) => Err(Error::UnsupportedFormat(format)),
                            Err(e) => Err(e),
                        };
                    },
                };
                if value.is_null() {
                    match self.unmount(name.as_str()) {
                        Ok(()) => {},
                        Err(e) => {
                            return Err(e);
                        },
                    }
                } else {
                    let config = match value_to_config(&value) {
                        Ok(c) => c,
                        Err(e) => {
                            return Err(e);
                        },
                    };
                    match self.mount(name.as_str(), config) {
                        Ok(()) => {},
                        Err(e) => {
                            return Err(e);
                        },
                    }
                }
                return Ok(destination.duplicate());
            } else {
                return Err(Error::store("mount_store", "write", "Cannot write directly to /ctx/mounts"));
            }
        }
        self.overlay.write(destination, data)
    }
}

} // verus!
