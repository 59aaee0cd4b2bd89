//! An in-memory store that keeps one value tree.
//!
//! Reading a prefix returns its subtree; writing a deep path creates the
//! intermediate maps; writing null deletes a node with its subtree; writing
//! a map at a parent replaces everything below it.

use vstd::prelude::*;

use crate::error::Error;
use crate::path::{path_string, Path};
use crate::path_order::{lemma_sorted_no_overlap, overlapping, proper_prefix, sorted_order};
use crate::text::{push_str, to_owned_string};
use crate::record::{Codec, NoCodec, Record};
use crate::traits::{Reader, Writer};
use crate::path::path_has_prefix;
use crate::value::{
    apart, get_model, lemma_get_after_set, lemma_maps_along_map_parent, lemma_remove_subtree, lemma_unrelated_apart, map_parent, lemma_set_creates_maps, lemma_set_keeps_others,
    maps_along, names_of, remove_model, set_fault_message, set_model, unrelated, Model, Value,
};

verus! {

/// What reading `p` from a store whose root is `root` gives.
pub open spec fn store_read(root: Option<Model>, p: Seq<Seq<char>>) -> Option<Model> {
    match root {
        Some(m) => get_model(m, p),
        None => None,
    }
}

/// The root that writing below `root` starts from: a missing or null root
/// becomes an empty map.
pub open spec fn write_base(root: Option<Model>) -> Model {
    match root {
        Some(m) => if m is Null {
            Model::Object(Map::empty())
        } else {
            m
        },
        None => Model::Object(Map::empty()),
    }
}

/// The root after writing the value `x` at `to`, and the message of the
/// invalid-path error when the write fails.
///
/// Null deletes (the whole root at the empty path); any other value at the
/// empty path replaces the root; below it the value is set from the base
/// root, which stays even when setting fails.
pub open spec fn write_model(root: Option<Model>, to: Seq<Seq<char>>, x: Model) -> (Option<Model>, Result<(), Seq<char>>) {
    if x is Null {
        if to.len() == 0 {
            (None, Ok(()))
        } else {
            match root {
                None => (None, Ok(())),
                Some(m) => match remove_model(m, to) {
                    Ok((m2, _)) => (Some(m2), Ok(())),
                    Err(c) => (root, Err("invalid array index: "@ + c)),
                },
            }
        }
    } else if to.len() == 0 {
        (Some(x), Ok(()))
    } else {
        match set_model(write_base(root), to, x) {
            Ok(m2) => (Some(m2), Ok(())),
            Err(f) => (Some(write_base(root)), Err(set_fault_message(f))),
        }
    }
}

/// A store holding one value tree in memory.
#[derive(Debug)]
pub struct MemoryStore {
    root: Option<Value>,
}

impl MemoryStore {
    /// The model of the root: `None` for an empty store.
    pub closed spec fn root_model(self) -> Option<Model> {
        match self.root {
            Some(v) => Some(v.model()),
            None => None,
        }
    }

    /// An empty store.
    pub fn new() -> (r: MemoryStore)
        ensures
            r.root_model() is None,
    {
        MemoryStore { root: None }
    }

    /// A store whose root is `root`.
    pub fn with_root(root: Value) -> (r: MemoryStore)
        ensures
            r.root_model() == Some(root.model()),
    {
        MemoryStore { root: Some(root) }
    }

    /// The root value; `None` for an empty store, `Some(Null)` for a null
    /// root.
    pub fn root(&self) -> (r: Option<&Value>)
        ensures
            match r {
                Some(v) => self.root_model() == Some(v.model()),
                None => self.root_model() is None,
            },
    {
        self.root.as_ref()
    }

    /// A store holding a snapshot: each entry's value at its path, with
    /// maps created above them, built without replaying writes, so null
    /// values and empty containers are kept as data (a root entry makes the
    /// root).
    ///
    /// Fails with a conflict when one entry path is a prefix of another
    /// (equal paths included), whatever the order of the entries; the
    /// message names the first such pair in path order.
    pub fn from_entries(entries: Vec<(Path, Value)>) -> (r: Result<MemoryStore, Error>)
        ensures
            match r {
                Ok(s) => !overlapping(entry_paths(entries@)) && holds_snapshot(s.root_model(), entries@),
                Err(e) => overlapping(entry_paths(entries@)) && exists|i: int, j: int|
                    0 <= i < entries@.len() && 0 <= j < entries@.len() && i != j && #[trigger] path_has_prefix(
                        entries@[j].0@,
                        entries@[i].0@,
                    ) && (e matches Error::Conflict { message } && message@ == overlap_message(
                        entries@[i].0@,
                        entries@[j].0@,
                    )),
            },
    {
        let ghost ps = entry_paths(entries@);
        let ghost orig = entries@;
        let order = sorted_order(&entries);
        assert(entries@.map_values(|e: (Path, Value)| e.0@) == ps);
        let n = order.len();
        let mut t: usize = 0;
        while n > 0 && t < n - 1
            invariant
                n == order@.len(),
                t <= n,
                order@.len() == orig.len(),
                entries@ == orig,
                ps == entry_paths(orig),
                crate::path_order::sorts(ps, order@),
                crate::path_order::distinct(order@),
                forall|u: int|
                    0 <= u < t ==> !path_has_prefix(ps[#[trigger] order@[u + 1] as int], ps[order@[u] as int]),
            decreases order@.len() - t,
        {
            let a = &entries[order[t]].0;
            let b = &entries[order[t + 1]].0;
            if b.has_prefix(a) {
                let sa = a.to_string();
                let sb = b.to_string();
                let mut m = to_owned_string("snapshot paths overlap: '");
                push_str(&mut m, sa.as_str());
                push_str(&mut m, "' and '");
                push_str(&mut m, sb.as_str());
                push_str(&mut m, "'");
                let i = order[t];
                let j = order[t + 1];
                proof {
                    assert(order@[t as int] != order@[t + 1]);
                    assert(path_has_prefix(ps[j as int], ps[i as int]));
                }
                return Err(Error::conflict(m.as_str()));
            }
            t = t + 1;
        }
        proof {
            lemma_sorted_no_overlap(ps, order@);
        }
        let mut rest = entries;
        let mut root: Option<Value> = None;
        assert(orig.subrange(orig.len() as int, orig.len() as int) =~= Seq::<(Path, Value)>::empty());
        assert(orig.subrange(0, orig.len() as int) =~= orig);
        while rest.len() > 0
            invariant
                rest@ == orig.subrange(0, rest@.len() as int),
                rest@.len() <= orig.len(),
                ps == entry_paths(orig),
                !overlapping(ps),
                holds_snapshot(option_model(root), orig.subrange(rest@.len() as int, orig.len() as int)),
            decreases rest@.len(),
        {
            let ghost k = rest@.len() - 1;
            let ghost done = orig.subrange(k + 1, orig.len() as int);
            let entry = rest.pop();
            let (path, value) = match entry {
                Some(e) => e,
                None => vstd::pervasive::unreached(),
            };
            proof {
                assert(orig[k] == (path, value));
                assert(orig.subrange(k, orig.len() as int) =~= seq![(path, value)] + done);
                lemma_no_overlap_subrange(orig, k, orig.len() as int);
            }
            root = add_entry(root, path, value, Ghost(done));
            assert(orig.subrange(rest@.len() as int, orig.len() as int) =~= orig.subrange(k, orig.len() as int));
        }
        Ok(MemoryStore { root })
    }
}

impl Default for MemoryStore {
    fn default() -> (r: MemoryStore)
        ensures
            r.root_model() is None,
    {
        MemoryStore::new()
    }
}

impl Reader for MemoryStore {
    /// What the store holds: its root.
    open spec fn read_state(&self) -> Option<Model> {
        self.root_model()
    }

    /// A read answers the value at the path, or that nothing is there.
    open spec fn read_answers(&self, from: Seq<Seq<char>>, r: Result<Option<Record>, Error>) -> bool {
        match store_read(self.root_model(), from) {
            Some(m) => r matches Ok(Some(Record::Parsed(v))) && v.model() == m,
            None => r matches Ok(None),
        }
    }

    fn read(&mut self, from: &Path) -> (r: Result<Option<Record>, Error>)
        ensures
            *final(self) == *old(self),
            match store_read(old(self).root_model(), from@) {
                Some(m) => r matches Ok(Some(Record::Parsed(v))) && v.model() == m,
                None => r matches Ok(None),
            },
    {
        match &self.root {
            Some(root) => match root.get(from) {
                Some(v) => Ok(Some(Record::Parsed(v.deep_clone()))),
                None => Ok(None),
            },
            None => Ok(None),
        }
    }

    fn read_children(&mut self, from: &Path) -> (r: Result<Option<Vec<String>>, Error>)
        ensures
            *final(self) == *old(self),
            match store_read(old(self).root_model(), from@) {
                Some(m) => r matches Ok(Some(names)) && names_of(m, names@),
                None => r matches Ok(None),
            },
    {
        match &self.root {
            Some(root) => match root.get(from) {
                Some(v) => {
                    let r = Ok(Some(v.child_names()));
                    proof {
                        let g = Ok::<Option<Record>, Error>(Some(Record::Parsed(*v)));
                        assert(crate::traits::children_from(g, r));
                        assert(<MemoryStore as Reader>::read_answers(&*self, from@, g));
                    }
                    r
                },
                None => {
                    let r = Ok(None);
                    proof {
                        let g = Ok::<Option<Record>, Error>(None);
                        assert(crate::traits::children_from(g, r));
                    }
                    r
                },
            },
            None => {
                let r = Ok(None);
                proof {
                    let g = Ok::<Option<Record>, Error>(None);
                    assert(crate::traits::children_from(g, r));
                }
                r
            },
        }
    }
}

impl Writer for MemoryStore {
    /// What the store holds: its root.
    open spec fn write_state(&self) -> Option<Model> {
        self.root_model()
    }

    /// A write of a value leaves the root that `write_model` gives; a raw
    /// record leaves it as it was.
    open spec fn write_moves(&self, to: Seq<Seq<char>>, data: Record, r: Result<Path, Error>, after: Option<Model>) -> bool {
        match data {
            Record::Raw { .. } => after == self.root_model(),
            Record::Parsed(v) => after == write_model(self.root_model(), to, v.model()).0,
        }
    }

    /// A write of a raw record is refused; a write of a value answers the
    /// path written, or the invalid-path error when setting fails.
    open spec fn write_answers(&self, to: Seq<Seq<char>>, data: Record, r: Result<Path, Error>) -> bool {
        match data {
            Record::Raw { format: f, .. } => r matches Err(Error::UnsupportedFormat(g)) && g@ == f@,
            Record::Parsed(v) => match write_model(self.root_model(), to, v.model()).1 {
                Ok(()) => r matches Ok(p) && p@ == to,
                Err(m) => r matches Err(Error::InvalidPath { message }) && message@ == m,
            },
        }
    }

    fn write(&mut self, to: &Path, data: Record) -> (r: Result<Path, Error>)
        ensures
            match data {
                Record::Raw { format: f, .. } => *final(self) == *old(self) && (r matches Err(Error::UnsupportedFormat(g)) && g@
                    == f@),
                Record::Parsed(v) => {
                    let w = write_model(old(self).root_model(), to@, v.model());
                    &&& final(self).root_model() == w.0
                    &&& match w.1 {
                        Ok(()) => r matches Ok(p) && p@ == to@,
                        Err(m) => r matches Err(Error::InvalidPath { message }) && message@ == m,
                    }
                },
            },
    {
        let value = match data {
            Record::Parsed(v) => v,
            Record::Raw { bytes, format } => {
                return match NoCodec.decode(&bytes, &format) {
                    Ok(_) => Err(Error::UnsupportedFormat(format)),
                    Err(e) => Err(e),
                };
            },
        };
        if value.is_null() {
            if to.is_empty() {
                self.root = None;
                return Ok(to.duplicate());
            }
            let mut cur: Option<Value> = None;
            std::mem::swap(&mut cur, &mut self.root);
            match cur {
                None => {
                    return Ok(to.duplicate());
                },
                Some(mut v) => {
                    let res = v.remove(to);
                    self.root = Some(v);
                    return match res {
                        Ok(_) => Ok(to.duplicate()),
                        Err(e) => Err(e),
                    };
                },
            }
        }
        if to.is_empty() {
            self.root = Some(value);
            return Ok(to.duplicate());
        }
        let mut cur: Option<Value> = None;
        std::mem::swap(&mut cur, &mut self.root);
        let mut base = match cur {
            Some(v) => if v.is_null() {
                Value::map()
            } else {
                v
            },
            None => Value::map(),
        };
        let res = base.set(to, value);
        self.root = Some(base);
        match res {
            Ok(()) => Ok(to.duplicate()),
            Err(e) => Err(e),
        }
    }
}

// ---------------------------------------------------------------------
// Snapshots
// ---------------------------------------------------------------------

/// The model of an optional root.
pub open spec fn option_model(root: Option<Value>) -> Option<Model> {
    match root {
        Some(v) => Some(v.model()),
        None => None,
    }
}

/// The paths of snapshot entries.
pub open spec fn entry_paths(e: Seq<(Path, Value)>) -> Seq<Seq<Seq<char>>> {
    e.map_values(|x: (Path, Value)| x.0@)
}

/// The conflict message naming two overlapping snapshot paths.
pub open spec fn overlap_message(a: Seq<Seq<char>>, b: Seq<Seq<char>>) -> Seq<char> {
    "snapshot paths overlap: '"@ + path_string(a) + "' and '"@ + path_string(b) + "'"@
}

/// Whether the root `root` holds exactly the snapshot `e`: each entry's
/// value at its path, a map at every proper prefix of an entry path, and
/// nothing at a path unrelated to every entry path; no entries, no root.
pub open spec fn holds_snapshot(root: Option<Model>, e: Seq<(Path, Value)>) -> bool {
    &&& e.len() == 0 ==> root is None
    &&& forall|i: int| 0 <= i < e.len() ==> store_read(root, (#[trigger] e[i]).0@) == Some(e[i].1.model())
    &&& forall|q: Seq<Seq<char>>, i: int|
        #![trigger proper_prefix(q, e[i].0@)]
        0 <= i < e.len() && proper_prefix(q, e[i].0@) ==> (store_read(root, q) matches Some(Model::Object(_)))
    &&& forall|q: Seq<Seq<char>>| #[trigger]
        store_read(root, q) is Some ==> exists|i: int| 0 <= i < e.len() && !unrelated((#[trigger] e[i]).0@, q)
}

/// The root after adding the value `x` at `p` to a snapshot under
/// construction: the root itself for the empty path, otherwise set below
/// the root (an empty map when there is none yet).
pub open spec fn snapshot_add(root: Option<Model>, p: Seq<Seq<char>>, x: Model) -> Option<Model> {
    if p.len() == 0 {
        Some(x)
    } else {
        Some(set_model(snapshot_base(root), p, x)->Ok_0)
    }
}

/// The root that a snapshot entry below the root is set into.
pub open spec fn snapshot_base(root: Option<Model>) -> Model {
    match root {
        Some(m) => m,
        None => Model::Object(Map::empty()),
    }
}

proof fn lemma_no_overlap_subrange(e: Seq<(Path, Value)>, a: int, b: int)
    requires
        0 <= a <= b <= e.len(),
        !overlapping(entry_paths(e)),
    ensures
        !overlapping(entry_paths(e.subrange(a, b))),
{
    let ps = entry_paths(e);
    let sub = entry_paths(e.subrange(a, b));
    if overlapping(sub) {
        let (i, j) = choose|i: int, j: int|
            0 <= i < sub.len() && 0 <= j < sub.len() && i != j && #[trigger] path_has_prefix(sub[j], sub[i]);
        assert(sub[i] == ps[i + a] && sub[j] == ps[j + a]);
        assert(path_has_prefix(ps[j + a], ps[i + a]));
    }
}

proof fn lemma_prefix_trans(a: Seq<Seq<char>>, b: Seq<Seq<char>>, c: Seq<Seq<char>>)
    requires
        path_has_prefix(a, b),
        path_has_prefix(b, c),
    ensures
        path_has_prefix(a, c),
{
    assert(a.subrange(0, c.len() as int) =~= b.subrange(0, c.len() as int));
}

proof fn lemma_get_cons(mm: Map<Seq<char>, Model>, p: Seq<Seq<char>>)
    requires
        p.len() > 0,
        mm.contains_key(p[0]),
    ensures
        get_model(Model::Object(mm), p) == get_model(mm[p[0]], p.drop_first()),
{
}

proof fn lemma_empty_get(q: Seq<Seq<char>>)
    requires
        q.len() > 0,
    ensures
        get_model(Model::Object(Map::empty()), q) is None,
{
}

/// A node whose existing proper-prefix nodes along `p` are all maps has
/// maps along `p`.
proof fn lemma_maps_along_of_prefixes(v: Model, p: Seq<Seq<char>>)
    requires
        v is Object,
        forall|k: int|
            0 < k < p.len() ==> (get_model(v, #[trigger] p.take(k)) is None || get_model(v, p.take(k)) matches Some(
                Model::Object(_),
            )),
    ensures
        maps_along(v, p),
    decreases p.len(),
{
    if p.len() > 1 {
        if let Model::Object(mm) = v {
            if mm.contains_key(p[0]) {
                let child = mm[p[0]];
                let rest = p.drop_first();
                assert(p.take(1).drop_first() =~= Seq::<Seq<char>>::empty());
                assert(get_model(v, p.take(1)) == Some(child)) by {
                    lemma_get_cons(mm, p.take(1));
                }
                assert forall|k: int| 0 < k < rest.len() implies (get_model(child, #[trigger] rest.take(k)) is None
                    || get_model(child, rest.take(k)) matches Some(Model::Object(_))) by {
                    assert(p.take(k + 1).drop_first() =~= rest.take(k));
                    lemma_get_cons(mm, p.take(k + 1));
                    assert(get_model(v, p.take(k + 1)) == get_model(child, rest.take(k)));
                }
                lemma_maps_along_of_prefixes(child, rest);
            }
        }
    }
}

/// Setting through maps below a map succeeds.
proof fn lemma_set_ok_along(v: Model, p: Seq<Seq<char>>, x: Model)
    requires
        v is Object,
        maps_along(v, p),
        p.len() > 0,
    ensures
        set_model(v, p, x) is Ok,
    decreases p.len(),
{
    if p.len() > 1 {
        if let Model::Object(mm) = v {
            let rest = p.drop_first();
            if mm.contains_key(p[0]) {
                assert(maps_along(mm[p[0]], rest));
                assert(mm[p[0]] is Object);
                lemma_set_ok_along(mm[p[0]], rest, x);
            } else {
                assert(!Map::<Seq<char>, Model>::empty().contains_key(rest[0]));
                lemma_set_ok_along(Model::Object(Map::empty()), rest, x);
            }
        }
    }
}

/// Whether `p` is unrelated to the path of every entry of `e`.
pub open spec fn unrelated_to_all(p: Seq<Seq<char>>, e: Seq<(Path, Value)>) -> bool {
    forall|i: int| 0 <= i < e.len() ==> #[trigger] unrelated(p, e[i].0@)
}

proof fn lemma_first_unrelated(path: Path, value: Value, e: Seq<(Path, Value)>)
    requires
        !overlapping(entry_paths(seq![(path, value)] + e)),
    ensures
        unrelated_to_all(path@, e),
        forall|i: int| 0 <= i < e.len() ==> #[trigger] (seq![(path, value)] + e)[i + 1] == e[i],
{
    let e2 = seq![(path, value)] + e;
    let ps2 = entry_paths(e2);
    assert(ps2[0] == path@);
    assert forall|i: int| 0 <= i < e.len() implies #[trigger] unrelated(path@, e[i].0@) by {
        assert(ps2[i + 1] == e[i].0@);
        assert(!path_has_prefix(ps2[i + 1], ps2[0]));
        assert(!path_has_prefix(ps2[0], ps2[i + 1]));
    }
}

/// The base of a non-empty snapshot under construction is a map, and the
/// nodes along a path unrelated to all entries are maps.
proof fn lemma_base_along(root: Option<Model>, e: Seq<(Path, Value)>, p: Seq<Seq<char>>)
    requires
        holds_snapshot(root, e),
        unrelated_to_all(p, e),
        p.len() > 0,
    ensures
        snapshot_base(root) is Object,
        maps_along(snapshot_base(root), p),
{
    let base = snapshot_base(root);
    if root is Some {
        assert(e.len() > 0);
        let e0 = e[0].0@;
        assert(unrelated(p, e0));
        if e0.len() == 0 {
            assert(p.subrange(0, 0) =~= e0);
        }
        assert(e0.subrange(0, 0) =~= Seq::<Seq<char>>::empty());
        assert(proper_prefix(Seq::<Seq<char>>::empty(), e[0].0@));
        assert(store_read(root, Seq::<Seq<char>>::empty()) matches Some(Model::Object(_)));
    }
    assert forall|k: int| 0 < k < p.len() implies (get_model(base, #[trigger] p.take(k)) is None
        || get_model(base, p.take(k)) matches Some(Model::Object(_))) by {
        let q = p.take(k);
        assert(path_has_prefix(p, q)) by {
            assert(p.subrange(0, k) =~= q);
        }
        if get_model(base, q) is Some {
            if root is None {
                lemma_empty_get(q);
            } else {
                assert(store_read(root, q) is Some);
                let i = choose|i: int| 0 <= i < e.len() && !unrelated((#[trigger] e[i]).0@, q);
                let ei = e[i].0@;
                assert(unrelated(p, ei));
                if path_has_prefix(q, ei) {
                    lemma_prefix_trans(p, q, ei);
                } else {
                    assert(path_has_prefix(ei, q));
                    if q.len() == ei.len() {
                        assert(ei.subrange(0, q.len() as int) =~= ei);
                    }
                    assert(proper_prefix(q, ei));
                }
            }
        }
    }
    lemma_maps_along_of_prefixes(base, p);
}

/// After the set, the entries read back.
proof fn lemma_step_reads(root: Option<Model>, e: Seq<(Path, Value)>, path: Path, value: Value)
    requires
        holds_snapshot(root, e),
        unrelated_to_all(path@, e),
        path@.len() > 0,
        snapshot_base(root) is Object,
        maps_along(snapshot_base(root), path@),
        set_model(snapshot_base(root), path@, value.model()) is Ok,
    ensures
        forall|i: int| 0 <= i < (seq![(path, value)] + e).len() ==> store_read(
            snapshot_add(root, path@, value.model()),
            (#[trigger] (seq![(path, value)] + e)[i]).0@,
        ) == Some((seq![(path, value)] + e)[i].1.model()),
{
    let p = path@;
    let x = value.model();
    let base = snapshot_base(root);
    let e2 = seq![(path, value)] + e;
    let new = snapshot_add(root, p, x);
    assert forall|i: int| 0 <= i < e2.len() implies store_read(new, (#[trigger] e2[i]).0@) == Some(
        e2[i].1.model(),
    ) by {
        if i == 0 {
            lemma_get_after_set(base, p, x, Seq::empty());
            assert(p + Seq::<Seq<char>>::empty() =~= p);
        } else {
            let ei = e[i - 1].0@;
            assert(e2[i] == e[i - 1]);
            assert(unrelated(p, ei));
            lemma_unrelated_apart(base, p, ei);
            lemma_set_keeps_others(base, p, x, ei);
            assert(store_read(root, ei) == Some(e[i - 1].1.model()));
        }
    }
}

/// After the set, there are maps above every entry.
proof fn lemma_step_maps(root: Option<Model>, e: Seq<(Path, Value)>, path: Path, value: Value)
    requires
        holds_snapshot(root, e),
        unrelated_to_all(path@, e),
        path@.len() > 0,
        snapshot_base(root) is Object,
        maps_along(snapshot_base(root), path@),
        set_model(snapshot_base(root), path@, value.model()) is Ok,
    ensures
        forall|q: Seq<Seq<char>>, i: int|
            #![trigger proper_prefix(q, (seq![(path, value)] + e)[i].0@)]
            0 <= i < (seq![(path, value)] + e).len() && proper_prefix(q, (seq![(path, value)] + e)[i].0@) ==> (
            store_read(snapshot_add(root, path@, value.model()), q) matches Some(Model::Object(_))),
{
    let p = path@;
    let x = value.model();
    let base = snapshot_base(root);
    let e2 = seq![(path, value)] + e;
    let new = snapshot_add(root, p, x);
    assert forall|q: Seq<Seq<char>>, i: int|
        0 <= i < e2.len() && proper_prefix(q, e2[i].0@) implies (store_read(new, q) matches Some(
            Model::Object(_),
        )) by {
        if i == 0 {
            assert(q =~= p.take(q.len() as int));
            lemma_set_creates_maps(base, p, x, q.len() as int);
        } else {
            let ei = e[i - 1].0@;
            assert(e2[i] == e[i - 1]);
            assert(unrelated(p, ei));
            if unrelated(p, q) {
                lemma_unrelated_apart(base, p, q);
                lemma_set_keeps_others(base, p, x, q);
                assert(proper_prefix(q, e[i - 1].0@));
            } else if path_has_prefix(q, p) {
                lemma_prefix_trans(ei, q, p);
            } else {
                assert(path_has_prefix(p, q));
                if q.len() == p.len() {
                    assert(p.subrange(0, q.len() as int) =~= p);
                    assert(path_has_prefix(ei, p));
                } else {
                    assert(q =~= p.take(q.len() as int));
                    lemma_set_creates_maps(base, p, x, q.len() as int);
                }
            }
        }
    }
}

/// After the set, nothing lies elsewhere.
proof fn lemma_step_nothing_else(root: Option<Model>, e: Seq<(Path, Value)>, path: Path, value: Value)
    requires
        holds_snapshot(root, e),
        unrelated_to_all(path@, e),
        path@.len() > 0,
        snapshot_base(root) is Object,
        maps_along(snapshot_base(root), path@),
        set_model(snapshot_base(root), path@, value.model()) is Ok,
    ensures
        forall|q: Seq<Seq<char>>| #[trigger]
            store_read(snapshot_add(root, path@, value.model()), q) is Some ==> exists|i: int|
                0 <= i < (seq![(path, value)] + e).len() && !unrelated(
                    (#[trigger] (seq![(path, value)] + e)[i]).0@,
                    q,
                ),
{
    let p = path@;
    let x = value.model();
    let base = snapshot_base(root);
    let e2 = seq![(path, value)] + e;
    let new = snapshot_add(root, p, x);
    assert forall|q: Seq<Seq<char>>| #[trigger] store_read(new, q) is Some implies exists|i: int|
        0 <= i < e2.len() && !unrelated((#[trigger] e2[i]).0@, q) by {
        if !unrelated(p, q) {
            assert(e2[0].0@ == p);
        } else {
            lemma_unrelated_apart(base, p, q);
            lemma_set_keeps_others(base, p, x, q);
            if root is None {
                if q.len() == 0 {
                    assert(p.subrange(0, 0) =~= q);
                }
                lemma_empty_get(q);
            } else {
                assert(store_read(root, q) is Some);
                let i = choose|i: int| 0 <= i < e.len() && !unrelated((#[trigger] e[i]).0@, q);
                assert(e2[i + 1] == e[i]);
            }
        }
    }
}

/// Add an entry to a snapshot under construction whose entries so far are
/// `e`: the root for the empty path, otherwise set below the root.
fn add_entry(root: Option<Value>, path: Path, value: Value, Ghost(e): Ghost<Seq<(Path, Value)>>) -> (r:
    Option<Value>)
    requires
        holds_snapshot(option_model(root), e),
        !overlapping(entry_paths(seq![(path, value)] + e)),
    ensures
        holds_snapshot(option_model(r), seq![(path, value)] + e),
{
    proof {
        lemma_snapshot_step(option_model(root), e, path, value);
    }
    let ghost old_root = option_model(root);
    if path.is_empty() {
        Some(value)
    } else {
        let mut base = match root {
            Some(v) => v,
            None => Value::map(),
        };
        assert(base.model() == snapshot_base(old_root));
        let res = base.set(&path, value);
        assert(res is Ok);
        Some(base)
    }
}

/// Adding an entry unrelated to every entry already in a snapshot gives the
/// snapshot with that entry in front.
proof fn lemma_snapshot_step(root: Option<Model>, e: Seq<(Path, Value)>, path: Path, value: Value)
    requires
        holds_snapshot(root, e),
        !overlapping(entry_paths(seq![(path, value)] + e)),
    ensures
        path@.len() > 0 ==> set_model(snapshot_base(root), path@, value.model()) is Ok,
        holds_snapshot(snapshot_add(root, path@, value.model()), seq![(path, value)] + e),
{
    let p = path@;
    let x = value.model();
    let e2 = seq![(path, value)] + e;
    lemma_first_unrelated(path, value, e);
    let new = snapshot_add(root, p, x);
    if p.len() == 0 {
        if e.len() > 0 {
            assert(unrelated(p, e[0].0@));
            assert(e[0].0@.subrange(0, 0) =~= p);
        }
        assert(store_read(new, p) == Some(x));
        assert forall|q: Seq<Seq<char>>| #[trigger] store_read(new, q) is Some implies exists|i: int|
            0 <= i < e2.len() && !unrelated((#[trigger] e2[i]).0@, q) by {
            assert(q.subrange(0, 0) =~= p);
            assert(e2[0].0@ == p);
        }
        assert forall|q: Seq<Seq<char>>, i: int|
            0 <= i < e2.len() && proper_prefix(q, e2[i].0@) implies (store_read(new, q) matches Some(
                Model::Object(_),
            )) by {}
    } else {
        lemma_base_along(root, e, p);
        lemma_set_ok_along(snapshot_base(root), p, x);
        lemma_step_reads(root, e, path, value);
        lemma_step_maps(root, e, path, value);
        lemma_step_nothing_else(root, e, path, value);
    }
}

// ---------------------------------------------------------------------
// The store conventions
// ---------------------------------------------------------------------

/// An empty store reads nothing anywhere.
pub proof fn lemma_empty_store_reads_none(p: Seq<Seq<char>>)
    ensures
        store_read(None, p) is None,
{
}

/// A non-null value written at a path reads back there, and the paths
/// below it read what the value holds: writing a map at a parent replaces
/// the whole subtree, so no stale descendant survives.
pub proof fn lemma_write_then_read(root: Option<Model>, to: Seq<Seq<char>>, x: Model, q: Seq<Seq<char>>)
    requires
        !(x is Null),
        write_model(root, to, x).1 is Ok,
    ensures
        store_read(write_model(root, to, x).0, to) == Some(x),
        store_read(write_model(root, to, x).0, to + q) == get_model(x, q),
{
    if to.len() == 0 {
        assert(to + q =~= q);
    } else {
        lemma_get_after_set(write_base(root), to, x, q);
        lemma_get_after_set(write_base(root), to, x, Seq::empty());
        assert(to + Seq::<Seq<char>>::empty() =~= to);
    }
}

/// Writing a deep path leaves a container at every proper prefix; where
/// nothing was there, or a map, it is a map: the intermediate maps are
/// created. Through maps alone, every proper prefix is a map.
pub proof fn lemma_write_creates_maps(root: Option<Model>, to: Seq<Seq<char>>, x: Model, k: int)
    requires
        !(x is Null),
        write_model(root, to, x).1 is Ok,
        0 <= k < to.len(),
    ensures
        store_read(write_model(root, to, x).0, to.take(k)) matches Some(n) && (n is Object || n is Array),
        (store_read(root, to.take(k)) is None || store_read(root, to.take(k)) matches Some(Model::Object(_))) ==> store_read(
            write_model(root, to, x).0,
            to.take(k),
        ) matches Some(Model::Object(_)),
        maps_along(write_base(root), to) ==> store_read(write_model(root, to, x).0, to.take(k)) matches Some(
            Model::Object(_),
        ),
{
    let base = write_base(root);
    if root is None || root->Some_0 is Null {
        if k > 0 {
            lemma_empty_get(to.take(k));
        } else {
            assert(to.take(0) =~= Seq::<Seq<char>>::empty());
        }
    }
    lemma_set_creates_maps(base, to, x, k);
}

/// Writing leaves every path apart from the written one as it was (where
/// the path runs through maps, every unrelated path is apart:
/// `lemma_unrelated_apart`).
pub proof fn lemma_write_keeps_others(root: Option<Model>, to: Seq<Seq<char>>, x: Model, q: Seq<Seq<char>>)
    requires
        !(x is Null),
        write_model(root, to, x).1 is Ok,
        apart(write_base(root), to, q),
    ensures
        store_read(write_model(root, to, x).0, q) == store_read(root, q),
{
    assert(to.len() > 0 && q.len() > 0);
    lemma_set_keeps_others(write_base(root), to, x, q);
    if root is None || root->Some_0 is Null {
        lemma_empty_get(q);
    }
}

/// Writing null deletes the node with its entire subtree, and, where the
/// node sits in a map, nothing else: a sibling whose name merely starts
/// with the deleted one survives.
pub proof fn lemma_null_write_deletes(root: Option<Model>, to: Seq<Seq<char>>, q: Seq<Seq<char>>)
    requires
        write_model(root, to, Model::Null).1 is Ok,
        to.len() > 0 && root is Some ==> map_parent(root->Some_0, to),
    ensures
        path_has_prefix(q, to) ==> store_read(write_model(root, to, Model::Null).0, q) is None,
        to.len() > 0 && root is Some && apart(root->Some_0, to, q) ==> store_read(write_model(root, to, Model::Null).0, q)
            == store_read(root, q),
{
    if to.len() > 0 {
        if let Some(m) = root {
            lemma_remove_subtree(m, to, q);
        }
    }
}

} // verus!
