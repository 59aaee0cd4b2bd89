//! The value tree: the "struct" in StructFS.

use vstd::prelude::*;

use crate::error::Error;
use crate::path::Path;
use crate::strmap::{keys_sorted, locate};
use crate::text::{parse_usize_str, push_str, to_owned_string, usize_to_string};

verus! {

/// The mathematical content of a value: what a value means, independent
/// of how its containers are laid out in memory.
pub enum Model {
    Null,
    Bool(bool),
    Integer(i64),
    /// A float, by its IEEE 754 bits.
    Float(u64),
    Str(Seq<char>),
    Bytes(Seq<u8>),
    Array(Seq<Model>),
    Object(Map<Seq<char>, Model>),
}

/// A tree-shaped value that can be read from or written to a store.
///
/// It maps to JSON, MessagePack, CBOR and the like without committing to
/// any of them. Maps keep their keys in sorted order. Floats are carried
/// by their IEEE 754 bit pattern.
#[derive(Debug)]
pub enum Value {
    /// Absence of a value. Distinct from "path doesn't exist".
    Null,
    /// Boolean value.
    Bool(bool),
    /// Signed 64-bit integer.
    Integer(i64),
    /// 64-bit floating point, as its bits (`f64::to_bits`).
    Float(u64),
    /// UTF-8 string.
    String(String),
    /// Binary data.
    Bytes(Vec<u8>),
    /// Ordered sequence of values.
    Array(Vec<Value>),
    /// Key-value map with string keys, sorted by key.
    Object(ValueMap),
}

/// A map from strings to values, kept sorted by key.
#[derive(Debug)]
pub struct ValueMap {
    entries: Vec<(String, Value)>,
}

/// The models of a sequence of values.
pub open spec fn seq_model(s: Seq<Value>) -> Seq<Model>
    decreases s,
{
    if s.len() == 0 {
        Seq::empty()
    } else {
        seq_model(s.subrange(0, s.len() - 1)).push(s[s.len() - 1].model())
    }
}

/// The map that a list of key-value entries denotes.
pub open spec fn entries_model(s: Seq<(String, Value)>) -> Map<Seq<char>, Model>
    decreases s,
{
    if s.len() == 0 {
        Map::empty()
    } else {
        entries_model(s.subrange(0, s.len() - 1)).insert(s[s.len() - 1].0@, s[s.len() - 1].1.model())
    }
}

impl Value {
    /// The mathematical content of this value.
    pub open spec fn model(&self) -> Model
        decreases self,
    {
        match self {
            Value::Null => Model::Null,
            Value::Bool(b) => Model::Bool(*b),
            Value::Integer(i) => Model::Integer(*i),
            Value::Float(f) => Model::Float(*f),
            Value::String(s) => Model::Str(s@),
            Value::Bytes(b) => Model::Bytes(b@),
            Value::Array(a) => Model::Array(seq_model(a@)),
            Value::Object(m) => Model::Object(m.model_map()),
        }
    }
}

impl ValueMap {
    /// The map this value map denotes.
    pub closed spec fn model_map(&self) -> Map<Seq<char>, Model>
        decreases self,
    {
        entries_model(self.entries@)
    }
}

} // verus!

verus! {

// ---------------------------------------------------------------------
// Navigation on models
// ---------------------------------------------------------------------

/// The value at `path` below `v`, if the path leads anywhere: map
/// components select keys, array components are decimal indices.
pub open spec fn get_model(v: Model, path: Seq<Seq<char>>) -> Option<Model>
    decreases path.len(),
{
    if path.len() == 0 {
        Some(v)
    } else {
        let c = path[0];
        let rest = path.drop_first();
        match v {
            Model::Object(m) => if m.contains_key(c) {
                get_model(m[c], rest)
            } else {
                None
            },
            Model::Array(a) => match crate::text::parse_usize(c) {
                Some(i) => if i < a.len() {
                    get_model(a[i as int], rest)
                } else {
                    None
                },
                None => None,
            },
            _ => None,
        }
    }
}

/// Why a `set` fails.
pub enum SetFault {
    /// An array was addressed by a component that is not an index.
    BadIndex(Seq<char>),
    /// An array index past the end (or, for the last component, past one
    /// beyond the end).
    OutOfBounds(nat),
    /// The last component addresses a child of a scalar.
    NotContainer(Seq<char>),
    /// An inner component passes through a scalar.
    Through(Seq<char>),
}

/// The value after setting `path` below `v` to `x`, creating missing map
/// entries on the way as empty maps, or why that fails.
pub open spec fn set_model(v: Model, path: Seq<Seq<char>>, x: Model) -> Result<Model, SetFault>
    decreases path.len(),
{
    if path.len() == 0 {
        Ok(x)
    } else {
        let c = path[0];
        let rest = path.drop_first();
        if rest.len() == 0 {
            match v {
                Model::Object(m) => Ok(Model::Object(m.insert(c, x))),
                Model::Array(a) => match crate::text::parse_usize(c) {
                    None => Err(SetFault::BadIndex(c)),
                    Some(i) => if i < a.len() {
                        Ok(Model::Array(a.update(i as int, x)))
                    } else if i == a.len() {
                        Ok(Model::Array(a.push(x)))
                    } else {
                        Err(SetFault::OutOfBounds(i))
                    },
                },
                _ => Err(SetFault::NotContainer(c)),
            }
        } else {
            match v {
                Model::Object(m) => {
                    let child = if m.contains_key(c) {
                        m[c]
                    } else {
                        Model::Object(Map::empty())
                    };
                    match set_model(child, rest, x) {
                        Ok(nc) => Ok(Model::Object(m.insert(c, nc))),
                        Err(e) => Err(e),
                    }
                },
                Model::Array(a) => match crate::text::parse_usize(c) {
                    None => Err(SetFault::BadIndex(c)),
                    Some(i) => if i < a.len() {
                        match set_model(a[i as int], rest, x) {
                            Ok(nc) => Ok(Model::Array(a.update(i as int, nc))),
                            Err(e) => Err(e),
                        }
                    } else {
                        Err(SetFault::OutOfBounds(i))
                    },
                },
                _ => Err(SetFault::Through(c)),
            }
        }
    }
}

/// The message of the error a failed `set` reports.
pub open spec fn set_fault_message(f: SetFault) -> Seq<char> {
    match f {
        SetFault::BadIndex(c) => "invalid array index: "@ + c,
        SetFault::OutOfBounds(i) => "array index "@ + crate::text::decimal(i) + " out of bounds"@,
        SetFault::NotContainer(c) => "cannot set child '"@ + c + "' on non-container value"@,
        SetFault::Through(c) => "cannot navigate through non-container at '"@ + c + "'"@,
    }
}

/// The outcome of removing `path` below `v`: the new value and the model
/// of what was removed, or the last component when it addresses an array
/// but is not an index. A path that does not lead to a parent removes
/// nothing.
pub open spec fn remove_model(v: Model, path: Seq<Seq<char>>) -> Result<(Model, Option<Model>), Seq<char>>
    decreases path.len(),
{
    if path.len() == 0 {
        Ok((Model::Null, Some(v)))
    } else {
        let c = path[0];
        let rest = path.drop_first();
        if rest.len() == 0 {
            match v {
                Model::Object(m) => if m.contains_key(c) {
                    Ok((Model::Object(m.remove(c)), Some(m[c])))
                } else {
                    Ok((v, None))
                },
                Model::Array(a) => match crate::text::parse_usize(c) {
                    None => Err(c),
                    Some(i) => if i < a.len() {
                        Ok((Model::Array(a.remove(i as int)), Some(a[i as int])))
                    } else {
                        Ok((v, None))
                    },
                },
                _ => Ok((v, None)),
            }
        } else {
            match v {
                Model::Object(m) => if m.contains_key(c) {
                    match remove_model(m[c], rest) {
                        Ok((nc, o)) => Ok((Model::Object(m.insert(c, nc)), o)),
                        Err(e) => Err(e),
                    }
                } else {
                    Ok((v, None))
                },
                Model::Array(a) => match crate::text::parse_usize(c) {
                    Some(i) => if i < a.len() {
                        match remove_model(a[i as int], rest) {
                            Ok((nc, o)) => Ok((Model::Array(a.update(i as int, nc)), o)),
                            Err(e) => Err(e),
                        }
                    } else {
                        Ok((v, None))
                    },
                    None => Ok((v, None)),
                },
                _ => Ok((v, None)),
            }
        }
    }
}

// ---------------------------------------------------------------------
// Lemmas on entry lists
// ---------------------------------------------------------------------

/// Whether some entry of `s` has key `k`.
pub open spec fn has_key(s: Seq<(String, Value)>, k: Seq<char>) -> bool {
    exists|i: int| 0 <= i < s.len() && (#[trigger] s[i]).0@ == k
}

pub proof fn lemma_entries_dom(s: Seq<(String, Value)>, k: Seq<char>)
    ensures
        entries_model(s).contains_key(k) <==> has_key(s, k),
    decreases s.len(),
{
    if s.len() > 0 {
        let p = s.subrange(0, s.len() - 1);
        lemma_entries_dom(p, k);
        if has_key(p, k) {
            let i = choose|i: int| 0 <= i < p.len() && (#[trigger] p[i]).0@ == k;
            assert(s[i] == p[i]);
        }
        if has_key(s, k) {
            let i = choose|i: int| 0 <= i < s.len() && (#[trigger] s[i]).0@ == k;
            if i < s.len() - 1 {
                assert(p[i] == s[i]);
            }
        }
    }
}

pub proof fn lemma_entries_at(s: Seq<(String, Value)>, i: int)
    requires
        keys_sorted(s),
        0 <= i < s.len(),
    ensures
        entries_model(s).contains_key(s[i].0@),
        entries_model(s)[s[i].0@] == s[i].1.model(),
    decreases s.len(),
{
    let p = s.subrange(0, s.len() - 1);
    if i < s.len() - 1 {
        assert(keys_sorted(p)) by {
            assert forall|a: int, b: int| 0 <= a < b < p.len() implies crate::text::seq_lt(#[trigger] p[a].0@, #[trigger] p[b].0@) by {
                assert(p[a] == s[a] && p[b] == s[b]);
            }
        }
        lemma_entries_at(p, i);
        assert(p[i] == s[i]);
        assert(crate::text::seq_lt(s[i].0@, s[s.len() - 1].0@));
        crate::text::lemma_seq_lt_irreflexive(s[i].0@);
    }
}

/// Two sorted lists whose keys and value models agree position by position
/// denote the same map.
pub proof fn lemma_entries_model_eq(s: Seq<(String, Value)>, t: Seq<(String, Value)>)
    requires
        s.len() == t.len(),
        forall|i: int| 0 <= i < s.len() ==> (#[trigger] s[i]).0@ == t[i].0@ && s[i].1.model() == t[i].1.model(),
    ensures
        entries_model(s) == entries_model(t),
    decreases s.len(),
{
    if s.len() > 0 {
        let p = s.subrange(0, s.len() - 1);
        let q = t.subrange(0, t.len() - 1);
        assert forall|i: int| 0 <= i < p.len() implies (#[trigger] p[i]).0@ == q[i].0@ && p[i].1.model() == q[i].1.model() by {
            assert(p[i] == s[i] && q[i] == t[i]);
        }
        lemma_entries_model_eq(p, q);
        assert(s[s.len() - 1].0@ == t[t.len() - 1].0@);
    }
}

/// The map a sorted list denotes, described key by key.
pub proof fn lemma_entries_char(s: Seq<(String, Value)>, k: Seq<char>)
    requires
        keys_sorted(s),
    ensures
        entries_model(s).contains_key(k) <==> has_key(s, k),
        has_key(s, k) ==> exists|i: int|
            0 <= i < s.len() && (#[trigger] s[i]).0@ == k && entries_model(s)[k] == s[i].1.model(),
{
    lemma_entries_dom(s, k);
    if has_key(s, k) {
        let i = choose|i: int| 0 <= i < s.len() && (#[trigger] s[i]).0@ == k;
        lemma_entries_at(s, i);
    }
}

pub proof fn lemma_entries_insert(s: Seq<(String, Value)>, i: int, e: (String, Value))
    requires
        keys_sorted(s),
        keys_sorted(s.insert(i, e)),
        0 <= i <= s.len(),
    ensures
        entries_model(s.insert(i, e)) == entries_model(s).insert(e.0@, e.1.model()),
{
    let t = s.insert(i, e);
    assert forall|k: Seq<char>| #![trigger entries_model(t).contains_key(k)]
        entries_model(t).contains_key(k) == entries_model(s).insert(e.0@, e.1.model()).contains_key(k)
        && (entries_model(t).contains_key(k) ==> entries_model(t)[k] == entries_model(s).insert(e.0@, e.1.model())[k]) by {
        lemma_entries_char(t, k);
        lemma_entries_char(s, k);
        if has_key(t, k) {
            let j = choose|j: int| 0 <= j < t.len() && (#[trigger] t[j]).0@ == k && entries_model(t)[k] == t[j].1.model();
            if j == i {
            } else {
                let j2 = if j < i { j } else { j - 1 };
                assert(t[j] == s[j2]);
                assert(has_key(s, k));
                lemma_entries_at(t, i);
                if k == e.0@ {
                    crate::strmap::lemma_sorted_unique(t, i, j);
                }
                let j3 = choose|j3: int| 0 <= j3 < s.len() && (#[trigger] s[j3]).0@ == k && entries_model(s)[k] == s[j3].1.model();
                crate::strmap::lemma_sorted_unique(s, j2, j3);
            }
        } else {
            assert(t[i].0@ == e.0@);
            if has_key(s, k) {
                let j = choose|j: int| 0 <= j < s.len() && (#[trigger] s[j]).0@ == k;
                let j2 = if j < i { j } else { j + 1 };
                assert(t[j2] == s[j]);
            }
        }
    }
    assert(entries_model(t) =~= entries_model(s).insert(e.0@, e.1.model()));
}

pub proof fn lemma_entries_update(s: Seq<(String, Value)>, i: int, e: (String, Value))
    requires
        keys_sorted(s),
        0 <= i < s.len(),
        e.0@ == s[i].0@,
    ensures
        entries_model(s.update(i, e)) == entries_model(s).insert(e.0@, e.1.model()),
{
    let t = s.update(i, e);
    crate::strmap::lemma_update_sorted(s, i, e);
    assert forall|k: Seq<char>| #![trigger entries_model(t).contains_key(k)]
        entries_model(t).contains_key(k) == entries_model(s).insert(e.0@, e.1.model()).contains_key(k)
        && (entries_model(t).contains_key(k) ==> entries_model(t)[k] == entries_model(s).insert(e.0@, e.1.model())[k]) by {
        lemma_entries_char(t, k);
        lemma_entries_char(s, k);
        if has_key(t, k) {
            let j = choose|j: int| 0 <= j < t.len() && (#[trigger] t[j]).0@ == k && entries_model(t)[k] == t[j].1.model();
            if j != i {
                assert(t[j] == s[j]);
                let j3 = choose|j3: int| 0 <= j3 < s.len() && (#[trigger] s[j3]).0@ == k && entries_model(s)[k] == s[j3].1.model();
                crate::strmap::lemma_sorted_unique(s, j, j3);
                if k == e.0@ {
                    crate::strmap::lemma_sorted_unique(t, i, j);
                }
            }
        } else {
            assert(t[i].0@ == e.0@);
            if has_key(s, k) {
                let j = choose|j: int| 0 <= j < s.len() && (#[trigger] s[j]).0@ == k;
                assert(t[j].0@ == s[j].0@);
            }
        }
    }
    assert(entries_model(t) =~= entries_model(s).insert(e.0@, e.1.model()));
}

pub proof fn lemma_entries_remove(s: Seq<(String, Value)>, i: int)
    requires
        keys_sorted(s),
        0 <= i < s.len(),
    ensures
        entries_model(s.remove(i)) == entries_model(s).remove(s[i].0@),
{
    let t = s.remove(i);
    crate::strmap::lemma_remove_sorted(s, i);
    assert forall|k: Seq<char>| #![trigger entries_model(t).contains_key(k)]
        entries_model(t).contains_key(k) == entries_model(s).remove(s[i].0@).contains_key(k)
        && (entries_model(t).contains_key(k) ==> entries_model(t)[k] == entries_model(s).remove(s[i].0@)[k]) by {
        lemma_entries_char(t, k);
        lemma_entries_char(s, k);
        if has_key(t, k) {
            let j = choose|j: int| 0 <= j < t.len() && (#[trigger] t[j]).0@ == k && entries_model(t)[k] == t[j].1.model();
            let j2 = if j < i { j } else { j + 1 };
            assert(t[j] == s[j2]);
            let j3 = choose|j3: int| 0 <= j3 < s.len() && (#[trigger] s[j3]).0@ == k && entries_model(s)[k] == s[j3].1.model();
            crate::strmap::lemma_sorted_unique(s, j2, j3);
            if k == s[i].0@ {
                crate::strmap::lemma_sorted_unique(s, j2, i);
            }
        } else {
            if has_key(s, k) {
                let j = choose|j: int| 0 <= j < s.len() && (#[trigger] s[j]).0@ == k;
                if j != i {
                    let j2 = if j < i { j } else { j - 1 };
                    assert(t[j2] == s[j]);
                }
            }
        }
    }
    assert(entries_model(t) =~= entries_model(s).remove(s[i].0@));
}

pub proof fn lemma_seq_model_push(s: Seq<Value>, v: Value)
    ensures
        seq_model(s.push(v)) == seq_model(s).push(v.model()),
{
    assert(s.push(v).subrange(0, s.len() as int) =~= s);
}

pub proof fn lemma_seq_model(s: Seq<Value>)
    ensures
        seq_model(s).len() == s.len(),
        forall|i: int| 0 <= i < s.len() ==> #[trigger] seq_model(s)[i] == s[i].model(),
    decreases s.len(),
{
    if s.len() > 0 {
        let p = s.subrange(0, s.len() - 1);
        lemma_seq_model(p);
        assert forall|i: int| 0 <= i < s.len() implies #[trigger] seq_model(s)[i] == s[i].model() by {
            if i < s.len() - 1 {
                assert(p[i] == s[i]);
            }
        }
    }
}

/// Sequences of values with the same models element by element have the
/// same model.
pub proof fn lemma_seq_model_eq(s: Seq<Value>, t: Seq<Value>)
    requires
        s.len() == t.len(),
        forall|i: int| 0 <= i < s.len() ==> (#[trigger] s[i]).model() == t[i].model(),
    ensures
        seq_model(s) == seq_model(t),
{
    lemma_seq_model(s);
    lemma_seq_model(t);
    assert(seq_model(s) =~= seq_model(t));
}

} // verus!

verus! {

// ---------------------------------------------------------------------
// Value maps
// ---------------------------------------------------------------------

/// Whether `r` lists the names of the direct children of `m`: a map's
/// keys in increasing order, an array's indices in order, nothing for any
/// other value.
pub open spec fn names_of(m: Model, r: Seq<String>) -> bool {
    match m {
        Model::Object(map) => strings_sorted(r)
            && (forall|i: int| 0 <= i < r.len() ==> map.contains_key(#[trigger] r[i]@))
            && (forall|k: Seq<char>| map.contains_key(k) ==> exists|i: int| 0 <= i < r.len() && #[trigger] r[i]@ == k),
        Model::Array(a) => r.len() == a.len() && forall|i: int| 0 <= i < r.len() ==> #[trigger] r[i]@ == crate::text::decimal(i as nat),
        _ => r.len() == 0,
    }
}

/// Whether a sequence of strings strictly increases.
pub open spec fn strings_sorted(s: Seq<String>) -> bool {
    forall|i: int, j: int| 0 <= i < j < s.len() ==> crate::text::seq_lt(#[trigger] s[i]@, #[trigger] s[j]@)
}

impl ValueMap {
    #[verifier::type_invariant]
    closed spec fn wf(self) -> bool {
        keys_sorted(self.entries@)
    }

    /// An empty map.
    pub fn new() -> (r: ValueMap)
        ensures
            r.model_map() == Map::<Seq<char>, Model>::empty(),
    {
        ValueMap { entries: Vec::new() }
    }

    /// The number of keys.
    pub fn len(&self) -> (r: usize)
        ensures
            r == self.model_map().dom().len(),
            self.model_map().dom().finite(),
    {
        proof {
            use_type_invariant(self);
            lemma_entries_len(self.entries@);
        }
        self.entries.len()
    }

    /// Whether the map has no keys.
    pub fn is_empty(&self) -> (r: bool)
        ensures
            r == (self.model_map().dom().len() == 0),
            self.model_map().dom().finite(),
    {
        self.len() == 0
    }

    /// The value under `key`.
    pub fn get(&self, key: &str) -> (r: Option<&Value>)
        ensures
            match r {
                Some(v) => self.model_map().contains_key(key@) && self.model_map()[key@] == v.model()
                    && self.value_at_key(key@) == Some(*v),
                None => !self.model_map().contains_key(key@),
            },
            self.model_map().dom().finite(),
    {
        proof {
            use_type_invariant(self);
            lemma_entries_len(self.entries@);
        }
        let (found, i) = locate(&self.entries, key);
        if found {
            proof {
                lemma_entries_at(self.entries@, i as int);
                lemma_entry_value_sorted(self.entries@, i as int);
            }
            Some(&self.entries[i].1)
        } else {
            proof {
                lemma_absent(self.entries@, key@, i as int);
                lemma_entries_dom(self.entries@, key@);
            }
            None
        }
    }

    /// Whether `key` is present.
    pub fn contains_key(&self, key: &str) -> (r: bool)
        ensures
            r == self.model_map().contains_key(key@),
    {
        self.get(key).is_some()
    }

    /// Insert `value` under `key`, returning the value it replaces.
    pub fn insert(&mut self, key: String, value: Value) -> (r: Option<Value>)
        ensures
            final(self).model_map() == old(self).model_map().insert(key@, value.model()),
            match r {
                Some(v) => old(self).model_map().contains_key(key@) && old(self).model_map()[key@] == v.model(),
                None => !old(self).model_map().contains_key(key@),
            },
    {
        proof {
            use_type_invariant(&*self);
        }
        let mut es: Vec<(String, Value)> = Vec::new();
        std::mem::swap(&mut es, &mut self.entries);
        let ghost s = es@;
        assert(entries_model(s) == old(self).model_map());
        let (found, i) = locate(&es, key.as_str());
        if found {
            let (k, v) = es.remove(i);
            proof {
                lemma_entries_at(s, i as int);
            }
            es.insert(i, (key, value));
            assert(es@ =~= s.update(i as int, es@[i as int]));
            proof {
                lemma_entries_update(s, i as int, es@[i as int]);
                crate::strmap::lemma_update_sorted(s, i as int, es@[i as int]);
            }
            self.entries = es;
            Some(v)
        } else {
            proof {
                lemma_absent(s, key@, i as int);
                lemma_entries_dom(s, key@);
            }
            let ghost e = (key, value);
            es.insert(i, (key, value));
            proof {
                crate::strmap::lemma_insert_sorted(s, i as int, es@[i as int]);
                lemma_entries_insert(s, i as int, es@[i as int]);
            }
            self.entries = es;
            None
        }
    }

    /// Remove `key`, returning its value.
    pub fn remove(&mut self, key: &str) -> (r: Option<Value>)
        ensures
            final(self).model_map() == old(self).model_map().remove(key@),
            match r {
                Some(v) => old(self).model_map().contains_key(key@) && old(self).model_map()[key@] == v.model(),
                None => !old(self).model_map().contains_key(key@),
            },
    {
        proof {
            use_type_invariant(&*self);
        }
        let mut es: Vec<(String, Value)> = Vec::new();
        std::mem::swap(&mut es, &mut self.entries);
        let ghost s = es@;
        let (found, i) = locate(&es, key);
        if found {
            proof {
                lemma_entries_at(s, i as int);
                lemma_entries_remove(s, i as int);
                crate::strmap::lemma_remove_sorted(s, i as int);
            }
            let (k, v) = es.remove(i);
            self.entries = es;
            Some(v)
        } else {
            proof {
                lemma_absent(s, key@, i as int);
                lemma_entries_dom(s, key@);
                assert(entries_model(s).remove(key@) =~= entries_model(s));
            }
            self.entries = es;
            None
        }
    }

    /// The keys, in sorted order.
    pub fn keys(&self) -> (r: Vec<String>)
        ensures
            strings_sorted(r@),
            forall|i: int| 0 <= i < r@.len() ==> self.model_map().contains_key(#[trigger] r@[i]@),
            forall|k: Seq<char>| self.model_map().contains_key(k) ==> exists|i: int| 0 <= i < r@.len() && #[trigger] r@[i]@ == k,
    {
        proof {
            use_type_invariant(self);
        }
        let mut out: Vec<String> = Vec::new();
        let mut i: usize = 0;
        while i < self.entries.len()
            invariant
                i <= self.entries@.len(),
                keys_sorted(self.entries@),
                out@.len() == i,
                forall|k: int| 0 <= k < i ==> (#[trigger] out@[k])@ == self.entries@[k].0@,
            decreases self.entries@.len() - i,
        {
            out.push(self.entries[i].0.clone());
            i = i + 1;
        }
        proof {
            assert forall|a: int, b: int| 0 <= a < b < out@.len() implies crate::text::seq_lt(#[trigger] out@[a]@, #[trigger] out@[b]@) by {
                assert(out@[a]@ == self.entries@[a].0@ && out@[b]@ == self.entries@[b].0@);
            }
            assert forall|k: int| 0 <= k < out@.len() implies self.model_map().contains_key(#[trigger] out@[k]@) by {
                lemma_entries_at(self.entries@, k);
            }
            assert forall|k: Seq<char>| self.model_map().contains_key(k) implies exists|j: int| 0 <= j < out@.len() && #[trigger] out@[j]@ == k by {
                lemma_entries_dom(self.entries@, k);
                let j = choose|j: int| 0 <= j < self.entries@.len() && (#[trigger] self.entries@[j]).0@ == k;
                assert(out@[j]@ == k);
            }
        }
        out
    }

    /// A copy of the map with the same content.
    pub fn deep_clone(&self) -> (r: ValueMap)
        ensures
            r.model_map() == self.model_map(),
        decreases self,
    {
        proof {
            use_type_invariant(self);
        }
        let mut out: Vec<(String, Value)> = Vec::new();
        let mut i: usize = 0;
        while i < self.entries.len()
            invariant
                i <= self.entries@.len(),
                keys_sorted(self.entries@),
                out@.len() == i,
                forall|k: int| 0 <= k < i ==> (#[trigger] out@[k]).0@ == self.entries@[k].0@ && out@[k].1.model() == self.entries@[k].1.model(),
            decreases self.entries@.len() - i,
        {
            let k = self.entries[i].0.clone();
            let v = self.entries[i].1.deep_clone();
            out.push((k, v));
            i = i + 1;
        }
        proof {
            lemma_entries_model_eq(out@, self.entries@);
            assert forall|a: int, b: int| 0 <= a < b < out@.len() implies crate::text::seq_lt(#[trigger] out@[a].0@, #[trigger] out@[b].0@) by {
                assert(out@[a].0@ == self.entries@[a].0@ && out@[b].0@ == self.entries@[b].0@);
            }
        }
        ValueMap { entries: out }
    }
}

/// A key that sorts strictly between the neighbours `locate` reported is
/// absent.
proof fn lemma_absent(s: Seq<(String, Value)>, k: Seq<char>, i: int)
    requires
        0 <= i <= s.len(),
        forall|j: int| 0 <= j < i ==> crate::text::seq_lt(#[trigger] s[j].0@, k),
        forall|j: int| i <= j < s.len() ==> crate::text::seq_lt(k, #[trigger] s[j].0@),
    ensures
        !has_key(s, k),
{
    if has_key(s, k) {
        let j = choose|j: int| 0 <= j < s.len() && (#[trigger] s[j]).0@ == k;
        crate::text::lemma_seq_lt_irreflexive(k);
        if j < i {
            assert(crate::text::seq_lt(s[j].0@, k));
        } else {
            assert(crate::text::seq_lt(k, s[j].0@));
        }
    }
}

/// A sorted list denotes a finite map with as many keys as entries.
proof fn lemma_entries_len(s: Seq<(String, Value)>)
    requires
        keys_sorted(s),
    ensures
        entries_model(s).dom().finite(),
        entries_model(s).dom().len() == s.len(),
    decreases s.len(),
{
    if s.len() > 0 {
        let p = s.subrange(0, s.len() - 1);
        assert(keys_sorted(p)) by {
            assert forall|a: int, b: int| 0 <= a < b < p.len() implies crate::text::seq_lt(#[trigger] p[a].0@, #[trigger] p[b].0@) by {
                assert(p[a] == s[a] && p[b] == s[b]);
            }
        }
        lemma_entries_len(p);
        let k = s[s.len() - 1].0@;
        lemma_entries_dom(p, k);
        if has_key(p, k) {
            let j = choose|j: int| 0 <= j < p.len() && (#[trigger] p[j]).0@ == k;
            assert(p[j] == s[j]);
            crate::strmap::lemma_sorted_unique(s, j, s.len() - 1);
        }
    }
}

} // verus!

verus! {

// ---------------------------------------------------------------------
// Values
// ---------------------------------------------------------------------

impl Value {
    /// A copy of this value with the same content.
    pub fn deep_clone(&self) -> (r: Value)
        ensures
            r.model() == self.model(),
        decreases self,
    {
        match self {
            Value::Null => Value::Null,
            Value::Bool(b) => Value::Bool(*b),
            Value::Integer(i) => Value::Integer(*i),
            Value::Float(f) => Value::Float(*f),
            Value::String(s) => Value::String(s.clone()),
            Value::Bytes(b) => {
                let c = b.clone();
                assert(c@ =~= b@);
                Value::Bytes(c)
            },
            Value::Array(a) => {
                let mut out: Vec<Value> = Vec::new();
                let mut i: usize = 0;
                while i < a.len()
                    invariant
                        *self == Value::Array(*a),
                        i <= a@.len(),
                        out@.len() == i,
                        forall|k: int| 0 <= k < i ==> (#[trigger] out@[k]).model() == a@[k].model(),
                    decreases a@.len() - i,
                {
                    proof {
                        assert(decreases_to!(*self => self->Array_0));
                        assert(decreases_to!(*a => a[i as int]));
                    }
                    let v = a[i].deep_clone();
                    out.push(v);
                    i = i + 1;
                }
                proof {
                    lemma_seq_model_eq(out@, a@);
                }
                Value::Array(out)
            },
            Value::Object(m) => Value::Object(m.deep_clone()),
        }
    }

    /// The null value.
    pub fn null() -> (r: Value)
        ensures
            r.model() == Model::Null,
    {
        Value::Null
    }

    /// An empty map.
    pub fn map() -> (r: Value)
        ensures
            r.model() == Model::Object(Map::empty()),
    {
        Value::Object(ValueMap::new())
    }

    /// An empty array.
    pub fn array() -> (r: Value)
        ensures
            r.model() == Model::Array(Seq::empty()),
    {
        Value::Array(Vec::new())
    }

    /// Whether this value is null.
    pub fn is_null(&self) -> (r: bool)
        ensures
            r == (self.model() is Null),
    {
        match self {
            Value::Null => true,
            _ => false,
        }
    }

    /// Whether this value is a map.
    pub fn is_map(&self) -> (r: bool)
        ensures
            r == (self.model() is Object),
    {
        match self {
            Value::Object(_) => true,
            _ => false,
        }
    }

    /// Whether this value is an array.
    pub fn is_array(&self) -> (r: bool)
        ensures
            r == (self.model() is Array),
    {
        match self {
            Value::Array(_) => true,
            _ => false,
        }
    }

    /// The names of the direct children: a map's keys in order, an
    /// array's indices, none for any other value.
    pub fn child_names(&self) -> (r: Vec<String>)
        ensures
            names_of(self.model(), r@),
    {
        match self {
            Value::Object(m) => {
                let r = m.keys();
                assert(self.model() == Model::Object(m.model_map()));
                assert forall|k: Seq<char>| m.model_map().contains_key(k) implies exists|i: int| 0 <= i < r@.len() && #[trigger] r@[i]@ == k by {
                }
                r
            },
            Value::Array(a) => {
                proof {
                    lemma_seq_model(a@);
                }
                let mut out: Vec<String> = Vec::new();
                let mut i: usize = 0;
                while i < a.len()
                    invariant
                        i <= a@.len(),
                        out@.len() == i,
                        forall|k: int| 0 <= k < i ==> #[trigger] out@[k]@ == crate::text::decimal(k as nat),
                    decreases a@.len() - i,
                {
                    out.push(usize_to_string(i));
                    i = i + 1;
                }
                out
            },
            _ => Vec::new(),
        }
    }

    /// The value at `path` below this one, if the path leads anywhere.
    pub fn get(&self, path: &Path) -> (r: Option<&Value>)
        ensures
            match r {
                Some(v) => get_model(self.model(), path@) == Some(v.model()),
                None => get_model(self.model(), path@) is None,
            },
    {
        assert(path@.skip(0) =~= path@);
        get_at(self, path, 0)
    }

    /// Set the value at `path`, creating intermediate maps as needed.
    ///
    /// Fails, leaving the value unchanged, when the path runs through a
    /// scalar or addresses an array by something other than a valid index.
    pub fn set(&mut self, path: &Path, value: Value) -> (r: Result<(), Error>)
        ensures
            match set_model(old(self).model(), path@, value.model()) {
                Ok(m) => r is Ok && final(self).model() == m,
                Err(f) => final(self).model() == old(self).model() && (r matches Err(Error::InvalidPath { message })
                    && message@ == set_fault_message(f)),
            },
    {
        if path.is_empty() {
            *self = value;
            return Ok(());
        }
        let mut cur = Value::Null;
        std::mem::swap(&mut cur, self);
        assert(path@.skip(0) =~= path@);
        let (nv, res) = set_owned(cur, path, 0, value);
        *self = nv;
        res
    }

    /// Remove the value at `path`, returning it if it existed.
    ///
    /// Removing the empty path takes the whole value and leaves null. An
    /// array element is removed by shifting the later ones down. The one
    /// error is a last component that addresses an array but is not an
    /// index; the value is then unchanged.
    pub fn remove(&mut self, path: &Path) -> (r: Result<Option<Value>, Error>)
        ensures
            match remove_model(old(self).model(), path@) {
                Ok((nv, removed)) => final(self).model() == nv && (r matches Ok(o) && match o {
                    Some(x) => removed == Some(x.model()),
                    None => removed is None,
                }),
                Err(c) => final(self).model() == old(self).model() && (r matches Err(Error::InvalidPath { message })
                    && message@ == "invalid array index: "@ + c),
            },
    {
        let mut cur = Value::Null;
        std::mem::swap(&mut cur, self);
        if path.is_empty() {
            *self = Value::Null;
            return Ok(Some(cur));
        }
        assert(path@.skip(0) =~= path@);
        let (nv, res) = remove_owned(cur, path, 0);
        *self = nv;
        res
    }
}

fn get_at<'a>(v: &'a Value, path: &Path, i: usize) -> (r: Option<&'a Value>)
    requires
        i <= path@.len(),
    ensures
        match r {
            Some(x) => get_model(v.model(), path@.skip(i as int)) == Some(x.model()),
            None => get_model(v.model(), path@.skip(i as int)) is None,
        },
    decreases path@.len() - i,
{
    if i == path.len() {
        return Some(v);
    }
    let c = path.component(i);
    assert(path@.skip(i as int).drop_first() =~= path@.skip(i + 1));
    assert(path@.skip(i as int)[0] == c@);
    match v {
        Value::Object(m) => match m.get(c) {
            Some(child) => get_at(child, path, i + 1),
            None => None,
        },
        Value::Array(a) => match parse_usize_str(c) {
            Some(idx) => {
                if idx < a.len() {
                    proof {
                        lemma_seq_model(a@);
                    }
                    get_at(&a[idx], path, i + 1)
                } else {
                    proof {
                        lemma_seq_model(a@);
                    }
                    None
                }
            },
            None => None,
        },
        _ => None,
    }
}

fn fault_message(prefix: &str, c: &str, suffix: &str) -> (r: String)
    ensures
        r@ == prefix@ + c@ + suffix@,
{
    let mut out = to_owned_string(prefix);
    push_str(&mut out, c);
    push_str(&mut out, suffix);
    out
}

fn invalid_path(message: String) -> (r: Error)
    ensures
        r matches Error::InvalidPath { message: m } && m@ == message@,
{
    Error::InvalidPath { message }
}

/// Sets `path[i..]` below the owned value `v`; on failure hands `v` back
/// with its content unchanged.
fn set_owned(v: Value, path: &Path, i: usize, x: Value) -> (r: (Value, Result<(), Error>))
    requires
        i < path@.len(),
    ensures
        match set_model(v.model(), path@.skip(i as int), x.model()) {
            Ok(m) => r.1 is Ok && r.0.model() == m,
            Err(f) => r.0.model() == v.model() && (r.1 matches Err(Error::InvalidPath { message })
                && message@ == set_fault_message(f)),
        },
    decreases path@.len() - i,
{
    let ghost p = path@.skip(i as int);
    let c = path.component(i);
    assert(p[0] == c@);
    assert(p.drop_first() =~= path@.skip(i + 1));
    let last = i == path.len() - 1;
    match v {
        Value::Object(mut m) => {
            if last {
                m.insert(to_owned_string(c), x);
                return (Value::Object(m), Ok(()));
            }
            let ghost om = m.model_map();
            let taken = m.remove(c);
            let existed = taken.is_some();
            let child = match taken {
                Some(ch) => ch,
                None => Value::map(),
            };
            let (nc, res) = set_owned(child, path, i + 1, x);
            match res {
                Ok(()) => {
                    m.insert(to_owned_string(c), nc);
                    assert(m.model_map() =~= om.insert(c@, nc.model()));
                    (Value::Object(m), Ok(()))
                },
                Err(e) => {
                    if existed {
                        m.insert(to_owned_string(c), nc);
                        assert(m.model_map() =~= om);
                    } else {
                        assert(m.model_map() =~= om);
                    }
                    (Value::Object(m), Err(e))
                },
            }
        },
        Value::Array(mut a) => {
            match parse_usize_str(c) {
                None => {
                    let message = fault_message("invalid array index: ", c, "");
                    proof {
                        reveal_strlit("");
                    }
                    assert(message@ =~= "invalid array index: "@ + c@);
                    (Value::Array(a), Err(invalid_path(message)))
                },
                Some(idx) => {
                    let ghost oa = a@;
                    proof {
                        lemma_seq_model(oa);
                    }
                    if last {
                        if idx < a.len() {
                            a.set(idx, x);
                            proof {
                                lemma_seq_model(a@);
                                assert(seq_model(a@) =~= seq_model(oa).update(idx as int, a@[idx as int].model()));
                            }
                            (Value::Array(a), Ok(()))
                        } else if idx == a.len() {
                            a.push(x);
                            proof {
                                lemma_seq_model_push(oa, a@[idx as int]);
                            }
                            (Value::Array(a), Ok(()))
                        } else {
                            let d = usize_to_string(idx);
                            let message = fault_message("array index ", d.as_str(), " out of bounds");
                            (Value::Array(a), Err(invalid_path(message)))
                        }
                    } else if idx < a.len() {
                        let child = a.remove(idx);
                        let (nc, res) = set_owned(child, path, i + 1, x);
                        a.insert(idx, nc);
                        proof {
                            lemma_seq_model(a@);
                            assert(a@ =~= oa.update(idx as int, a@[idx as int]));
                        }
                        match res {
                            Ok(()) => {
                                assert(seq_model(a@) =~= seq_model(oa).update(idx as int, a@[idx as int].model()));
                                (Value::Array(a), Ok(()))
                            },
                            Err(e) => {
                                assert(seq_model(a@) =~= seq_model(oa));
                                (Value::Array(a), Err(e))
                            },
                        }
                    } else {
                        let d = usize_to_string(idx);
                        let message = fault_message("array index ", d.as_str(), " out of bounds");
                        (Value::Array(a), Err(invalid_path(message)))
                    }
                },
            }
        },
        other => {
            if last {
                let message = fault_message("cannot set child '", c, "' on non-container value");
                (other, Err(invalid_path(message)))
            } else {
                let message = fault_message("cannot navigate through non-container at '", c, "'");
                (other, Err(invalid_path(message)))
            }
        },
    }
}

/// Removes `path[i..]` below the owned value `v`.
fn remove_owned(v: Value, path: &Path, i: usize) -> (r: (Value, Result<Option<Value>, Error>))
    requires
        i < path@.len(),
    ensures
        match remove_model(v.model(), path@.skip(i as int)) {
            Ok((nv, removed)) => r.0.model() == nv && (r.1 matches Ok(o) && match o {
                Some(x) => removed == Some(x.model()),
                None => removed is None,
            }),
            Err(c) => r.0.model() == v.model() && (r.1 matches Err(Error::InvalidPath { message })
                && message@ == "invalid array index: "@ + c),
        },
    decreases path@.len() - i,
{
    let ghost p = path@.skip(i as int);
    let c = path.component(i);
    assert(p[0] == c@);
    assert(p.drop_first() =~= path@.skip(i + 1));
    let last = i == path.len() - 1;
    match v {
        Value::Object(mut m) => {
            if last {
                let ghost om = m.model_map();
                let removed = m.remove(c);
                proof {
                    if removed is None {
                        assert(om.remove(c@) =~= om);
                    }
                }
                return (Value::Object(m), Ok(removed));
            }
            let ghost om = m.model_map();
            match m.remove(c) {
                None => {
                    assert(m.model_map() =~= om);
                    (Value::Object(m), Ok(None))
                },
                Some(child) => {
                    let (nc, res) = remove_owned(child, path, i + 1);
                    m.insert(to_owned_string(c), nc);
                    match res {
                        Ok(o) => {
                            assert(m.model_map() =~= om.insert(c@, nc.model()));
                            (Value::Object(m), Ok(o))
                        },
                        Err(e) => {
                            assert(m.model_map() =~= om);
                            (Value::Object(m), Err(e))
                        },
                    }
                },
            }
        },
        Value::Array(mut a) => {
            let ghost oa = a@;
            proof {
                lemma_seq_model(oa);
            }
            match parse_usize_str(c) {
                None => {
                    if last {
                        let message = fault_message("invalid array index: ", c, "");
                        proof {
                            reveal_strlit("");
                        }
                        assert(message@ =~= "invalid array index: "@ + c@);
                        (Value::Array(a), Err(invalid_path(message)))
                    } else {
                        (Value::Array(a), Ok(None))
                    }
                },
                Some(idx) => {
                    if idx >= a.len() {
                        (Value::Array(a), Ok(None))
                    } else if last {
                        let removed = a.remove(idx);
                        proof {
                            lemma_seq_model(a@);
                            assert(seq_model(a@) =~= seq_model(oa).remove(idx as int));
                        }
                        (Value::Array(a), Ok(Some(removed)))
                    } else {
                        let child = a.remove(idx);
                        let (nc, res) = remove_owned(child, path, i + 1);
                        a.insert(idx, nc);
                        proof {
                            lemma_seq_model(a@);
                            assert(a@ =~= oa.update(idx as int, a@[idx as int]));
                        }
                        match res {
                            Ok(o) => {
                                assert(seq_model(a@) =~= seq_model(oa).update(idx as int, a@[idx as int].model()));
                                (Value::Array(a), Ok(o))
                            },
                            Err(e) => {
                                assert(seq_model(a@) =~= seq_model(oa));
                                (Value::Array(a), Err(e))
                            },
                        }
                    }
                },
            }
        },
        other => (other, Ok(None)),
    }
}

impl Clone for Value {
    fn clone(&self) -> (r: Value)
        ensures
            r.model() == self.model(),
    {
        self.deep_clone()
    }
}

impl Clone for ValueMap {
    fn clone(&self) -> (r: ValueMap)
        ensures
            r.model_map() == self.model_map(),
    {
        self.deep_clone()
    }
}

impl Default for Value {
    fn default() -> (r: Value)
        ensures
            r == Value::Null,
    {
        Value::Null
    }
}

impl From<bool> for Value {
    fn from(v: bool) -> (r: Value)
        ensures
            r == Value::Bool(v),
    {
        Value::Bool(v)
    }
}

impl vstd::std_specs::convert::FromSpecImpl<bool> for Value {
    open spec fn obeys_from_spec() -> bool {
        true
    }

    open spec fn from_spec(v: bool) -> Value {
        Value::Bool(v)
    }
}

impl From<i64> for Value {
    fn from(v: i64) -> (r: Value)
        ensures
            r == Value::Integer(v),
    {
        Value::Integer(v)
    }
}

impl vstd::std_specs::convert::FromSpecImpl<i64> for Value {
    open spec fn obeys_from_spec() -> bool {
        true
    }

    open spec fn from_spec(v: i64) -> Value {
        Value::Integer(v)
    }
}

impl From<i32> for Value {
    fn from(v: i32) -> (r: Value)
        ensures
            r == Value::Integer(v as i64),
    {
        Value::Integer(v as i64)
    }
}

impl vstd::std_specs::convert::FromSpecImpl<i32> for Value {
    open spec fn obeys_from_spec() -> bool {
        true
    }

    open spec fn from_spec(v: i32) -> Value {
        Value::Integer(v as i64)
    }
}

impl From<String> for Value {
    fn from(v: String) -> (r: Value)
        ensures
            r == Value::String(v),
    {
        Value::String(v)
    }
}

impl vstd::std_specs::convert::FromSpecImpl<String> for Value {
    open spec fn obeys_from_spec() -> bool {
        true
    }

    open spec fn from_spec(v: String) -> Value {
        Value::String(v)
    }
}

impl From<&str> for Value {
    fn from(v: &str) -> (r: Value)
        ensures
            r.model() == Model::Str(v@),
    {
        Value::String(to_owned_string(v))
    }
}

impl vstd::std_specs::convert::FromSpecImpl<&str> for Value {
    open spec fn obeys_from_spec() -> bool {
        false
    }

    open spec fn from_spec(v: &str) -> Value {
        arbitrary()
    }
}

impl From<Vec<u8>> for Value {
    fn from(v: Vec<u8>) -> (r: Value)
        ensures
            r == Value::Bytes(v),
    {
        Value::Bytes(v)
    }
}

impl vstd::std_specs::convert::FromSpecImpl<Vec<u8>> for Value {
    open spec fn obeys_from_spec() -> bool {
        true
    }

    open spec fn from_spec(v: Vec<u8>) -> Value {
        Value::Bytes(v)
    }
}

impl From<Vec<i64>> for Value {
    fn from(v: Vec<i64>) -> (r: Value)
        ensures
            r.model() is Array,
            r.model()->Array_0.len() == v@.len(),
            forall|i: int| 0 <= i < v@.len() ==> #[trigger] r.model()->Array_0[i] == Model::Integer(v@[i]),
    {
        let mut out: Vec<Value> = Vec::new();
        let mut i: usize = 0;
        while i < v.len()
            invariant
                i <= v@.len(),
                out@.len() == i,
                forall|k: int| 0 <= k < i ==> #[trigger] out@[k] == Value::Integer(v@[k]),
            decreases v@.len() - i,
        {
            out.push(Value::Integer(v[i]));
            i = i + 1;
        }
        proof {
            lemma_seq_model(out@);
        }
        Value::Array(out)
    }
}

impl vstd::std_specs::convert::FromSpecImpl<Vec<i64>> for Value {
    open spec fn obeys_from_spec() -> bool {
        false
    }

    open spec fn from_spec(v: Vec<i64>) -> Value {
        arbitrary()
    }
}

impl From<Vec<Value>> for Value {
    fn from(v: Vec<Value>) -> (r: Value)
        ensures
            r == Value::Array(v),
    {
        Value::Array(v)
    }
}

impl vstd::std_specs::convert::FromSpecImpl<Vec<Value>> for Value {
    open spec fn obeys_from_spec() -> bool {
        true
    }

    open spec fn from_spec(v: Vec<Value>) -> Value {
        Value::Array(v)
    }
}

} // verus!

verus! {

// ---------------------------------------------------------------------
// Laws of navigation
// ---------------------------------------------------------------------

/// Whether every node that `p` passes through in `v`, up to the parent of
/// its last component, is a map (or is missing, from where on nothing
/// exists).
pub open spec fn maps_along(v: Model, p: Seq<Seq<char>>) -> bool
    decreases p.len(),
{
    if p.len() == 0 {
        true
    } else {
        match v {
            Model::Object(m) => p.len() == 1 || !m.contains_key(p[0]) || maps_along(m[p[0]], p.drop_first()),
            _ => false,
        }
    }
}

proof fn lemma_cons_path(p: Seq<Seq<char>>, q: Seq<Seq<char>>)
    requires
        p.len() > 0,
    ensures
        (p + q)[0] == p[0],
        (p + q).drop_first() == p.drop_first() + q,
        (p + q).len() > 0,
{
    assert((p + q).drop_first() =~= p.drop_first() + q);
}

/// Nothing lies below an empty map.
proof fn lemma_empty_map_get(q: Seq<Seq<char>>)
    requires
        q.len() > 0,
    ensures
        get_model(Model::Object(Map::empty()), q) is None,
{
}

/// After a successful `set` of `x` at `p`, reading `p` followed by any `q`
/// gives what reading `q` from `x` gives; in particular `p` reads back `x`.
pub proof fn lemma_get_after_set(v: Model, p: Seq<Seq<char>>, x: Model, q: Seq<Seq<char>>)
    requires
        set_model(v, p, x) is Ok,
    ensures
        get_model(set_model(v, p, x)->Ok_0, p + q) == get_model(x, q),
    decreases p.len(),
{
    if p.len() == 0 {
        assert(p + q =~= q);
    } else {
        let c = p[0];
        let rest = p.drop_first();
        lemma_cons_path(p, q);
        if rest.len() == 0 {
            assert(rest + q =~= q);
        } else {
            match v {
                Model::Object(m) => {
                    let child = if m.contains_key(c) {
                        m[c]
                    } else {
                        Model::Object(Map::empty())
                    };
                    lemma_get_after_set(child, rest, x, q);
                },
                Model::Array(a) => {
                    let i = crate::text::parse_usize(c)->Some_0;
                    lemma_get_after_set(a[i as int], rest, x, q);
                },
                _ => {},
            }
        }
    }
}

/// A successful `set` at `p` leaves a container at every proper prefix of
/// `p`; where nothing was there, or a map, it is a map: the intermediate
/// maps it needs are created. Through maps alone, every proper prefix is
/// a map.
pub proof fn lemma_set_creates_maps(v: Model, p: Seq<Seq<char>>, x: Model, k: int)
    requires
        set_model(v, p, x) is Ok,
        0 <= k < p.len(),
    ensures
        get_model(set_model(v, p, x)->Ok_0, p.take(k)) matches Some(n) && (n is Object || n is Array),
        (get_model(v, p.take(k)) is None || get_model(v, p.take(k)) matches Some(Model::Object(_))) ==> get_model(
            set_model(v, p, x)->Ok_0,
            p.take(k),
        ) matches Some(Model::Object(_)),
        maps_along(v, p) ==> get_model(set_model(v, p, x)->Ok_0, p.take(k)) matches Some(Model::Object(_)),
    decreases p.len(),
{
    let c = p[0];
    let rest = p.drop_first();
    if k == 0 {
        assert(p.take(0) =~= Seq::<Seq<char>>::empty());
    } else {
        let t = p.take(k);
        assert(t[0] == c);
        assert(t.drop_first() =~= rest.take(k - 1));
        match v {
            Model::Object(m) => {
                let child = if m.contains_key(c) {
                    m[c]
                } else {
                    Model::Object(Map::empty())
                };
                if !m.contains_key(c) {
                    if k - 1 > 0 {
                        lemma_empty_map_get(rest.take(k - 1));
                    } else {
                        assert(rest.take(0) =~= Seq::<Seq<char>>::empty());
                    }
                    if rest.len() > 1 {
                        assert(!Map::<Seq<char>, Model>::empty().contains_key(rest[0]));
                    }
                }
                lemma_set_creates_maps(child, rest, x, k - 1);
            },
            Model::Array(a) => {
                let i = crate::text::parse_usize(c)->Some_0;
                lemma_set_creates_maps(a[i as int], rest, x, k - 1);
            },
            _ => {},
        }
    }
}

/// Whether neither of two paths is a prefix of the other.
pub open spec fn unrelated(p: Seq<Seq<char>>, q: Seq<Seq<char>>) -> bool {
    !crate::path::path_has_prefix(q, p) && !crate::path::path_has_prefix(p, q)
}

proof fn lemma_unrelated_cons(p: Seq<Seq<char>>, q: Seq<Seq<char>>)
    requires
        p.len() > 0,
        unrelated(p, q),
    ensures
        q.len() > 0,
        q[0] == p[0] ==> p.len() > 1 && q.len() > 1 && unrelated(p.drop_first(), q.drop_first()),
{
    if q.len() == 0 {
        assert(p.subrange(0, 0) =~= q);
    } else if q[0] == p[0] {
        if p.len() == 1 {
            assert(q.subrange(0, 1) =~= p);
        }
        if q.len() == 1 {
            assert(p.subrange(0, 1) =~= q);
        }
        let a = p.drop_first();
        let b = q.drop_first();
        if crate::path::path_has_prefix(b, a) {
            assert forall|i: int| 0 <= i < p.len() implies q.subrange(0, p.len() as int)[i] == p[i] by {
                if i > 0 {
                    assert(b.subrange(0, a.len() as int)[i - 1] == a[i - 1]);
                }
            }
            assert(q.subrange(0, p.len() as int) =~= p);
        }
        if crate::path::path_has_prefix(a, b) {
            assert forall|i: int| 0 <= i < q.len() implies p.subrange(0, q.len() as int)[i] == q[i] by {
                if i > 0 {
                    assert(a.subrange(0, b.len() as int)[i - 1] == b[i - 1]);
                }
            }
            assert(p.subrange(0, q.len() as int) =~= q);
        }
    }
}

/// Whether `q`, read through `v`, ends up apart from `p`: at some step
/// the two take different map keys or different array slots, while up to
/// there they go the same way. An array slot can be named by more than
/// one string (`0` and `00`), so two unrelated paths can reach the same
/// slot; then they are not apart.
pub open spec fn apart(v: Model, p: Seq<Seq<char>>, q: Seq<Seq<char>>) -> bool
    decreases p.len(),
{
    if p.len() == 0 || q.len() == 0 {
        false
    } else {
        let rest = p.drop_first();
        let qrest = q.drop_first();
        match v {
            Model::Object(m) => p[0] != q[0] || apart(
                if m.contains_key(p[0]) {
                    m[p[0]]
                } else {
                    Model::Object(Map::empty())
                },
                rest,
                qrest,
            ),
            Model::Array(a) => match crate::text::parse_usize(p[0]) {
                Some(i) => crate::text::parse_usize(q[0]) != Some(i) || (i < a.len() && apart(a[i as int], rest, qrest)),
                None => true,
            },
            _ => true,
        }
    }
}

/// Unrelated paths are apart where `p` runs through maps.
pub proof fn lemma_unrelated_apart(v: Model, p: Seq<Seq<char>>, q: Seq<Seq<char>>)
    requires
        maps_along(v, p),
        unrelated(p, q),
    ensures
        apart(v, p, q),
    decreases p.len(),
{
    if p.len() == 0 {
        assert(q.subrange(0, 0) =~= p);
    }
    lemma_unrelated_cons(p, q);
    if let Model::Object(m) = v {
        if p[0] == q[0] {
            let rest = p.drop_first();
            if m.contains_key(p[0]) {
                lemma_unrelated_apart(m[p[0]], rest, q.drop_first());
            } else {
                if rest.len() > 1 {
                    assert(!Map::<Seq<char>, Model>::empty().contains_key(rest[0]));
                }
                lemma_unrelated_apart(Model::Object(Map::empty()), rest, q.drop_first());
            }
        }
    }
}

/// A successful `set` at `p` leaves every path apart from `p` as it was.
pub proof fn lemma_set_keeps_others(v: Model, p: Seq<Seq<char>>, x: Model, q: Seq<Seq<char>>)
    requires
        set_model(v, p, x) is Ok,
        apart(v, p, q),
    ensures
        get_model(set_model(v, p, x)->Ok_0, q) == get_model(v, q),
    decreases p.len(),
{
    let c = p[0];
    let rest = p.drop_first();
    let qrest = q.drop_first();
    assert(q.len() > 0);
    match v {
        Model::Object(m) => {
            if q[0] == c {
                if m.contains_key(c) {
                    lemma_set_keeps_others(m[c], rest, x, qrest);
                } else {
                    lemma_set_keeps_others(Model::Object(Map::empty()), rest, x, qrest);
                    assert(apart(Model::Object(Map::empty()), rest, qrest));
                    assert(qrest.len() > 0);
                    lemma_empty_map_get(qrest);
                }
            } else {
                assert(get_model(v, q) == if m.contains_key(q[0]) { get_model(m[q[0]], qrest) } else { None });
            }
        },
        Model::Array(a) => {
            let i = crate::text::parse_usize(c)->Some_0;
            if crate::text::parse_usize(q[0]) == Some(i) {
                lemma_set_keeps_others(a[i as int], rest, x, qrest);
            }
        },
        _ => {},
    }
}

/// Whether the node that `p` would remove from `v` sits in a map (or is
/// missing): removing from an array shifts the later elements instead.
pub open spec fn map_parent(v: Model, p: Seq<Seq<char>>) -> bool
    decreases p.len(),
{
    if p.len() <= 1 {
        !(v is Array)
    } else {
        match v {
            Model::Object(m) => !m.contains_key(p[0]) || map_parent(m[p[0]], p.drop_first()),
            Model::Array(a) => match crate::text::parse_usize(p[0]) {
                Some(i) => i >= a.len() || map_parent(a[i as int], p.drop_first()),
                None => true,
            },
            _ => true,
        }
    }
}

/// Through maps, the removed node sits in a map.
pub proof fn lemma_maps_along_map_parent(v: Model, p: Seq<Seq<char>>)
    requires
        maps_along(v, p),
        p.len() > 0,
    ensures
        map_parent(v, p),
    decreases p.len(),
{
    if p.len() > 1 {
        if let Model::Object(m) = v {
            if m.contains_key(p[0]) {
                lemma_maps_along_map_parent(m[p[0]], p.drop_first());
            }
        }
    }
}

/// A successful `remove` at `p` gives back what `p` held; where the
/// removed node sits in a map, it takes away everything below `p` and
/// leaves every path apart from `p` as it was.
pub proof fn lemma_remove_subtree(v: Model, p: Seq<Seq<char>>, q: Seq<Seq<char>>)
    requires
        p.len() > 0,
        remove_model(v, p) is Ok,
    ensures
        remove_model(v, p)->Ok_0.1 == get_model(v, p),
        map_parent(v, p) && crate::path::path_has_prefix(q, p) ==> get_model(remove_model(v, p)->Ok_0.0, q) is None,
        map_parent(v, p) && apart(v, p, q) ==> get_model(remove_model(v, p)->Ok_0.0, q) == get_model(v, q),
    decreases p.len(),
{
    let c = p[0];
    let rest = p.drop_first();
    let qrest = q.drop_first();
    if crate::path::path_has_prefix(q, p) {
        assert(q[0] == q.subrange(0, p.len() as int)[0]);
        if rest.len() > 0 {
            assert(qrest.subrange(0, rest.len() as int) =~= rest);
        }
    }
    if apart(v, p, q) {
        assert(q.len() > 0);
    }
    match v {
        Model::Object(m) => {
            if q.len() > 0 && q[0] != c {
                assert(get_model(v, q) == if m.contains_key(q[0]) { get_model(m[q[0]], qrest) } else { None });
            }
            if rest.len() == 0 {
                if q.len() > 0 && q[0] == c {
                    let child = if m.contains_key(c) {
                        m[c]
                    } else {
                        Model::Object(Map::empty())
                    };
                    assert(!apart(child, rest, qrest));
                }
                assert(get_model(v, p) == if m.contains_key(c) { Some(m[c]) } else { None }) by {
                    if m.contains_key(c) {
                        assert(get_model(m[c], rest) == Some(m[c]));
                    }
                }
            } else if m.contains_key(c) {
                lemma_remove_subtree(m[c], rest, qrest);
            }
        },
        Model::Array(a) => {
            match crate::text::parse_usize(c) {
                Some(i) => {
                    if rest.len() == 0 {
                        if i < a.len() {
                            assert(get_model(a[i as int], rest) == Some(a[i as int]));
                        }
                    } else if i < a.len() {
                        lemma_remove_subtree(a[i as int], rest, qrest);
                    }
                },
                None => {},
            }
        },
        _ => {},
    }
}

} // verus!

verus! {

// ---------------------------------------------------------------------
// Equality
// ---------------------------------------------------------------------

/// Whether the float bits `a` are a NaN: every exponent bit set and a
/// nonzero fraction.
pub open spec fn is_nan_bits(a: u64) -> bool {
    a & 0x7ff0_0000_0000_0000u64 == 0x7ff0_0000_0000_0000u64 && a & 0x000f_ffff_ffff_ffffu64 != 0
}

/// IEEE 754 equality of two floats given by their bits: a NaN equals
/// nothing, the two zeros are equal, and other floats are equal when
/// their bits are.
pub open spec fn float_eq(a: u64, b: u64) -> bool {
    &&& !is_nan_bits(a)
    &&& !is_nan_bits(b)
    &&& (a == b || (a & 0x7fff_ffff_ffff_ffffu64 == 0 && b & 0x7fff_ffff_ffff_ffffu64 == 0))
}

/// Whether two values are equal: the same variant with equal contents,
/// floats compared as IEEE 754 numbers, arrays element by element and
/// maps entry by entry.
pub closed spec fn value_eq(a: Value, b: Value) -> bool
    decreases a,
{
    match a {
        Value::Null => b is Null,
        Value::Bool(x) => b matches Value::Bool(y) && x == y,
        Value::Integer(x) => b matches Value::Integer(y) && x == y,
        Value::Float(x) => b matches Value::Float(y) && float_eq(x, y),
        Value::String(x) => b matches Value::String(y) && x@ == y@,
        Value::Bytes(x) => b matches Value::Bytes(y) && x@ == y@,
        Value::Array(x) => match b {
            Value::Array(y) => x@.len() == y@.len() && forall|i: int| 0 <= i < x@.len() ==> value_eq(
                #[trigger] x@[i],
                y@[i],
            ),
            _ => false,
        },
        Value::Object(x) => match b {
            Value::Object(y) => x.entries@.len() == y.entries@.len() && forall|i: int|
                0 <= i < x.entries@.len() ==> (#[trigger] x.entries@[i]).0@ == y.entries@[i].0@ && value_eq(
                    x.entries@[i].1,
                    y.entries@[i].1,
                ),
            _ => false,
        },
    }
}

/// What equality of values is, variant by variant (maps aside): scalars
/// compare their contents, floats as IEEE 754 numbers, strings and bytes
/// their contents, arrays element by element; values of different
/// variants are never equal.
pub proof fn lemma_value_eq_cases(a: Value, b: Value)
    ensures
        a is Float && b is Float ==> (value_eq(a, b) <==> float_eq(a->Float_0, b->Float_0)),
        a is Null && b is Null ==> value_eq(a, b),
        a is Bool && b is Bool ==> (value_eq(a, b) <==> a->Bool_0 == b->Bool_0),
        a is Integer && b is Integer ==> (value_eq(a, b) <==> a->Integer_0 == b->Integer_0),
        a is String && b is String ==> (value_eq(a, b) <==> a->String_0@ == b->String_0@),
        a is Bytes && b is Bytes ==> (value_eq(a, b) <==> a->Bytes_0@ == b->Bytes_0@),
        a is Array && b is Array ==> (value_eq(a, b) <==> (a->Array_0@.len() == b->Array_0@.len() && forall|i: int|
            0 <= i < a->Array_0@.len() ==> value_eq(#[trigger] a->Array_0@[i], b->Array_0@[i]))),
        variant_rank(a) != variant_rank(b) ==> !value_eq(a, b),
{
}

/// The position of a value's variant in the declaration.
pub open spec fn variant_rank(v: Value) -> int {
    match v {
        Value::Null => 0,
        Value::Bool(_) => 1,
        Value::Integer(_) => 2,
        Value::Float(_) => 3,
        Value::String(_) => 4,
        Value::Bytes(_) => 5,
        Value::Array(_) => 6,
        Value::Object(_) => 7,
    }
}

/// The value of the last entry of `s` with key `k`: what the map that `s`
/// denotes holds under `k`.
pub open spec fn entry_value(s: Seq<(String, Value)>, k: Seq<char>) -> Option<Value>
    decreases s.len(),
{
    if s.len() == 0 {
        None
    } else if s[s.len() - 1].0@ == k {
        Some(s[s.len() - 1].1)
    } else {
        entry_value(s.subrange(0, s.len() - 1), k)
    }
}

impl ValueMap {
    /// The value held under `k`, if any.
    pub closed spec fn value_at_key(self, k: Seq<char>) -> Option<Value> {
        entry_value(self.entries@, k)
    }
}

/// The entry value under `k` is there exactly when the key is in the map,
/// and its model is what the map holds there.
proof fn lemma_entry_value_model(s: Seq<(String, Value)>, k: Seq<char>)
    ensures
        entry_value(s, k) is Some <==> entries_model(s).contains_key(k),
        entry_value(s, k) matches Some(v) ==> entries_model(s)[k] == v.model(),
    decreases s.len(),
{
    if s.len() > 0 {
        lemma_entry_value_model(s.subrange(0, s.len() - 1), k);
    }
}

/// Entry lists with the same keys position by position and equal values
/// hold equal values under every key.
proof fn lemma_entry_value_pairwise(s: Seq<(String, Value)>, t: Seq<(String, Value)>, k: Seq<char>)
    requires
        s.len() == t.len(),
        forall|i: int| 0 <= i < s.len() ==> (#[trigger] s[i]).0@ == t[i].0@ && value_eq(s[i].1, t[i].1),
    ensures
        entry_value(s, k) is Some <==> entry_value(t, k) is Some,
        entry_value(s, k) is Some ==> value_eq(entry_value(s, k)->Some_0, entry_value(t, k)->Some_0),
    decreases s.len(),
{
    if s.len() > 0 {
        let n = s.len() - 1;
        let sp = s.subrange(0, n);
        let tp = t.subrange(0, n);
        assert(s[n].0@ == t[n].0@ && value_eq(s[n].1, t[n].1));
        assert forall|i: int| 0 <= i < sp.len() implies (#[trigger] sp[i]).0@ == tp[i].0@ && value_eq(sp[i].1, tp[i].1) by {
            assert(sp[i] == s[i] && tp[i] == t[i]);
            assert(s[i].0@ == t[i].0@ && value_eq(s[i].1, t[i].1));
        }
        lemma_entry_value_pairwise(sp, tp, k);
    }
}

/// In a list with sorted keys the entry with key `k` at `i` is the one
/// whose value is held under `k`.
proof fn lemma_entry_value_sorted(s: Seq<(String, Value)>, i: int)
    requires
        keys_sorted(s),
        0 <= i < s.len(),
    ensures
        entry_value(s, s[i].0@) == Some(s[i].1),
    decreases s.len(),
{
    let n = s.len() - 1;
    if i < n {
        let p = s.subrange(0, n);
        assert(keys_sorted(p)) by {
            assert forall|a: int, b: int| 0 <= a < b < p.len() implies crate::text::seq_lt(#[trigger] p[a].0@, #[trigger] p[b].0@) by {
                assert(p[a] == s[a] && p[b] == s[b]);
            }
        }
        assert(crate::text::seq_lt(s[i].0@, s[n].0@));
        crate::text::lemma_seq_lt_irreflexive(s[i].0@);
        assert(p[i] == s[i]);
        lemma_entry_value_sorted(p, i);
    }
}

/// Two equal maps hold the same keys, and under each key values that are
/// equal (and whose models are what the maps hold there): maps whose
/// values differ under some key are not equal.
pub proof fn lemma_equal_maps_hold_equal_values(x: ValueMap, y: ValueMap)
    requires
        value_eq(Value::Object(x), Value::Object(y)),
    ensures
        x.model_map().dom() == y.model_map().dom(),
        forall|k: Seq<char>| #[trigger] x.model_map().contains_key(k) ==> (x.value_at_key(k) matches Some(a) && (
        y.value_at_key(k) matches Some(b) && value_eq(a, b) && a.model() == x.model_map()[k] && b.model()
            == y.model_map()[k])),
{
    let s = x.entries@;
    let t = y.entries@;
    assert forall|i: int| 0 <= i < s.len() implies (#[trigger] s[i]).0@ == t[i].0@ && value_eq(s[i].1, t[i].1) by {
        assert(x.entries@[i].0@ == y.entries@[i].0@ && value_eq(x.entries@[i].1, y.entries@[i].1));
    }
    assert forall|k: Seq<char>| #[trigger] x.model_map().contains_key(k) <==> y.model_map().contains_key(k) by {
        lemma_entry_value_pairwise(s, t, k);
        lemma_entry_value_model(s, k);
        lemma_entry_value_model(t, k);
    }
    assert(x.model_map().dom() =~= y.model_map().dom());
    assert forall|k: Seq<char>| #[trigger] x.model_map().contains_key(k) implies (x.value_at_key(k) matches Some(a) && (
    y.value_at_key(k) matches Some(b) && value_eq(a, b) && a.model() == x.model_map()[k] && b.model()
        == y.model_map()[k])) by {
        lemma_entry_value_pairwise(s, t, k);
        lemma_entry_value_model(s, k);
        lemma_entry_value_model(t, k);
    }
}

/// Removing an in-range index from an array deletes exactly that element
/// and keeps the others in order: the elements before it stay where they
/// are, the ones after it move down by one, and the removed element is
/// handed back.
pub proof fn lemma_remove_array_element(a: Seq<Model>, c: Seq<char>)
    requires
        crate::text::parse_usize(c) matches Some(i) && i < a.len(),
    ensures
        remove_model(Model::Array(a), seq![c]) matches Ok((Model::Array(b), Some(x))) && ({
            let i = crate::text::parse_usize(c)->Some_0 as int;
            &&& x == a[i]
            &&& b.len() + 1 == a.len()
            &&& forall|j: int| 0 <= j < i ==> b[j] == a[j]
            &&& forall|j: int| i <= j < b.len() ==> b[j] == a[j + 1]
        }),
{
    assert(seq![c].drop_first().len() == 0);
}

/// Whether no float anywhere in `v` is a NaN.
pub closed spec fn nan_free(v: Value) -> bool
    decreases v,
{
    match v {
        Value::Float(f) => !is_nan_bits(f),
        Value::Array(x) => forall|i: int| 0 <= i < x@.len() ==> nan_free(#[trigger] x@[i]),
        Value::Object(x) => forall|i: int| 0 <= i < x.entries@.len() ==> nan_free((#[trigger] x.entries@[i]).1),
        _ => true,
    }
}

/// Every value without a NaN in it equals itself.
pub proof fn lemma_value_eq_reflexive(v: Value)
    requires
        nan_free(v),
    ensures
        value_eq(v, v),
    decreases v,
{
    match v {
        Value::Array(x) => {
            assert forall|i: int| 0 <= i < x@.len() implies value_eq(#[trigger] x@[i], x@[i]) by {
                assert(decreases_to!(v => x));
                assert(decreases_to!(x => x@[i]));
                lemma_value_eq_reflexive(x@[i]);
            }
        },
        Value::Object(x) => {
            assert forall|i: int| 0 <= i < x.entries@.len() implies (#[trigger] x.entries@[i]).0@ == x.entries@[i].0@
                && value_eq(x.entries@[i].1, x.entries@[i].1) by {
                assert(decreases_to!(v => x));
                assert(decreases_to!(x => x.entries));
                assert(decreases_to!(x.entries => x.entries@[i]));
                assert(decreases_to!(x.entries@[i] => x.entries@[i].1));
                lemma_value_eq_reflexive(x.entries@[i].1);
            }
        },
        _ => {},
    }
}

/// Equality of values is symmetric.
pub proof fn lemma_value_eq_symmetric(a: Value, b: Value)
    requires
        value_eq(a, b),
    ensures
        value_eq(b, a),
    decreases a,
{
    match a {
        Value::Array(x) => {
            let y = b->Array_0;
            assert forall|i: int| 0 <= i < y@.len() implies value_eq(#[trigger] y@[i], x@[i]) by {
                assert(value_eq(x@[i], y@[i]));
                assert(decreases_to!(a => x));
                assert(decreases_to!(x => x@[i]));
                lemma_value_eq_symmetric(x@[i], y@[i]);
            }
        },
        Value::Object(x) => {
            let y = b->Object_0;
            assert forall|i: int| 0 <= i < y.entries@.len() implies (#[trigger] y.entries@[i]).0@ == x.entries@[i].0@
                && value_eq(y.entries@[i].1, x.entries@[i].1) by {
                assert(x.entries@[i].0@ == y.entries@[i].0@ && value_eq(x.entries@[i].1, y.entries@[i].1));
                assert(decreases_to!(a => x));
                assert(decreases_to!(x => x.entries));
                assert(decreases_to!(x.entries => x.entries@[i]));
                assert(decreases_to!(x.entries@[i] => x.entries@[i].1));
                lemma_value_eq_symmetric(x.entries@[i].1, y.entries@[i].1);
            }
        },
        _ => {},
    }
}

/// Removing an element of an array anywhere in a tree: when the array
/// found at `p` has an element at index `c`, removing `p` followed by `c`
/// hands back that element and leaves at `p` the array with exactly that
/// element deleted, the ones before it in place and the ones after it
/// moved down by one.
pub proof fn lemma_remove_array_element_at(v: Model, p: Seq<Seq<char>>, c: Seq<char>)
    requires
        get_model(v, p) matches Some(Model::Array(a)) && (crate::text::parse_usize(c) matches Some(i) && i < a.len()),
    ensures
        remove_model(v, p + seq![c]) matches Ok((nv, Some(x))) && (get_model(nv, p) matches Some(Model::Array(b)) && ({
            let a = get_model(v, p)->Some_0->Array_0;
            let i = crate::text::parse_usize(c)->Some_0 as int;
            &&& x == a[i]
            &&& b.len() + 1 == a.len()
            &&& forall|j: int| 0 <= j < i ==> b[j] == a[j]
            &&& forall|j: int| i <= j < b.len() ==> b[j] == a[j + 1]
        })),
    decreases p.len(),
{
    if p.len() == 0 {
        assert(p + seq![c] =~= seq![c]);
        lemma_remove_array_element(v->Array_0, c);
    } else {
        let c0 = p[0];
        let rest = p.drop_first();
        assert((p + seq![c])[0] == c0);
        assert((p + seq![c]).drop_first() =~= rest + seq![c]);
        assert((p + seq![c]).drop_first().len() > 0);
        match v {
            Model::Object(m) => {
                lemma_remove_array_element_at(m[c0], rest, c);
            },
            Model::Array(a) => {
                let k = crate::text::parse_usize(c0)->Some_0;
                lemma_remove_array_element_at(a[k as int], rest, c);
            },
            _ => {},
        }
    }
}

/// Whether two maps are equal: the same keys, in order, with equal values.
pub closed spec fn map_eq(x: ValueMap, y: ValueMap) -> bool {
    value_eq(Value::Object(x), Value::Object(y))
}

/// IEEE 754 equality of two floats given by their bits.
pub fn float_bits_eq(a: u64, b: u64) -> (r: bool)
    ensures
        r == float_eq(a, b),
{
    let nan_a = a & 0x7ff0_0000_0000_0000u64 == 0x7ff0_0000_0000_0000u64 && a & 0x000f_ffff_ffff_ffffu64 != 0;
    let nan_b = b & 0x7ff0_0000_0000_0000u64 == 0x7ff0_0000_0000_0000u64 && b & 0x000f_ffff_ffff_ffffu64 != 0;
    !nan_a && !nan_b && (a == b || (a & 0x7fff_ffff_ffff_ffffu64 == 0 && b & 0x7fff_ffff_ffff_ffffu64 == 0))
}

/// Whether two values are equal (`value_eq`).
pub fn values_equal(a: &Value, b: &Value) -> (r: bool)
    ensures
        r == value_eq(*a, *b),
    decreases a,
{
    match a {
        Value::Null => match b {
            Value::Null => true,
            _ => false,
        },
        Value::Bool(x) => match b {
            Value::Bool(y) => *x == *y,
            _ => false,
        },
        Value::Integer(x) => match b {
            Value::Integer(y) => *x == *y,
            _ => false,
        },
        Value::Float(x) => match b {
            Value::Float(y) => float_bits_eq(*x, *y),
            _ => false,
        },
        Value::String(x) => match b {
            Value::String(y) => crate::text::str_eq(x.as_str(), y.as_str()),
            _ => false,
        },
        Value::Bytes(x) => match b {
            Value::Bytes(y) => {
                if x.len() != y.len() {
                    return false;
                }
                let mut i: usize = 0;
                while i < x.len()
                    invariant
                        *a == Value::Bytes(*x),
                        *b == Value::Bytes(*y),
                        x@.len() == y@.len(),
                        i <= x@.len(),
                        forall|k: int| 0 <= k < i ==> x@[k] == y@[k],
                    decreases x@.len() - i,
                {
                    if x[i] != y[i] {
                        return false;
                    }
                    i = i + 1;
                }
                assert(x@ =~= y@);
                true
            },
            _ => false,
        },
        Value::Array(x) => match b {
            Value::Array(y) => {
                if x.len() != y.len() {
                    return false;
                }
                let mut i: usize = 0;
                while i < x.len()
                    invariant
                        *a == Value::Array(*x),
                        *b == Value::Array(*y),
                        x@.len() == y@.len(),
                        i <= x@.len(),
                        forall|k: int| 0 <= k < i ==> value_eq(#[trigger] x@[k], y@[k]),
                    decreases x@.len() - i,
                {
                    proof {
                        assert(decreases_to!(*a => a->Array_0));
                        assert(decreases_to!(*x => x[i as int]));
                    }
                    if !values_equal(&x[i], &y[i]) {
                        return false;
                    }
                    i = i + 1;
                }
                true
            },
            _ => false,
        },
        Value::Object(x) => match b {
            Value::Object(y) => {
                if x.entries.len() != y.entries.len() {
                    return false;
                }
                let mut i: usize = 0;
                while i < x.entries.len()
                    invariant
                        *a == Value::Object(*x),
                        *b == Value::Object(*y),
                        x.entries@.len() == y.entries@.len(),
                        i <= x.entries@.len(),
                        forall|k: int| 0 <= k < i ==> (#[trigger] x.entries@[k]).0@ == y.entries@[k].0@ && value_eq(
                            x.entries@[k].1,
                            y.entries@[k].1,
                        ),
                    decreases x.entries@.len() - i,
                {
                    proof {
                        assert(decreases_to!(*a => a->Object_0));
                        assert(decreases_to!(*x => x.entries));
                        assert(decreases_to!(x.entries => x.entries[i as int]));
                        assert(decreases_to!(x.entries[i as int] => x.entries[i as int].1));
                    }
                    if !crate::text::str_eq(x.entries[i].0.as_str(), y.entries[i].0.as_str()) {
                        return false;
                    }
                    if !values_equal(&x.entries[i].1, &y.entries[i].1) {
                        return false;
                    }
                    i = i + 1;
                }
                true
            },
            _ => false,
        },
    }
}

impl PartialEq for Value {
    fn eq(&self, other: &Value) -> (r: bool) {
        values_equal(self, other)
    }
}

impl vstd::std_specs::cmp::PartialEqSpecImpl for Value {
    open spec fn obeys_eq_spec() -> bool {
        true
    }

    open spec fn eq_spec(&self, other: &Value) -> bool {
        value_eq(*self, *other)
    }
}

/// Whether two maps are equal (`map_eq`): the same keys, in order, with
/// equal values.
pub fn maps_equal(x: &ValueMap, y: &ValueMap) -> (r: bool)
    ensures
        r == map_eq(*x, *y),
{
    if x.entries.len() != y.entries.len() {
        return false;
    }
    let mut i: usize = 0;
    while i < x.entries.len()
        invariant
            x.entries@.len() == y.entries@.len(),
            i <= x.entries@.len(),
            forall|k: int| 0 <= k < i ==> (#[trigger] x.entries@[k]).0@ == y.entries@[k].0@ && value_eq(
                x.entries@[k].1,
                y.entries@[k].1,
            ),
        decreases x.entries@.len() - i,
    {
        if !crate::text::str_eq(x.entries[i].0.as_str(), y.entries[i].0.as_str()) {
            return false;
        }
        if !values_equal(&x.entries[i].1, &y.entries[i].1) {
            return false;
        }
        i = i + 1;
    }
    true
}

impl PartialEq for ValueMap {
    fn eq(&self, other: &ValueMap) -> (r: bool) {
        maps_equal(self, other)
    }
}

impl vstd::std_specs::cmp::PartialEqSpecImpl for ValueMap {
    open spec fn obeys_eq_spec() -> bool {
        true
    }

    open spec fn eq_spec(&self, other: &ValueMap) -> bool {
        map_eq(*self, *other)
    }
}

} // verus!
