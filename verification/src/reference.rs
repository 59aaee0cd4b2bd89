//! References: placeholders for a value at another path.
//!
//! Stores return references that clients follow instead of constructing
//! paths from out-of-band knowledge. A reference is a map with a `path`
//! string and, optionally, type information under `type`.

use vstd::prelude::*;

use crate::strmap::{assoc, keys_sorted, locate};
use crate::text::to_owned_string;
use crate::value::{Model, Value, ValueMap};

verus! {

/// Type information for a referenced value.
#[derive(Debug, PartialEq, Eq)]
pub struct TypeInfo {
    /// Type name, such as "integer", "string", "handle" or "action".
    pub name: String,
    /// Optional schema: field names with their types.
    pub schema: Option<Schema>,
}

/// A schema: field names with their type descriptors, kept sorted by name,
/// each name once.
#[derive(Debug, PartialEq, Eq)]
pub struct Schema {
    entries: Vec<(String, TypeDescriptor)>,
}

/// Describes a field's type within a schema.
#[derive(Debug, PartialEq, Eq)]
pub struct TypeDescriptor {
    /// The type of the field.
    pub type_info: TypeInfo,
}

/// A reference to a value at another path.
#[derive(Debug, PartialEq, Eq)]
pub struct Reference {
    /// The path of the referenced value.
    pub path: String,
    /// Optional type information.
    pub type_info: Option<TypeInfo>,
}

// ---------------------------------------------------------------------
// Values of type information
// ---------------------------------------------------------------------

/// Type information as a value: its name under `name` and, with a
/// schema, a map of field descriptors under `schema`.
pub closed spec fn info_value(ti: TypeInfo) -> Model
    decreases ti,
{
    let base = Map::<Seq<char>, Model>::empty().insert("name"@, Model::Str(ti.name@));
    Model::Object(
        match ti.schema {
            Some(list) => base.insert("schema"@, Model::Object(schema_value(list.entries@))),
            None => base,
        },
    )
}

/// A schema as a map from field names to descriptor values (a later entry
/// wins over an earlier one with the same name).
pub open spec fn schema_value(s: Seq<(String, TypeDescriptor)>) -> Map<Seq<char>, Model>
    decreases s,
{
    if s.len() == 0 {
        Map::empty()
    } else {
        schema_value(s.subrange(0, s.len() - 1)).insert(s[s.len() - 1].0@, descriptor_value(s[s.len() - 1].1))
    }
}

/// A descriptor as a value: its type information under `type`.
pub open spec fn descriptor_value(td: TypeDescriptor) -> Model
    decreases td,
{
    Model::Object(Map::<Seq<char>, Model>::empty().insert("type"@, info_value(td.type_info)))
}

/// A reference as a value: its path under `path` and its type information,
/// if any, under `type`.
pub open spec fn reference_value(r: Reference) -> Model {
    let base = Map::<Seq<char>, Model>::empty().insert("path"@, Model::Str(r.path@));
    Model::Object(
        match r.type_info {
            Some(ti) => base.insert("type"@, info_value(ti)),
            None => base,
        },
    )
}

// ---------------------------------------------------------------------
// Reading type information back
// ---------------------------------------------------------------------

/// The string under `key` in a map value, if there is one.
pub open spec fn text_field(m: Model, key: Seq<char>) -> Option<Seq<char>> {
    match m {
        Model::Object(map) => if map.contains_key(key) && map[key] is Str {
            Some(map[key]->Str_0)
        } else {
            None
        },
        _ => None,
    }
}

/// Whether a value reads as type information: a map with a string name.
pub open spec fn info_parses(m: Model) -> bool {
    text_field(m, "name"@) is Some
}

/// Whether a value reads as a descriptor: a map whose `type` reads as
/// type information.
pub open spec fn descriptor_parses(m: Model) -> bool {
    m matches Model::Object(map) && map.contains_key("type"@) && info_parses(map["type"@])
}

/// Whether `ti` is what reading type information from `m` gives: the
/// name, and, where `m` has a schema map, its fields that read as
/// descriptors, in increasing order of name (the others are skipped).
pub closed spec fn info_from(ti: TypeInfo, m: Model) -> bool
    decreases ti,
{
    &&& text_field(m, "name"@) == Some(ti.name@)
    &&& match m {
        Model::Object(map) => if map.contains_key("schema"@) && map["schema"@] is Object {
            let sm = map["schema"@]->Object_0;
            match ti.schema {
                Some(list) => {
                    &&& crate::strmap::keys_sorted(list.entries@)
                    &&& forall|k: Seq<char>| #[trigger] sm.contains_key(k) && descriptor_parses(sm[k]) ==> exists|i: int|
                        0 <= i < list.entries@.len() && (#[trigger] list.entries@[i]).0@ == k
                    &&& entries_from(list.entries@, sm)
                },
                None => false,
            }
        } else {
            ti.schema is None
        },
        _ => false,
    }
}

/// Whether every entry of `s` is a field of `sm` that reads as a
/// descriptor, read as that entry's descriptor.
pub open spec fn entries_from(s: Seq<(String, TypeDescriptor)>, sm: Map<Seq<char>, Model>) -> bool
    decreases s,
{
    if s.len() == 0 {
        true
    } else {
        let e = s[s.len() - 1];
        &&& entries_from(s.subrange(0, s.len() - 1), sm)
        &&& sm.contains_key(e.0@)
        &&& descriptor_parses(sm[e.0@])
        &&& descriptor_from(e.1, sm[e.0@])
    }
}

/// Whether `td` is what reading a descriptor from `m` gives.
pub open spec fn descriptor_from(td: TypeDescriptor, m: Model) -> bool
    decreases td,
{
    m matches Model::Object(map) && map.contains_key("type"@) && info_from(td.type_info, map["type"@])
}

/// Whether `r` is what reading a reference from `m` gives.
pub open spec fn reference_from(r: Reference, m: Model) -> bool {
    &&& text_field(m, "path"@) == Some(r.path@)
    &&& match m {
        Model::Object(map) => if map.contains_key("type"@) && info_parses(map["type"@]) {
            r.type_info matches Some(ti) && info_from(ti, map["type"@])
        } else {
            r.type_info is None
        },
        _ => false,
    }
}

proof fn lemma_entries_from_prefix(s: Seq<(String, TypeDescriptor)>, sm: Map<Seq<char>, Model>, i: int)
    requires
        entries_from(s, sm),
        0 <= i <= s.len(),
    ensures
        entries_from(s.subrange(0, i), sm),
    decreases s.len() - i,
{
    if i < s.len() {
        lemma_entries_from_prefix(s, sm, i + 1);
        assert(s.subrange(0, i + 1).subrange(0, i) =~= s.subrange(0, i));
    } else {
        assert(s.subrange(0, i) =~= s);
    }
}

proof fn lemma_entries_from_push(s: Seq<(String, TypeDescriptor)>, sm: Map<Seq<char>, Model>, e: (String, TypeDescriptor))
    requires
        entries_from(s, sm),
        sm.contains_key(e.0@),
        descriptor_parses(sm[e.0@]),
        descriptor_from(e.1, sm[e.0@]),
    ensures
        entries_from(s.push(e), sm),
{
    assert(s.push(e).subrange(0, s.len() as int) =~= s);
}

// ---------------------------------------------------------------------
// Operations
// ---------------------------------------------------------------------

fn text(s: &str) -> (r: Value)
    ensures
        r.model() == Model::Str(s@),
{
    Value::String(to_owned_string(s))
}

fn text_of(m: &ValueMap, key: &str) -> (r: Option<String>)
    ensures
        match r {
            Some(s) => text_field(Model::Object(m.model_map()), key@) == Some(s@),
            None => text_field(Model::Object(m.model_map()), key@) is None,
        },
{
    match m.get(key) {
        Some(Value::String(s)) => Some(s.clone()),
        _ => None,
    }
}

impl Schema {
    #[verifier::type_invariant]
    closed spec fn wf(self) -> bool {
        keys_sorted(self.entries@)
    }

    /// The fields with their descriptors, by name.
    pub closed spec fn fields(self) -> Seq<(String, TypeDescriptor)> {
        self.entries@
    }

    /// Each field's descriptor, by name.
    pub open spec fn field_map(self) -> Map<Seq<char>, TypeDescriptor> {
        assoc(self.fields())
    }

    /// A schema with no fields.
    pub fn new() -> (r: Schema)
        ensures
            r.fields().len() == 0,
            r.field_map() == Map::<Seq<char>, TypeDescriptor>::empty(),
    {
        let r = Schema { entries: Vec::new() };
        assert(r.field_map() =~= Map::<Seq<char>, TypeDescriptor>::empty());
        r
    }

    /// Describe the field `name` by `td`, replacing what it had.
    pub fn insert(&mut self, name: &str, td: TypeDescriptor)
        ensures
            final(self).field_map() == old(self).field_map().insert(name@, td),
    {
        proof {
            use_type_invariant(&*self);
        }
        let ghost s = self.entries@;
        let mut ms: Vec<(String, TypeDescriptor)> = Vec::new();
        std::mem::swap(&mut ms, &mut self.entries);
        let (found, i) = locate(&ms, name);
        if found {
            ms.remove(i);
            ms.insert(i, (to_owned_string(name), td));
            proof {
                assert(ms@ =~= s.update(i as int, ms@[i as int]));
                crate::strmap::lemma_assoc_update(s, i as int, ms@[i as int]);
            }
        } else {
            ms.insert(i, (to_owned_string(name), td));
            proof {
                crate::strmap::lemma_assoc_insert(s, i as int, ms@[i as int]);
            }
        }
        self.entries = ms;
        proof {
            assert(self.field_map() =~= old(self).field_map().insert(name@, td));
        }
    }

    /// The fields with their descriptors, in increasing order of name.
    pub fn entries(&self) -> (r: &Vec<(String, TypeDescriptor)>)
        ensures
            r@ == self.fields(),
            keys_sorted(r@),
    {
        proof {
            use_type_invariant(self);
        }
        &self.entries
    }

    /// The number of fields.
    pub fn len(&self) -> (r: usize)
        ensures
            r == self.fields().len(),
    {
        self.entries.len()
    }
}

impl TypeInfo {
    /// Type information with just a name.
    pub fn new(name: &str) -> (r: TypeInfo)
        ensures
            r.name@ == name@,
            r.schema is None,
    {
        TypeInfo { name: to_owned_string(name), schema: None }
    }

    /// This type information as a value.
    pub fn to_value(&self) -> (r: Value)
        ensures
            r.model() == info_value(*self),
            info_wf(*self),
        decreases self,
    {
        let mut map = ValueMap::new();
        map.insert(to_owned_string("name"), Value::String(self.name.clone()));
        match &self.schema {
            Some(schema) => {
                proof {
                    use_type_invariant(schema);
                }
                let list = &schema.entries;
                let mut sm = ValueMap::new();
                let mut i: usize = 0;
                assert(list@.subrange(0, 0) =~= Seq::<(String, TypeDescriptor)>::empty());
                while i < list.len()
                    invariant
                        i <= list@.len(),
                        self.schema == Some(*schema),
                        *list == schema.entries,
                        sm.model_map() == schema_value(list@.subrange(0, i as int)),
                        schema_wf(list@.subrange(0, i as int)),
                    decreases list@.len() - i,
                {
                    proof {
                        assert(decreases_to!(*self => self.schema));
                        assert(decreases_to!(self.schema => self.schema->Some_0));
                        assert(decreases_to!(self.schema->Some_0 => self.schema->Some_0.entries));
                        assert(decreases_to!(*list => list[i as int]));
                        assert(decreases_to!(list[i as int] => list[i as int].1));
                    }
                    let v = list[i].1.to_value();
                    sm.insert(list[i].0.clone(), v);
                    proof {
                        let t = list@.subrange(0, i + 1);
                        assert(t.subrange(0, i as int) =~= list@.subrange(0, i as int));
                    }
                    i = i + 1;
                }
                assert(list@.subrange(0, i as int) =~= list@);
                map.insert(to_owned_string("schema"), Value::Object(sm));
            },
            None => {},
        }
        let r = Value::Object(map);
        assert(r.model() =~~= info_value(*self));
        r
    }

    /// Read type information from a value: a map with a string `name`
    /// and, optionally, a `schema` map whose fields that read as
    /// descriptors are kept, by name; anything else is skipped.
    pub fn from_value(value: &Value) -> (r: Option<TypeInfo>)
        ensures
            match r {
                Some(ti) => info_from(ti, value.model()),
                None => !info_parses(value.model()),
            },
        decreases value.model(),
    {
        let map = match value {
            Value::Object(m) => m,
            _ => {
                return None;
            },
        };
        let name = match text_of(map, "name") {
            Some(s) => s,
            None => {
                return None;
            },
        };
        let schema = match map.get("schema") {
            Some(sv) => {
                proof {
                    lemma_model_child_smaller(map.model_map(), "schema"@);
                }
                match read_schema(sv) {
                    Some(entries) => Some(Schema { entries }),
                    None => None,
                }
            },
            None => None,
        };
        proof {
            let mm = value.model()->Object_0;
            if mm.contains_key("schema"@) && mm["schema"@] is Object {
                let list = schema->Some_0;
                assert(entries_from(list.entries@, mm["schema"@]->Object_0));
            }
        }
        Some(TypeInfo { name, schema })
    }
}

/// The fields of a schema map that read as descriptors, by name; `None`
/// when the value is not a map.
fn read_schema(value: &Value) -> (r: Option<Vec<(String, TypeDescriptor)>>)
    ensures
        match value.model() {
            Model::Object(sm) => r matches Some(list) && crate::strmap::keys_sorted(list@) && entries_from(list@, sm) && (
            forall|k: Seq<char>| #[trigger] sm.contains_key(k) && descriptor_parses(sm[k]) ==> exists|i: int|
                0 <= i < list@.len() && (#[trigger] list@[i]).0@ == k),
            _ => r is None,
        },
    decreases value.model(),
{
    let sm = match value {
        Value::Object(m) => m,
        _ => {
            return None;
        },
    };
    let ghost smm = sm.model_map();
    let n = sm.len();
    let keys = sm.keys();
    let mut out: Vec<(String, TypeDescriptor)> = Vec::new();
    let ghost mut idx: Seq<int> = Seq::empty();
    let mut i: usize = 0;
    while i < keys.len()
        invariant
            i <= keys@.len(),
            smm == sm.model_map(),
            smm.dom().finite(),
            value.model() == Model::Object(smm),
            crate::value::strings_sorted(keys@),
            forall|k: int| 0 <= k < keys@.len() ==> smm.contains_key(#[trigger] keys@[k]@),
            forall|k: Seq<char>| smm.contains_key(k) ==> exists|j: int| 0 <= j < keys@.len() && #[trigger] keys@[j]@ == k,
            crate::strmap::keys_sorted(out@),
            entries_from(out@, smm),
            idx.len() == out@.len(),
            forall|j: int| 0 <= j < out@.len() ==> 0 <= #[trigger] idx[j] < i && out@[j].0@ == keys@[idx[j]]@,
            forall|k: int| 0 <= k < i && descriptor_parses(smm[#[trigger] keys@[k]@]) ==> exists|j: int|
                0 <= j < out@.len() && (#[trigger] out@[j]).0@ == keys@[k]@,
        decreases keys@.len() - i,
    {
        let key = keys[i].as_str();
        let child = match sm.get(key) {
            Some(c) => c,
            None => vstd::pervasive::unreached(),
        };
        proof {
            lemma_model_child_smaller(smm, key@);
        }
        if let Some(td) = TypeDescriptor::from_value(child) {
            let ghost before = out@;
            let e = (keys[i].clone(), td);
            proof {
                lemma_entries_from_push(before, smm, e);
                assert forall|a: int, b: int| 0 <= a < b < before.len() + 1 implies crate::text::seq_lt(
                    #[trigger] before.push(e)[a].0@,
                    #[trigger] before.push(e)[b].0@,
                ) by {
                    if b == before.len() {
                        assert(before[a].0@ == keys@[idx[a]]@);
                        assert(crate::text::seq_lt(keys@[idx[a]]@, keys@[i as int]@));
                    } else {
                        assert(before.push(e)[a] == before[a] && before.push(e)[b] == before[b]);
                    }
                }
            }
            out.push(e);
            proof {
                idx = idx.push(i as int);
                assert forall|k: int| 0 <= k < i + 1 && descriptor_parses(smm[#[trigger] keys@[k]@]) implies exists|j: int|
                    0 <= j < out@.len() && (#[trigger] out@[j]).0@ == keys@[k]@ by {
                    if k < i {
                        let j = choose|j: int| 0 <= j < before.len() && (#[trigger] before[j]).0@ == keys@[k]@;
                        assert(out@[j] == before[j]);
                    } else {
                        assert(out@[before.len() as int].0@ == keys@[k]@);
                    }
                }
            }
        }
        i = i + 1;
    }
    proof {
        assert forall|k: Seq<char>| #[trigger] smm.contains_key(k) && descriptor_parses(smm[k]) implies exists|j: int|
            0 <= j < out@.len() && (#[trigger] out@[j]).0@ == k by {
            let kk = choose|kk: int| 0 <= kk < keys@.len() && #[trigger] keys@[kk]@ == k;
            assert(descriptor_parses(smm[keys@[kk]@]));
        }
    }
    Some(out)
}

/// A field of a map value is smaller than the map value.
proof fn lemma_model_child_smaller(m: Map<Seq<char>, Model>, k: Seq<char>)
    requires
        m.dom().finite(),
        m.contains_key(k),
    ensures
        decreases_to!(Model::Object(m) => m[k]),
{
    broadcast use vstd::map::group_map_axioms;

    let v = Model::Object(m);
    assert(decreases_to!(v => v->Object_0));
    assert(decreases_to!(m => m[k]));
}

impl TypeDescriptor {
    /// A descriptor for the type named `kind`.
    pub fn new(kind: &str) -> (r: TypeDescriptor)
        ensures
            r.type_info.name@ == kind@,
            r.type_info.schema is None,
    {
        TypeDescriptor { type_info: TypeInfo::new(kind) }
    }

    /// This descriptor as a value.
    pub fn to_value(&self) -> (r: Value)
        ensures
            r.model() == descriptor_value(*self),
            info_wf(self.type_info),
        decreases self,
    {
        let mut map = ValueMap::new();
        map.insert(to_owned_string("type"), self.type_info.to_value());
        let r = Value::Object(map);
        assert(r.model() =~~= descriptor_value(*self));
        r
    }

    /// Read a descriptor from a value: a map whose `type` reads as type
    /// information.
    pub fn from_value(value: &Value) -> (r: Option<TypeDescriptor>)
        ensures
            match r {
                Some(td) => descriptor_parses(value.model()) && descriptor_from(td, value.model()),
                None => !descriptor_parses(value.model()),
            },
        decreases value.model(),
    {
        let map = match value {
            Value::Object(m) => m,
            _ => {
                return None;
            },
        };
        match map.get("type") {
            Some(t) => {
                proof {
                    lemma_model_child_smaller(map.model_map(), "type"@);
                }
                match TypeInfo::from_value(t) {
                    Some(type_info) => Some(TypeDescriptor { type_info }),
                    None => None,
                }
            },
            None => None,
        }
    }
}

impl Reference {
    /// A reference with just a path.
    pub fn new(path: &str) -> (r: Reference)
        ensures
            r.path@ == path@,
            r.type_info is None,
    {
        Reference { path: to_owned_string(path), type_info: None }
    }

    /// A reference with a type name.
    pub fn with_type(path: &str, kind: &str) -> (r: Reference)
        ensures
            r.path@ == path@,
            r.type_info matches Some(ti) && ti.name@ == kind@ && ti.schema is None,
    {
        Reference { path: to_owned_string(path), type_info: Some(TypeInfo::new(kind)) }
    }

    /// This reference as a value.
    pub fn to_value(&self) -> (r: Value)
        ensures
            r.model() == reference_value(*self),
            reference_wf(*self),
            reference_from(*self, r.model()),
    {
        let mut map = ValueMap::new();
        map.insert(to_owned_string("path"), Value::String(self.path.clone()));
        match &self.type_info {
            Some(ti) => {
                map.insert(to_owned_string("type"), ti.to_value());
            },
            None => {},
        }
        let r = Value::Object(map);
        assert(r.model() =~~= reference_value(*self));
        proof {
            lemma_reference_roundtrip(*self);
        }
        r
    }

    /// Read a reference from a value: a map with a string `path` and,
    /// when its `type` reads as type information, that information.
    pub fn from_value(value: &Value) -> (r: Option<Reference>)
        ensures
            match r {
                Some(rr) => reference_from(rr, value.model()),
                None => text_field(value.model(), "path"@) is None,
            },
    {
        let map = match value {
            Value::Object(m) => m,
            _ => {
                return None;
            },
        };
        let path = match text_of(map, "path") {
            Some(s) => s,
            None => {
                return None;
            },
        };
        let type_info = match map.get("type") {
            Some(t) => TypeInfo::from_value(t),
            None => None,
        };
        Some(Reference { path, type_info })
    }

    /// Whether a value is a reference: a map with a string `path`.
    pub fn is_reference(value: &Value) -> (r: bool)
        ensures
            r == (text_field(value.model(), "path"@) is Some),
    {
        match value {
            Value::Object(m) => text_of(m, "path").is_some(),
            _ => false,
        }
    }
}

// ---------------------------------------------------------------------
// Round trips
// ---------------------------------------------------------------------

/// Whether every schema in `ti`, at any depth, lists its fields in
/// strictly increasing order of name (as a map would).
pub closed spec fn info_wf(ti: TypeInfo) -> bool
    decreases ti,
{
    match ti.schema {
        Some(list) => crate::strmap::keys_sorted(list.entries@) && schema_wf(list.entries@),
        None => true,
    }
}

/// Whether the type information of every entry is well formed.
pub open spec fn schema_wf(s: Seq<(String, TypeDescriptor)>) -> bool
    decreases s,
{
    if s.len() == 0 {
        true
    } else {
        schema_wf(s.subrange(0, s.len() - 1)) && info_wf(s[s.len() - 1].1.type_info)
    }
}

proof fn lemma_schema_value_dom(s: Seq<(String, TypeDescriptor)>, k: Seq<char>)
    ensures
        schema_value(s).contains_key(k) ==> exists|i: int| 0 <= i < s.len() && (#[trigger] s[i]).0@ == k,
    decreases s.len(),
{
    if s.len() > 0 {
        let p = s.subrange(0, s.len() - 1);
        lemma_schema_value_dom(p, k);
        if schema_value(p).contains_key(k) {
            let i = choose|i: int| 0 <= i < p.len() && (#[trigger] p[i]).0@ == k;
            assert(s[i] == p[i]);
        }
    }
}

proof fn lemma_schema_value_at(s: Seq<(String, TypeDescriptor)>, i: int)
    requires
        crate::strmap::keys_sorted(s),
        0 <= i < s.len(),
    ensures
        schema_value(s).contains_key(s[i].0@),
        schema_value(s)[s[i].0@] == descriptor_value(s[i].1),
    decreases s.len(),
{
    let p = s.subrange(0, s.len() - 1);
    if i < s.len() - 1 {
        assert(crate::strmap::keys_sorted(p)) by {
            assert forall|a: int, b: int| 0 <= a < b < p.len() implies crate::text::seq_lt(#[trigger] p[a].0@, #[trigger] p[b].0@) by {
                assert(p[a] == s[a] && p[b] == s[b]);
            }
        }
        lemma_schema_value_at(p, i);
        assert(p[i] == s[i]);
        crate::text::lemma_seq_lt_irreflexive(s[i].0@);
    }
}

proof fn lemma_schema_wf_at(s: Seq<(String, TypeDescriptor)>, i: int)
    requires
        schema_wf(s),
        0 <= i < s.len(),
    ensures
        info_wf(s[i].1.type_info),
    decreases s.len(),
{
    if i < s.len() - 1 {
        let p = s.subrange(0, s.len() - 1);
        lemma_schema_wf_at(p, i);
        assert(p[i] == s[i]);
    }
}

proof fn lemma_literals()
    ensures
        "name"@ != "schema"@,
        "path"@ != "type"@,
{
    reveal_strlit("name");
    reveal_strlit("schema");
    reveal_strlit("path");
    reveal_strlit("type");
    assert("name"@.len() != "schema"@.len());
    assert("path"@[0] != "type"@[0]);
}

/// Reading type information back from its value gives it back: it is what
/// reading gives.
pub proof fn lemma_info_roundtrip(ti: TypeInfo)
    requires
        info_wf(ti),
    ensures
        info_parses(info_value(ti)),
        info_from(ti, info_value(ti)),
    decreases ti,
{
    lemma_literals();
    reveal_strlit("name");
    reveal_strlit("schema");
    let m = info_value(ti)->Object_0;
    assert(m.contains_key("name"@) && m["name"@] == Model::Str(ti.name@));
    match ti.schema {
        Some(list) => {
            let sm = schema_value(list.entries@);
            assert(m.contains_key("schema"@) && m["schema"@] == Model::Object(sm));
            assert forall|k: Seq<char>| #[trigger] sm.contains_key(k) && descriptor_parses(sm[k]) implies exists|i: int|
                0 <= i < list.entries@.len() && (#[trigger] list.entries@[i]).0@ == k by {
                lemma_schema_value_dom(list.entries@, k);
            }
            lemma_entries_roundtrip(ti, list.entries@, list.entries@.len() as int);
            assert(list.entries@.subrange(0, list.entries@.len() as int) =~= list.entries@);
        },
        None => {
            assert(!m.contains_key("schema"@));
        },
    }
}

proof fn lemma_entries_roundtrip(ti: TypeInfo, s: Seq<(String, TypeDescriptor)>, n: int)
    requires
        ti.schema matches Some(list) && list.entries@ == s,
        crate::strmap::keys_sorted(s),
        schema_wf(s),
        0 <= n <= s.len(),
    ensures
        entries_from(s.subrange(0, n), schema_value(s)),
    decreases ti, n,
{
    if n > 0 {
        let t = s.subrange(0, n);
        assert(t.subrange(0, n - 1) =~= s.subrange(0, n - 1));
        lemma_entries_roundtrip(ti, s, n - 1);
        lemma_schema_value_at(s, n - 1);
        lemma_schema_wf_at(s, n - 1);
        let td = s[n - 1].1;
        reveal_strlit("type");
        assert(decreases_to!(ti => ti.schema));
        assert(decreases_to!(ti.schema => ti.schema->Some_0));
        assert(decreases_to!(ti.schema->Some_0 => ti.schema->Some_0.entries));
        assert(decreases_to!(ti.schema->Some_0.entries => ti.schema->Some_0.entries[n - 1]));
        assert(decreases_to!(ti.schema->Some_0.entries[n - 1] => ti.schema->Some_0.entries[n - 1].1));
        assert(decreases_to!(td => td.type_info));
        lemma_info_roundtrip(td.type_info);
        assert(t[n - 1] == s[n - 1]);
        let dv = descriptor_value(td);
        assert(dv->Object_0.contains_key("type"@) && dv->Object_0["type"@] == info_value(td.type_info));
        assert(descriptor_parses(dv));
        assert(descriptor_from(td, dv));
        assert(entries_from(t, schema_value(s)));
    }
}

/// Whether `r`'s type information, if any, is well formed.
pub open spec fn reference_wf(r: Reference) -> bool {
    match r.type_info {
        Some(ti) => info_wf(ti),
        None => true,
    }
}

/// Reading a reference back from its value gives it back: it is what
/// reading gives, and the value is recognized as a reference.
pub proof fn lemma_reference_roundtrip(r: Reference)
    requires
        reference_wf(r),
    ensures
        text_field(reference_value(r), "path"@) is Some,
        reference_from(r, reference_value(r)),
{
    lemma_literals();
    let m = reference_value(r)->Object_0;
    assert(m.contains_key("path"@) && m["path"@] == Model::Str(r.path@));
    match r.type_info {
        Some(ti) => {
            lemma_info_roundtrip(ti);
            assert(m.contains_key("type"@) && m["type"@] == info_value(ti));
        },
        None => {
            assert(!m.contains_key("type"@));
        },
    }
}

// ---------------------------------------------------------------------
// Reading back is unique
// ---------------------------------------------------------------------

/// Whether two entry lists denote the same schema value entry by entry:
/// the same names in the same places with descriptors of the same value.
spec fn same_entries(x: Seq<(String, TypeDescriptor)>, y: Seq<(String, TypeDescriptor)>) -> bool {
    &&& x.len() == y.len()
    &&& forall|i: int| 0 <= i < x.len() ==> x[i].0@ == y[i].0@ && #[trigger] descriptor_value(x[i].1) == descriptor_value(y[i].1)
}

proof fn lemma_same_entries_value(x: Seq<(String, TypeDescriptor)>, y: Seq<(String, TypeDescriptor)>)
    requires
        same_entries(x, y),
    ensures
        schema_value(x) == schema_value(y),
    decreases x.len(),
{
    if x.len() > 0 {
        let n = x.len() - 1;
        let px = x.subrange(0, n);
        let py = y.subrange(0, n);
        assert forall|i: int| 0 <= i < px.len() implies px[i].0@ == py[i].0@ && #[trigger] descriptor_value(px[i].1)
            == descriptor_value(py[i].1) by {
            assert(px[i] == x[i] && py[i] == y[i]);
            assert(descriptor_value(x[i].1) == descriptor_value(y[i].1));
        }
        lemma_same_entries_value(px, py);
        assert(descriptor_value(x[n].1) == descriptor_value(y[n].1));
    }
}

/// Every entry read by `entries_from` is a field of `sm` that reads as
/// its descriptor.
proof fn lemma_entries_from_at(s: Seq<(String, TypeDescriptor)>, sm: Map<Seq<char>, Model>, i: int)
    requires
        entries_from(s, sm),
        0 <= i < s.len(),
    ensures
        sm.contains_key(s[i].0@),
        descriptor_parses(sm[s[i].0@]),
        descriptor_from(s[i].1, sm[s[i].0@]),
    decreases s.len(),
{
    if i < s.len() - 1 {
        let p = s.subrange(0, s.len() - 1);
        lemma_entries_from_at(p, sm, i);
        assert(p[i] == s[i]);
    }
}

/// The keys of an entry list, in order.
spec fn keys_of(s: Seq<(String, TypeDescriptor)>) -> Seq<Seq<char>> {
    s.map_values(|e: (String, TypeDescriptor)| e.0@)
}

/// Whether a list of names strictly increases.
spec fn names_sorted(s: Seq<Seq<char>>) -> bool {
    forall|a: int, b: int| 0 <= a < b < s.len() ==> crate::text::seq_lt(#[trigger] s[a], #[trigger] s[b])
}

/// Two strictly increasing lists of names with the same elements are
/// the same list.
proof fn lemma_sorted_same(s: Seq<Seq<char>>, t: Seq<Seq<char>>)
    requires
        names_sorted(s),
        names_sorted(t),
        forall|i: int| 0 <= i < s.len() ==> t.contains(#[trigger] s[i]),
        forall|j: int| 0 <= j < t.len() ==> s.contains(#[trigger] t[j]),
    ensures
        s == t,
    decreases s.len(),
{
    if s.len() == 0 {
        if t.len() > 0 {
            assert(s.contains(t[0]));
        }
        assert(s =~= t);
    } else {
        assert(t.contains(s[0]));
        let j0 = choose|j: int| 0 <= j < t.len() && t[j] == s[0];
        assert(s.contains(t[0]));
        let i0 = choose|i: int| 0 <= i < s.len() && s[i] == t[0];
        if s[0] != t[0] {
            assert(crate::text::seq_lt(t[0], t[j0]));
            assert(crate::text::seq_lt(s[0], s[i0]));
            crate::text::lemma_seq_lt_asymmetric(s[0], t[0]);
        }
        let s1 = s.drop_first();
        let t1 = t.drop_first();
        assert forall|i: int| 0 <= i < s1.len() implies t1.contains(#[trigger] s1[i]) by {
            assert(s1[i] == s[i + 1]);
            assert(t.contains(s[i + 1]));
            let j = choose|j: int| 0 <= j < t.len() && t[j] == s[i + 1];
            assert(crate::text::seq_lt(s[0], s[i + 1]));
            if j == 0 {
                crate::text::lemma_seq_lt_irreflexive(s[0]);
            }
            assert(t1[j - 1] == t[j]);
        }
        assert forall|j: int| 0 <= j < t1.len() implies s1.contains(#[trigger] t1[j]) by {
            assert(t1[j] == t[j + 1]);
            assert(s.contains(t[j + 1]));
            let i = choose|i: int| 0 <= i < s.len() && s[i] == t[j + 1];
            assert(crate::text::seq_lt(t[0], t[j + 1]));
            if i == 0 {
                crate::text::lemma_seq_lt_irreflexive(t[0]);
            }
            assert(s1[i - 1] == s[i]);
        }
        lemma_sorted_same(s1, t1);
        assert(s =~= seq![s[0]] + s1);
        assert(t =~= seq![t[0]] + t1);
    }
}

/// Two entry lists sorted by key, each of whose keys are exactly the
/// fields of `sm` that read as descriptors, have the same keys in the
/// same places.
proof fn lemma_entries_same_keys(x: Seq<(String, TypeDescriptor)>, y: Seq<(String, TypeDescriptor)>, sm: Map<Seq<char>, Model>)
    requires
        keys_sorted(x),
        keys_sorted(y),
        entries_from(x, sm),
        entries_from(y, sm),
        forall|k: Seq<char>| #[trigger] sm.contains_key(k) && descriptor_parses(sm[k]) ==> exists|i: int|
            0 <= i < x.len() && (#[trigger] x[i]).0@ == k,
        forall|k: Seq<char>| #[trigger] sm.contains_key(k) && descriptor_parses(sm[k]) ==> exists|i: int|
            0 <= i < y.len() && (#[trigger] y[i]).0@ == k,
    ensures
        x.len() == y.len(),
        forall|i: int| 0 <= i < x.len() ==> #[trigger] x[i].0@ == y[i].0@,
{
    let kx = keys_of(x);
    let ky = keys_of(y);
    assert(names_sorted(kx)) by {
        assert forall|a: int, b: int| 0 <= a < b < kx.len() implies crate::text::seq_lt(#[trigger] kx[a], #[trigger] kx[b]) by {
            assert(kx[a] == x[a].0@ && kx[b] == x[b].0@);
        }
    }
    assert(names_sorted(ky)) by {
        assert forall|a: int, b: int| 0 <= a < b < ky.len() implies crate::text::seq_lt(#[trigger] ky[a], #[trigger] ky[b]) by {
            assert(ky[a] == y[a].0@ && ky[b] == y[b].0@);
        }
    }
    assert forall|i: int| 0 <= i < kx.len() implies ky.contains(#[trigger] kx[i]) by {
        lemma_entries_from_at(x, sm, i);
        let k = x[i].0@;
        assert(sm.contains_key(k) && descriptor_parses(sm[k]));
        let j = choose|j: int| 0 <= j < y.len() && (#[trigger] y[j]).0@ == k;
        assert(ky[j] == k);
    }
    assert forall|j: int| 0 <= j < ky.len() implies kx.contains(#[trigger] ky[j]) by {
        lemma_entries_from_at(y, sm, j);
        let k = y[j].0@;
        assert(sm.contains_key(k) && descriptor_parses(sm[k]));
        let i = choose|i: int| 0 <= i < x.len() && (#[trigger] x[i]).0@ == k;
        assert(kx[i] == k);
    }
    lemma_sorted_same(kx, ky);
    assert forall|i: int| 0 <= i < x.len() implies #[trigger] x[i].0@ == y[i].0@ by {
        assert(kx[i] == x[i].0@ && ky[i] == y[i].0@);
    }
}

/// What reading type information from a value gives is unique: any two
/// readings denote the same value.
pub proof fn lemma_info_from_unique(a: TypeInfo, b: TypeInfo, m: Model)
    requires
        info_from(a, m),
        info_from(b, m),
    ensures
        info_value(a) == info_value(b),
    decreases a,
{
    if let Model::Object(map) = m {
        if map.contains_key("schema"@) && map["schema"@] is Object {
            let sm = map["schema"@]->Object_0;
            let x = a.schema->Some_0.entries@;
            let y = b.schema->Some_0.entries@;
            lemma_entries_same_keys(x, y, sm);
            assert forall|i: int| 0 <= i < x.len() implies x[i].0@ == y[i].0@ && #[trigger] descriptor_value(x[i].1)
                == descriptor_value(y[i].1) by {
                lemma_entries_from_at(x, sm, i);
                lemma_entries_from_at(y, sm, i);
                let dm = sm[x[i].0@]->Object_0;
                assert(decreases_to!(a => a.schema));
                assert(decreases_to!(a.schema => a.schema->Some_0));
                assert(decreases_to!(a.schema->Some_0 => a.schema->Some_0.entries));
                assert(decreases_to!(a.schema->Some_0.entries => a.schema->Some_0.entries[i]));
                assert(decreases_to!(a.schema->Some_0.entries[i] => a.schema->Some_0.entries[i].1));
                assert(decreases_to!(a.schema->Some_0.entries[i].1 => a.schema->Some_0.entries[i].1.type_info));
                lemma_info_from_unique(x[i].1.type_info, y[i].1.type_info, dm["type"@]);
            }
            lemma_same_entries_value(x, y);
        }
    }
    assert(info_value(a) =~~= info_value(b));
}

/// Reading a reference back from a value gives a unique answer: any two
/// references read from the same value denote the same value. With
/// `lemma_reference_roundtrip`, what `Reference::from_value` reads from
/// `r.to_value()` writes back as `r.to_value()` again.
pub proof fn lemma_reference_from_unique(a: Reference, b: Reference, m: Model)
    requires
        reference_from(a, m),
        reference_from(b, m),
    ensures
        reference_value(a) == reference_value(b),
{
    if let Model::Object(map) = m {
        if map.contains_key("type"@) && info_parses(map["type"@]) {
            lemma_info_from_unique(a.type_info->Some_0, b.type_info->Some_0, map["type"@]);
        }
    }
    assert(reference_value(a) =~~= reference_value(b));
}

} // verus!
