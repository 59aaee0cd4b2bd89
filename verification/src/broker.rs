//! The HTTP brokers: request handles, and what reads and writes of broker
//! paths answer.
//!
//! A broker queues a request written to its root under a fresh id and
//! answers reads below `outstanding/{id}`. Requests and responses are held
//! as values, their serialized form. Executing a request is outside work:
//! the blocking broker's read asks for it before answering, and the
//! background broker is told when a request has finished; the caller does
//! the work and reports back.

use vstd::prelude::*;

use std::collections::BTreeMap;

use crate::error::Error;
use crate::format::Format;
use crate::http_api::{
    async_broker_docs, async_docs_model, handle_path_parts, navigate_model, navigate_value, parse_handle_path,
    sync_broker_docs, sync_docs_model, RequestState,
};
use crate::path::{path_string, Path};
use crate::record::{Codec, NoCodec, Record};
use crate::text::{decimal, push_str, str_eq, to_owned_string, u64_to_string};
use crate::value::{Model, Value, ValueMap};

verus! {

// ---------------------------------------------------------------------
// Answers
// ---------------------------------------------------------------------

/// What a broker read comes to: a value, nothing, a failure with its
/// message, a request to execute first, or a response still awaited.
pub enum ReadAnswer {
    Value(Model),
    Nothing,
    Fails(Seq<char>),
    Execute(u64),
    Wait,
}

/// The message for an id without a handle.
pub open spec fn not_found_message(id: nat) -> Seq<char> {
    "Request with ID "@ + decimal(id) + " not found"@
}

/// The message for a request that failed.
pub open spec fn failed_message(error: Seq<char>) -> Seq<char> {
    "HTTP request failed: "@ + error
}

/// Following `keys` into `v`, or the failure naming the key that leads
/// nowhere.
pub open spec fn navigated(v: Model, keys: Seq<Seq<char>>) -> ReadAnswer {
    match navigate_model(v, keys, 0) {
        Ok(m) => ReadAnswer::Value(m),
        Err(i) => ReadAnswer::Fails("Path not found at index "@ + decimal(i) + ": '"@ + keys[i as int] + "'"@),
    }
}

/// The message with which a write of a value over a handle is refused.
pub open spec fn overwrite_refusal() -> Seq<char> {
    "Cannot overwrite existing request. Write null to delete, or write to root to queue a new request."@
}

/// The message with which a write elsewhere is refused.
pub open spec fn invalid_write_message(p: Seq<Seq<char>>) -> Seq<char> {
    "Invalid write path '"@ + path_string(p)
        + "'. Write to root to queue a request, or write null to outstanding/{id} to delete."@
}

/// The message with which a request that does not parse is refused.
pub open spec fn bad_request_message(reason: Seq<char>) -> Seq<char> {
    "Data must be an HttpRequest: "@ + reason
}

/// Whether `p` is the path `outstanding/{id}` of a new handle.
pub open spec fn handle_path_of(p: Seq<Seq<char>>, id: u64) -> bool {
    p == seq!["outstanding"@, decimal(id as nat)]
}

proof fn lemma_navigate_err(v: Model, keys: Seq<Seq<char>>, i: nat)
    ensures
        navigate_model(v, keys, i) matches Err(j) ==> i <= j < keys.len(),
    decreases keys.len() - i,
{
    if i < keys.len() {
        let key = keys[i as int];
        match v {
            Model::Object(m) => if m.contains_key(key) {
                lemma_navigate_err(m[key], keys, i + 1);
            },
            Model::Array(a) => match crate::text::parse_usize(key) {
                Some(n) => if n < a.len() {
                    lemma_navigate_err(a[n as int], keys, i + 1);
                },
                None => {},
            },
            _ => {},
        }
    }
}

/// The components of `path` from `start` on, borrowed.
fn keys_from<'a>(path: &'a Path, start: usize) -> (r: Vec<&'a str>)
    requires
        start <= path@.len(),
    ensures
        r@.map_values(|k: &str| k@) == path@.skip(start as int),
{
    let mut out: Vec<&'a str> = Vec::new();
    let mut i: usize = start;
    while i < path.len()
        invariant
            start <= i <= path@.len(),
            out@.len() == i - start,
            forall|k: int| 0 <= k < out@.len() ==> #[trigger] out@[k]@ == path@[start + k],
        decreases path@.len() - i,
    {
        out.push(path.component(i));
        i = i + 1;
    }
    assert(out@.map_values(|k: &str| k@) =~= path@.skip(start as int));
    out
}

/// The store failure of `store`'s read with `message`.
fn read_failure(store: &str, message: &str) -> (r: Error)
    ensures
        r.is_store(store@, "read"@, message@),
{
    Error::store(store, "read", message)
}

/// The read answer of navigating `keys` into `value`.
fn navigated_answer(store: &str, value: Value, keys: &[&str]) -> (r: Result<Option<Record>, Error>)
    ensures
        match navigated(value.model(), keys@.map_values(|k: &str| k@)) {
            ReadAnswer::Value(m) => r matches Ok(Some(Record::Parsed(v))) && v.model() == m,
            ReadAnswer::Fails(msg) => r matches Err(e) && e.is_store(store@, "read"@, msg),
            _ => false,
        },
{
    let ghost ks = keys@.map_values(|k: &str| k@);
    proof {
        lemma_navigate_err(value.model(), ks, 0);
    }
    match navigate_value(value, keys) {
        Ok(v) => Ok(Some(Record::Parsed(v))),
        Err(i) => {
            assert(ks[i as int] == keys@[i as int]@);
            let mut m = to_owned_string("Path not found at index ");
            let d = u64_to_string(i as u64);
            push_str(&mut m, d.as_str());
            push_str(&mut m, ": '");
            push_str(&mut m, keys[i]);
            push_str(&mut m, "'");
            Err(read_failure(store, m.as_str()))
        },
    }
}

/// The message of `store`'s read of a path that is not a broker path.
pub open spec fn invalid_read_message(expected: Seq<char>, p: Seq<Seq<char>>) -> Seq<char> {
    "Invalid path '"@ + path_string(p) + "'. Expected: outstanding, outstanding/{id}, or "@ + expected
}

fn invalid_read(store: &str, expected: &str, from: &Path) -> (r: Error)
    ensures
        r.is_store(store@, "read"@, invalid_read_message(expected@, from@)),
{
    let mut m = to_owned_string("Invalid path '");
    let t = from.to_string();
    push_str(&mut m, t.as_str());
    push_str(&mut m, "'. Expected: outstanding, outstanding/{id}, or ");
    push_str(&mut m, expected);
    read_failure(store, m.as_str())
}

fn not_found(store: &str, id: u64) -> (r: Error)
    ensures
        r.is_store(store@, "read"@, not_found_message(id as nat)),
{
    let mut m = to_owned_string("Request with ID ");
    let d = u64_to_string(id);
    push_str(&mut m, d.as_str());
    push_str(&mut m, " not found");
    read_failure(store, m.as_str())
}

fn request_failed(store: &str, error: &str) -> (r: Error)
    ensures
        r.is_store(store@, "read"@, failed_message(error@)),
{
    let mut m = to_owned_string("HTTP request failed: ");
    push_str(&mut m, error);
    read_failure(store, m.as_str())
}

/// The path `outstanding/{id}`.
fn handle_path(id: u64) -> (r: Path)
    ensures
        handle_path_of(r@, id),
{
    proof {
        crate::path::lemma_decimal_is_component(id as nat);
        reveal_strlit("outstanding");
        crate::path::lemma_ascii_word_is_component("outstanding"@);
    }
    let d = u64_to_string(id);
    let comps = vec![to_owned_string("outstanding"), d];
    assert(comps@.map_values(|s: String| s@) =~= seq!["outstanding"@, decimal(id as nat)]);
    Path::from_validated_components(comps)
}

// ---------------------------------------------------------------------
// The blocking broker
// ---------------------------------------------------------------------

/// A handle of the blocking broker: the request and, once executed, its
/// response or the reason it failed.
pub struct SyncHandle {
    pub request: Value,
    pub outcome: Option<Result<Value, String>>,
}

/// The content of a blocking broker's handle.
pub struct SyncHandleModel {
    pub request: Model,
    pub outcome: Option<Result<Model, Seq<char>>>,
}

impl SyncHandle {
    /// The content of the handle.
    pub open spec fn model(&self) -> SyncHandleModel {
        SyncHandleModel {
            request: self.request.model(),
            outcome: match self.outcome {
                Some(Ok(v)) => Some(Ok(v.model())),
                Some(Err(e)) => Some(Err(e@)),
                None => None,
            },
        }
    }
}

/// The content of an execution outcome.
pub open spec fn outcome_model(o: Result<Value, String>) -> Result<Model, Seq<char>> {
    match o {
        Ok(v) => Ok(v.model()),
        Err(e) => Err(e@),
    }
}

/// The table of the blocking broker's handles, by the handles' content.
pub open spec fn sync_table(t: Map<u64, SyncHandle>) -> Map<u64, SyncHandleModel> {
    t.map_values(|h: SyncHandle| h.model())
}

/// Whether `s` increases strictly.
pub open spec fn increasing_ids(s: Seq<u64>) -> bool {
    forall|i: int, j: int| 0 <= i < j < s.len() ==> s[i] < s[j]
}

/// The ids of the finite set `d`, in increasing order.
pub open spec fn ascending_ids(d: Set<u64>) -> Seq<u64> {
    choose|s: Seq<u64>| increasing_ids(s) && s.to_set() == d
}

/// Two increasing sequences of the same ids are the same sequence.
proof fn lemma_increasing_unique(a: Seq<u64>, b: Seq<u64>)
    requires
        increasing_ids(a),
        increasing_ids(b),
        a.to_set() == b.to_set(),
    ensures
        a == b,
    decreases a.len() + b.len(),
{
    if a.len() == 0 {
        if b.len() > 0 {
            assert(b.to_set().contains(b[0]));
        }
        assert(a =~= b);
    } else if b.len() == 0 {
        assert(a.to_set().contains(a[0]));
    } else {
        let x = a.last();
        let y = b.last();
        assert(a.to_set().contains(x));
        assert(b.to_set().contains(y));
        assert(b.contains(x));
        assert(a.contains(y));
        let i = choose|i: int| 0 <= i < b.len() && b[i] == x;
        let j = choose|j: int| 0 <= j < a.len() && a[j] == y;
        assert(x == y) by {
            if x < y {
                assert(a[j] <= x);
            } else if y < x {
                assert(b[i] <= y);
            }
        }
        let a2 = a.drop_last();
        let b2 = b.drop_last();
        assert(a2.to_set() =~= b2.to_set()) by {
            assert forall|k: u64| a2.to_set().contains(k) implies b2.to_set().contains(k) by {
                let p = choose|p: int| 0 <= p < a2.len() && a2[p] == k;
                assert(a.contains(k) && k < x);
                assert(b.to_set().contains(k));
                let q = choose|q: int| 0 <= q < b.len() && b[q] == k;
                assert(q < b.len() - 1);
                assert(b2[q] == k);
            }
            assert forall|k: u64| b2.to_set().contains(k) implies a2.to_set().contains(k) by {
                let q = choose|q: int| 0 <= q < b2.len() && b2[q] == k;
                assert(b.contains(k) && k < y);
                assert(a.to_set().contains(k));
                let p = choose|p: int| 0 <= p < a.len() && a[p] == k;
                assert(p < a.len() - 1);
                assert(a2[p] == k);
            }
        }
        lemma_increasing_unique(a2, b2);
        assert(a =~= a2.push(x));
        assert(b =~= b2.push(y));
    }
}

/// The listing of a set of ids: the ids in increasing order, as integers.
pub open spec fn id_listing(d: Set<u64>) -> Model {
    Model::Array(ascending_ids(d).map_values(|id: u64| Model::Integer(id as i64)))
}

/// The blocking broker: requests written to its root are queued, and the
/// first read of a handle's response executes the request; later reads
/// give the same, cached, result.
pub struct SyncBroker {
    handles: BTreeMap<u64, SyncHandle>,
    next_id: u64,
}

/// What a read of the blocking broker gives: an answer, or a request to
/// execute (whose outcome goes to `record_outcome`) before reading again.
pub enum SyncRead {
    Answer(Result<Option<Record>, Error>),
    Execute(u64, Value),
}

/// What reading `p` of a blocking broker whose handles are `t` comes to.
pub open spec fn sync_read_answer(t: Map<u64, SyncHandleModel>, p: Seq<Seq<char>>) -> ReadAnswer {
    if p.len() > 0 && p[0] == "docs"@ {
        ReadAnswer::Value(sync_docs_model())
    } else if p.len() == 1 && p[0] == "outstanding"@ {
        ReadAnswer::Value(id_listing(t.dom()))
    } else {
        match handle_path_parts(p) {
            None => ReadAnswer::Fails(invalid_read_message("outstanding/{id}/request"@, p)),
            Some((id, _)) => if !t.contains_key(id as u64) {
                ReadAnswer::Fails(not_found_message(id))
            } else {
                let h = t[id as u64];
                let sub = p.skip(2);
                if sub.len() > 0 && sub[0] == "request"@ {
                    navigated(h.request, sub.skip(1))
                } else if sub.len() == 0 || sub[0] == "response"@ {
                    match h.outcome {
                        None => ReadAnswer::Execute(id as u64),
                        Some(Ok(resp)) => navigated(resp, if sub.len() == 0 { sub } else { sub.skip(1) }),
                        Some(Err(e)) => ReadAnswer::Fails(failed_message(e)),
                    }
                } else {
                    ReadAnswer::Fails("Unknown sub-path '"@ + sub[0] + "'. Use 'request' or 'response'."@)
                }
            },
        }
    }
}

/// The value listing `ids`, each as an integer.
fn ids_value(ids: &Vec<u64>) -> (r: Value)
    ensures
        r.model() == Model::Array(ids@.map_values(|id: u64| Model::Integer(id as i64))),
{
    let mut items: Vec<Value> = Vec::new();
    let mut i: usize = 0;
    while i < ids.len()
        invariant
            i <= ids@.len(),
            items@.len() == i,
            forall|k: int| 0 <= k < i ==> (#[trigger] items@[k]).model() == Model::Integer(ids@[k] as i64),
        decreases ids@.len() - i,
    {
        items.push(Value::Integer(ids[i] as i64));
        i = i + 1;
    }
    proof {
        crate::value::lemma_seq_model(items@);
    }
    let r = Value::Array(items);
    assert(crate::value::seq_model(items@) =~= ids@.map_values(|id: u64| Model::Integer(id as i64)));
    r
}

impl SyncBroker {
    #[verifier::type_invariant]
    closed spec fn wf(self) -> bool {
        forall|k: u64| #[trigger] self.handles@.contains_key(k) ==> k < self.next_id
    }

    /// The handles by id.
    pub closed spec fn table(self) -> Map<u64, SyncHandleModel> {
        sync_table(self.handles@)
    }

    /// The id the next queued request gets.
    pub closed spec fn next(self) -> u64 {
        self.next_id
    }

    /// A broker with no handles.
    pub fn new() -> (r: SyncBroker)
        ensures
            r.table() == Map::<u64, SyncHandleModel>::empty(),
            r.next() == 0,
    {
        let r = SyncBroker { handles: BTreeMap::new(), next_id: 0 };
        assert(r.table() =~= Map::<u64, SyncHandleModel>::empty());
        r
    }

    /// The id the next queued request gets.
    pub fn next_id(&self) -> (r: u64)
        ensures
            r == self.next(),
    {
        self.next_id
    }

    /// Whether a handle with `id` exists.
    pub fn has_handle(&self, id: u64) -> (r: bool)
        ensures
            r == self.table().contains_key(id),
    {
        broadcast use crate::handles::group_ordered_table;
        self.handles.contains_key(&id)
    }

    /// The number of handles.
    pub fn handle_count(&self) -> (r: usize)
        ensures
            r == self.table().len(),
    {
        broadcast use crate::handles::group_ordered_table;
        assert(self.table().dom() =~= self.handles@.dom());
        self.handles.len()
    }

    /// The ids of the handles, increasing.
    fn live_ids(&self) -> (r: Vec<u64>)
        ensures
            r@ == ascending_ids(self.table().dom()),
    {
        broadcast use crate::handles::group_ordered_table;
        let ghost ks = vstd::std_specs::iter::IteratorSpec::remaining(&vstd::std_specs::btree::spec_keys_iter(&self.handles));
        let mut out: Vec<u64> = Vec::new();
        for k in it: self.handles.keys()
            invariant
                it.seq() == ks,
                out@ == ks.take(it.index()).unref(),
        {
            out.push(*k);
            assert(ks.take(it.index() + 1).unref() =~= ks.take(it.index()).unref().push(*ks[it.index()]));
        }
        proof {
            assert(out@ =~= ks.unref());
            crate::handles::lemma_keys_increase(ks);
            assert(self.table().dom() =~= self.handles@.dom());
            assert(out@.to_set() =~= self.table().dom()) by {
                assert forall|k: u64| out@.to_set().contains(k) <==> self.table().dom().contains(k) by {
                    assert(ks.unref().to_set().contains(k) <==> ks.unref().contains(k));
                }
            }
            let a = ascending_ids(self.table().dom());
            assert(increasing_ids(out@));
            lemma_increasing_unique(a, out@);
        }
        out
    }

    /// What reading `from` gives.
    pub fn read(&self, from: &Path) -> (r: SyncRead)
        ensures
            match sync_read_answer(self.table(), from@) {
                ReadAnswer::Value(m) => r matches SyncRead::Answer(Ok(Some(Record::Parsed(v)))) && v.model() == m,
                ReadAnswer::Nothing => r matches SyncRead::Answer(Ok(None)),
                ReadAnswer::Fails(msg) => r matches SyncRead::Answer(Err(e)) && e.is_store(
                    "http_broker"@,
                    "read"@,
                    msg,
                ),
                ReadAnswer::Execute(id) => r matches SyncRead::Execute(i, request) && i == id && self.table().contains_key(id)
                    && request.model() == self.table()[id].request,
                ReadAnswer::Wait => false,
            },
    {
        broadcast use crate::handles::group_ordered_table;
        let ghost t = self.table();
        let ghost p = from@;
        if !from.is_empty() && str_eq(from.component(0), "docs") {
            return SyncRead::Answer(Ok(Some(Record::Parsed(sync_broker_docs()))));
        }
        if from.len() == 1 && str_eq(from.component(0), "outstanding") {
            let ids = self.live_ids();
            let v = ids_value(&ids);
            return SyncRead::Answer(Ok(Some(Record::Parsed(v))));
        }
        let id = match parse_handle_path(from) {
            Some((id, _)) => id,
            None => {
                return SyncRead::Answer(Err(invalid_read("http_broker", "outstanding/{id}/request", from)));
            },
        };
        let handle = match self.handles.get(&id) {
            Some(h) => h,
            None => {
                return SyncRead::Answer(Err(not_found("http_broker", id)));
            },
        };
        assert(t[id] == handle.model());
        let keys = keys_from(from, 2);
        assert(keys@.map_values(|k: &str| k@) == p.skip(2));
        let n = keys.len();
        if n > 0 && str_eq(keys[0], "request") {
            let rest = keys_from(from, 3);
            assert(p.skip(2).skip(1) =~= p.skip(3));
            return SyncRead::Answer(navigated_answer("http_broker", handle.request.deep_clone(), rest.as_slice()));
        }
        if n == 0 || str_eq(keys[0], "response") {
            match &handle.outcome {
                None => {
                    return SyncRead::Execute(id, handle.request.deep_clone());
                },
                Some(Ok(resp)) => {
                    let rest = if n == 0 {
                        keys_from(from, 2)
                    } else {
                        assert(p.skip(2).skip(1) =~= p.skip(3));
                        keys_from(from, 3)
                    };
                    return SyncRead::Answer(navigated_answer("http_broker", resp.deep_clone(), rest.as_slice()));
                },
                Some(Err(e)) => {
                    return SyncRead::Answer(Err(request_failed("http_broker", e.as_str())));
                },
            }
        }
        let mut m = to_owned_string("Unknown sub-path '");
        push_str(&mut m, keys[0]);
        push_str(&mut m, "'. Use 'request' or 'response'.");
        SyncRead::Answer(Err(read_failure("http_broker", m.as_str())))
    }

    /// Record the outcome of executing the request of handle `id`: the
    /// first outcome stays; a handle that is gone or already executed is
    /// left as it is.
    pub fn record_outcome(&mut self, id: u64, outcome: Result<Value, String>)
        ensures
            final(self).next() == old(self).next(),
            final(self).table() == if old(self).table().contains_key(id) && old(self).table()[id].outcome is None {
                old(self).table().insert(
                    id,
                    SyncHandleModel { request: old(self).table()[id].request, outcome: Some(outcome_model(outcome)) },
                )
            } else {
                old(self).table()
            },
    {
        broadcast use crate::handles::group_ordered_table;
        proof {
            use_type_invariant(&*self);
        }
        let ghost t = self.table();
        match self.handles.get(&id) {
            Some(h) => {
                if h.outcome.is_some() {
                    return;
                }
            },
            None => {
                return;
            },
        }
        let mut hs: BTreeMap<u64, SyncHandle> = BTreeMap::new();
        std::mem::swap(&mut hs, &mut self.handles);
        let ghost old_hs = hs@;
        let taken = hs.remove(&id);
        match taken {
            Some(h) => {
                let entry = SyncHandle { request: h.request, outcome: Some(outcome) };
                let ghost nm = entry.model();
                hs.insert(id, entry);
                proof {
                    assert(hs@ =~= old_hs.insert(id, entry));
                    assert(sync_table(hs@) =~= t.insert(id, nm));
                }
            },
            None => {},
        }
        self.handles = hs;
    }

    /// Write `data` at `to`: `null` at `outstanding/{id}` deletes that
    /// handle, a request at the root is queued under the next id (`parsed`
    /// is what reading the written value as a request gave), and anything
    /// else is refused.
    pub fn write(&mut self, to: &Path, data: Record, parsed: Result<Value, String>) -> (r: Result<Path, Error>)
        requires
            to@.len() == 0 && data is Parsed && parsed is Ok ==> old(self).next() < u64::MAX,
        ensures
            match data {
                Record::Raw { format, .. } => *final(self) == *old(self) && (r matches Err(Error::UnsupportedFormat(f))
                    && f@ == format@),
                Record::Parsed(v) => match handle_path_parts(to@) {
                    Some((id, None)) => if v.model() is Null {
                        &&& final(self).table() == old(self).table().remove(id as u64)
                        &&& final(self).next() == old(self).next()
                        &&& r matches Ok(q) && q@ == to@
                    } else {
                        *final(self) == *old(self) && (r matches Err(e) && e.is_store(
                            "http_broker"@,
                            "write"@,
                            overwrite_refusal(),
                        ))
                    },
                    _ => if to@.len() == 0 {
                        match parsed {
                            Err(m) => *final(self) == *old(self) && (r matches Err(Error::Decode { format, message })
                                && format@ == "application/json"@ && message@ == bad_request_message(m@)),
                            Ok(req) => {
                                &&& !old(self).table().contains_key(old(self).next())
                                &&& final(self).table() == old(self).table().insert(
                                    old(self).next(),
                                    SyncHandleModel { request: req.model(), outcome: None },
                                )
                                &&& final(self).next() == old(self).next() + 1
                                &&& r matches Ok(q) && handle_path_of(q@, old(self).next())
                            },
                        }
                    } else {
                        *final(self) == *old(self) && (r matches Err(e) && e.is_store(
                            "http_broker"@,
                            "write"@,
                            invalid_write_message(to@),
                        ))
                    },
                },
            },
    {
        broadcast use crate::handles::group_ordered_table;
        proof {
            use_type_invariant(&*self);
        }
        let ghost t = self.table();
        let value = match data {
            Record::Parsed(v) => v,
            Record::Raw { bytes, format } => {
                return match NoCodec.decode(&bytes, &format) {
                    Ok(_) => Err(Error::UnsupportedFormat(format)),
                    Err(e) => Err(e),
                };
            },
        };
        match parse_handle_path(to) {
            Some((id, None)) => {
                if value.is_null() {
                    let mut hs: BTreeMap<u64, SyncHandle> = BTreeMap::new();
                    std::mem::swap(&mut hs, &mut self.handles);
                    let ghost old_hs = hs@;
                    let _ = hs.remove(&id);
                    proof {
                        assert(sync_table(hs@) =~= t.remove(id));
                    }
                    self.handles = hs;
                    return Ok(to.duplicate());
                }
                return Err(
                    Error::store(
                        "http_broker",
                        "write",
                        "Cannot overwrite existing request. Write null to delete, or write to root to queue a new request.",
                    ),
                );
            },
            _ => {},
        }
        if to.is_empty() {
            match parsed {
                Err(m) => {
                    let mut message = to_owned_string("Data must be an HttpRequest: ");
                    push_str(&mut message, m.as_str());
                    Err(Error::decode(Format::JSON, message.as_str()))
                },
                Ok(req) => {
                    let id = self.next_id;
                    let mut hs: BTreeMap<u64, SyncHandle> = BTreeMap::new();
                    std::mem::swap(&mut hs, &mut self.handles);
                    let entry = SyncHandle { request: req, outcome: None };
                    let ghost nm = entry.model();
                    let ghost old_hs = hs@;
                    hs.insert(id, entry);
                    proof {
                        assert(sync_table(hs@) =~= t.insert(id, nm));
                    }
                    *self = SyncBroker { handles: hs, next_id: id + 1 };
                    Ok(handle_path(id))
                },
            }
        } else {
            let mut message = to_owned_string("Invalid write path '");
            let p = to.to_string();
            push_str(&mut message, p.as_str());
            push_str(
                &mut message,
                "'. Write to root to queue a request, or write null to outstanding/{id} to delete.",
            );
            Err(Error::store("http_broker", "write", message.as_str()))
        }
    }
}

// ---------------------------------------------------------------------
// The background broker
// ---------------------------------------------------------------------

/// A handle of the background broker: the request, its state, the error
/// once failed and the response once complete.
pub struct AsyncHandle {
    pub request: Value,
    pub state: RequestState,
    pub error: Option<String>,
    pub response: Option<Value>,
}

/// The content of a background broker's handle.
pub struct AsyncHandleModel {
    pub request: Model,
    pub state: RequestState,
    pub error: Option<Seq<char>>,
    pub response: Option<Model>,
}

impl AsyncHandle {
    /// The content of the handle.
    pub open spec fn model(&self) -> AsyncHandleModel {
        AsyncHandleModel {
            request: self.request.model(),
            state: self.state,
            error: match self.error {
                Some(e) => Some(e@),
                None => None,
            },
            response: match self.response {
                Some(v) => Some(v.model()),
                None => None,
            },
        }
    }
}

/// A pending handle after its request finished with `outcome`: complete
/// with the response, or failed with the error.
pub open spec fn finished(h: AsyncHandleModel, outcome: Result<Model, Seq<char>>) -> AsyncHandleModel {
    match outcome {
        Ok(resp) => AsyncHandleModel { state: RequestState::Complete, response: Some(resp), ..h },
        Err(e) => AsyncHandleModel { state: RequestState::Failed, error: Some(e), ..h },
    }
}

/// The table of the background broker's handles, by the handles' content.
pub open spec fn async_table(t: Map<u64, AsyncHandle>) -> Map<u64, AsyncHandleModel> {
    t.map_values(|h: AsyncHandle| h.model())
}

/// The serialized form of a typed reference: its path and the name of its
/// type.
pub open spec fn reference_model(path: Seq<char>, kind: Seq<char>) -> Model {
    Model::Object(
        Map::<Seq<char>, Model>::empty().insert("path"@, Model::Str(path)).insert(
            "type"@,
            Model::Object(Map::<Seq<char>, Model>::empty().insert("name"@, Model::Str(kind))),
        ),
    )
}

/// The serialized name of a request state.
pub open spec fn state_name(s: RequestState) -> Seq<char> {
    match s {
        RequestState::Pending => "pending"@,
        RequestState::Complete => "complete"@,
        RequestState::Failed => "failed"@,
    }
}

/// The serialized status of request `id`: its state, the error when it
/// failed, a reference to the request, and one to the response once
/// complete.
pub open spec fn status_model(id: u64, state: RequestState, error: Option<Seq<char>>) -> Model {
    let idt = decimal(id as nat);
    let base = Map::<Seq<char>, Model>::empty().insert("state"@, Model::Str(state_name(state))).insert(
        "request"@,
        reference_model(crate::http_api::handle_part(idt, "request"@), "http-request"@),
    );
    let with_error = match error {
        Some(e) => base.insert("error"@, Model::Str(e)),
        None => base,
    };
    Model::Object(
        if state == RequestState::Complete {
            with_error.insert(
                "response"@,
                reference_model(crate::http_api::handle_part(idt, "response"@), "http-response"@),
            )
        } else {
            with_error
        },
    )
}

fn reference_value(path: &str, kind: &str) -> (r: Value)
    ensures
        r.model() == reference_model(path@, kind@),
{
    let mut ty = ValueMap::new();
    ty.insert(to_owned_string("name"), Value::String(to_owned_string(kind)));
    let mut m = ValueMap::new();
    m.insert(to_owned_string("path"), Value::String(to_owned_string(path)));
    m.insert(to_owned_string("type"), Value::Object(ty));
    proof {
        reveal_strlit("name");
        reveal_strlit("path");
        reveal_strlit("type");
    }
    let r = Value::Object(m);
    assert(r.model() =~~= reference_model(path@, kind@));
    r
}

fn part_of(id: &str, what: &str) -> (r: String)
    ensures
        r@ == crate::http_api::handle_part(id@, what@),
{
    let mut s = to_owned_string("outstanding/");
    push_str(&mut s, id);
    push_str(&mut s, "/");
    push_str(&mut s, what);
    s
}

/// The serialized status of request `id`.
fn status_value(id: u64, state: RequestState, error: &Option<String>) -> (r: Value)
    ensures
        r.model() == status_model(
            id,
            state,
            match error {
                Some(e) => Some(e@),
                None => None,
            },
        ),
{
    let idt = u64_to_string(id);
    let name = match state {
        RequestState::Pending => "pending",
        RequestState::Complete => "complete",
        RequestState::Failed => "failed",
    };
    let mut m = ValueMap::new();
    m.insert(to_owned_string("state"), Value::String(to_owned_string(name)));
    let rp = part_of(idt.as_str(), "request");
    m.insert(to_owned_string("request"), reference_value(rp.as_str(), "http-request"));
    match error {
        Some(e) => {
            m.insert(to_owned_string("error"), Value::String(e.clone()));
        },
        None => {},
    }
    if state == RequestState::Complete {
        let sp = part_of(idt.as_str(), "response");
        m.insert(to_owned_string("response"), reference_value(sp.as_str(), "http-response"));
    }
    proof {
        reveal_strlit("state");
        reveal_strlit("request");
        reveal_strlit("error");
        reveal_strlit("response");
        reveal_strlit("pending");
        reveal_strlit("complete");
        reveal_strlit("failed");
    }
    let r = Value::Object(m);
    assert(r.model() =~~= status_model(
        id,
        state,
        match error {
            Some(e) => Some(e@),
            None => None,
        },
    ));
    r
}

/// The background broker: requests written to its root are queued and run
/// in the background; reads give a handle's status, its request, and its
/// response once there (or wait for it).
pub struct AsyncBroker {
    handles: BTreeMap<u64, AsyncHandle>,
    next_id: u64,
}

/// What a read of the background broker gives: an answer, or the news
/// that the awaited response is not there yet (read again later).
pub enum AsyncRead {
    Answer(Result<Option<Record>, Error>),
    Wait,
}

/// The failure message of a failed background request.
pub open spec fn async_failed_message(error: Option<Seq<char>>) -> Seq<char> {
    failed_message(
        match error {
            Some(e) => e,
            None => "unknown error"@,
        },
    )
}

/// What reading `p` of a background broker whose handles are `t` comes to.
pub open spec fn async_read_answer(t: Map<u64, AsyncHandleModel>, p: Seq<Seq<char>>) -> ReadAnswer {
    if p.len() > 0 && p[0] == "docs"@ {
        ReadAnswer::Value(async_docs_model())
    } else if p.len() == 1 && p[0] == "outstanding"@ {
        ReadAnswer::Value(id_listing(t.dom()))
    } else {
        match handle_path_parts(p) {
            None => ReadAnswer::Fails(invalid_read_message("outstanding/{id}/..."@, p)),
            Some((id, _)) => {
                let sub = p.skip(2);
                match t.get(id as u64) {
                    None => ReadAnswer::Fails(not_found_message(id)),
                    Some(h) => if sub.len() >= 2 && sub[0] == "response"@ && sub[1] == "wait"@ {
                        match h.response {
                            Some(resp) => navigated(resp, sub.skip(2)),
                            None => if h.state == RequestState::Failed {
                                ReadAnswer::Fails(async_failed_message(h.error))
                            } else {
                                ReadAnswer::Wait
                            },
                        }
                    } else if sub.len() > 0 && sub[0] == "request"@ {
                        navigated(h.request, sub.skip(1))
                    } else if sub.len() > 0 && sub[0] == "response"@ {
                        match h.response {
                            Some(resp) => navigated(resp, sub.skip(1)),
                            None => if h.state == RequestState::Failed {
                                ReadAnswer::Fails(async_failed_message(h.error))
                            } else {
                                ReadAnswer::Nothing
                            },
                        }
                    } else if sub.len() == 0 {
                        ReadAnswer::Value(status_model(id as u64, h.state, h.error))
                    } else {
                        ReadAnswer::Fails(
                            "Unknown sub-path '"@ + sub[0] + "'. Use 'request', 'response', or 'response/wait'."@,
                        )
                    },
                }
            },
        }
    }
}

impl AsyncBroker {
    #[verifier::type_invariant]
    closed spec fn wf(self) -> bool {
        forall|k: u64| #[trigger] self.handles@.contains_key(k) ==> k < self.next_id
    }

    /// The handles by id.
    pub closed spec fn table(self) -> Map<u64, AsyncHandleModel> {
        async_table(self.handles@)
    }

    /// The id the next queued request gets.
    pub closed spec fn next(self) -> u64 {
        self.next_id
    }

    /// A broker with no handles.
    pub fn new() -> (r: AsyncBroker)
        ensures
            r.table() == Map::<u64, AsyncHandleModel>::empty(),
            r.next() == 0,
    {
        let r = AsyncBroker { handles: BTreeMap::new(), next_id: 0 };
        assert(r.table() =~= Map::<u64, AsyncHandleModel>::empty());
        r
    }

    /// The ids of the handles, increasing.
    fn live_ids(&self) -> (r: Vec<u64>)
        ensures
            r@ == ascending_ids(self.table().dom()),
    {
        broadcast use crate::handles::group_ordered_table;
        let ghost ks = vstd::std_specs::iter::IteratorSpec::remaining(&vstd::std_specs::btree::spec_keys_iter(&self.handles));
        let mut out: Vec<u64> = Vec::new();
        for k in it: self.handles.keys()
            invariant
                it.seq() == ks,
                out@ == ks.take(it.index()).unref(),
        {
            out.push(*k);
            assert(ks.take(it.index() + 1).unref() =~= ks.take(it.index()).unref().push(*ks[it.index()]));
        }
        proof {
            assert(out@ =~= ks.unref());
            crate::handles::lemma_keys_increase(ks);
            assert(self.table().dom() =~= self.handles@.dom());
            assert(out@.to_set() =~= self.table().dom()) by {
                assert forall|k: u64| out@.to_set().contains(k) <==> self.table().dom().contains(k) by {
                    assert(ks.unref().to_set().contains(k) <==> ks.unref().contains(k));
                }
            }
            let a = ascending_ids(self.table().dom());
            assert(increasing_ids(out@));
            lemma_increasing_unique(a, out@);
        }
        out
    }

    /// The id the next queued request gets.
    pub fn next_id(&self) -> (r: u64)
        ensures
            r == self.next(),
    {
        self.next_id
    }

    /// What reading `from` gives.
    pub fn read(&self, from: &Path) -> (r: AsyncRead)
        ensures
            match async_read_answer(self.table(), from@) {
                ReadAnswer::Value(m) => r matches AsyncRead::Answer(Ok(Some(Record::Parsed(v)))) && v.model() == m,
                ReadAnswer::Nothing => r matches AsyncRead::Answer(Ok(None)),
                ReadAnswer::Fails(msg) => r matches AsyncRead::Answer(Err(e)) && e.is_store(
                    "async_http_broker"@,
                    "read"@,
                    msg,
                ),
                ReadAnswer::Wait => r is Wait,
                ReadAnswer::Execute(_) => false,
            },
    {
        broadcast use crate::handles::group_ordered_table;
        let ghost t = self.table();
        let ghost p = from@;
        if !from.is_empty() && str_eq(from.component(0), "docs") {
            return AsyncRead::Answer(Ok(Some(Record::Parsed(async_broker_docs()))));
        }
        if from.len() == 1 && str_eq(from.component(0), "outstanding") {
            let ids = self.live_ids();
            let v = ids_value(&ids);
            return AsyncRead::Answer(Ok(Some(Record::Parsed(v))));
        }
        let id = match parse_handle_path(from) {
            Some((id, _)) => id,
            None => {
                return AsyncRead::Answer(Err(invalid_read("async_http_broker", "outstanding/{id}/...", from)));
            },
        };
        let handle = match self.handles.get(&id) {
            Some(h) => h,
            None => {
                return AsyncRead::Answer(Err(not_found("async_http_broker", id)));
            },
        };
        assert(t[id] == handle.model());
        let keys = keys_from(from, 2);
        assert(keys@.map_values(|k: &str| k@) == p.skip(2));
        let n = keys.len();
        if n >= 2 && str_eq(keys[0], "response") && str_eq(keys[1], "wait") {
            return match &handle.response {
                Some(resp) => {
                    let rest = keys_from(from, 4);
                    assert(p.skip(2).skip(2) =~= p.skip(4));
                    AsyncRead::Answer(navigated_answer("async_http_broker", resp.deep_clone(), rest.as_slice()))
                },
                None => if handle.state == RequestState::Failed {
                    AsyncRead::Answer(Err(async_failure(&handle.error)))
                } else {
                    AsyncRead::Wait
                },
            };
        }
        if n > 0 && str_eq(keys[0], "request") {
            let rest = keys_from(from, 3);
            assert(p.skip(2).skip(1) =~= p.skip(3));
            return AsyncRead::Answer(navigated_answer("async_http_broker", handle.request.deep_clone(), rest.as_slice()));
        }
        if n > 0 && str_eq(keys[0], "response") {
            return match &handle.response {
                Some(resp) => {
                    let rest = keys_from(from, 3);
                    assert(p.skip(2).skip(1) =~= p.skip(3));
                    AsyncRead::Answer(navigated_answer("async_http_broker", resp.deep_clone(), rest.as_slice()))
                },
                None => if handle.state == RequestState::Failed {
                    AsyncRead::Answer(Err(async_failure(&handle.error)))
                } else {
                    AsyncRead::Answer(Ok(None))
                },
            };
        }
        if n == 0 {
            return AsyncRead::Answer(Ok(Some(Record::Parsed(status_value(id, handle.state, &handle.error)))));
        }
        let mut m = to_owned_string("Unknown sub-path '");
        push_str(&mut m, keys[0]);
        push_str(&mut m, "'. Use 'request', 'response', or 'response/wait'.");
        AsyncRead::Answer(Err(read_failure("async_http_broker", m.as_str())))
    }

    /// Record that request `id` finished with `outcome`: a response
    /// completes it, an error fails it. A handle that is gone or no longer
    /// pending is left as it is.
    pub fn finish(&mut self, id: u64, outcome: Result<Value, String>)
        ensures
            final(self).next() == old(self).next(),
            final(self).table() == if old(self).table().contains_key(id) && old(self).table()[id].state
                == RequestState::Pending {
                old(self).table().insert(id, finished(old(self).table()[id], outcome_model(outcome)))
            } else {
                old(self).table()
            },
    {
        broadcast use crate::handles::group_ordered_table;
        proof {
            use_type_invariant(&*self);
        }
        let ghost t = self.table();
        match self.handles.get(&id) {
            Some(h) => {
                if h.state != RequestState::Pending {
                    return;
                }
            },
            None => {
                return;
            },
        }
        let mut hs: BTreeMap<u64, AsyncHandle> = BTreeMap::new();
        std::mem::swap(&mut hs, &mut self.handles);
        let ghost old_hs = hs@;
        let taken = hs.remove(&id);
        match taken {
            Some(h) => {
                let updated = match outcome {
                    Ok(resp) => AsyncHandle { request: h.request, state: RequestState::Complete, error: h.error, response: Some(resp) },
                    Err(e) => AsyncHandle { request: h.request, state: RequestState::Failed, error: Some(e), response: h.response },
                };
                let ghost nm = updated.model();
                hs.insert(id, updated);
                proof {
                    assert(nm == finished(t[id], outcome_model(outcome)));
                    assert(hs@ =~= old_hs.insert(id, updated));
                    assert(async_table(hs@) =~= t.insert(id, nm));
                }
            },
            None => {},
        }
        self.handles = hs;
    }

    /// Write `data` at `to`: `null` at `outstanding/{id}` deletes that
    /// handle, a request at the root is queued under the next id, pending
    /// (`parsed` is what reading the written value as a request gave; the
    /// id of a newly queued request comes back beside the path, for the
    /// caller to start it), and anything else is refused.
    pub fn write(&mut self, to: &Path, data: Record, parsed: Result<Value, String>) -> (r: Result<(Path, Option<u64>), Error>)
        requires
            to@.len() == 0 && data is Parsed && parsed is Ok ==> old(self).next() < u64::MAX,
        ensures
            match data {
                Record::Raw { format, .. } => *final(self) == *old(self) && (r matches Err(Error::UnsupportedFormat(f))
                    && f@ == format@),
                Record::Parsed(v) => match handle_path_parts(to@) {
                    Some((id, None)) => if v.model() is Null {
                        &&& final(self).table() == old(self).table().remove(id as u64)
                        &&& final(self).next() == old(self).next()
                        &&& r matches Ok((q, started)) && q@ == to@ && started is None
                    } else {
                        *final(self) == *old(self) && (r matches Err(e) && e.is_store(
                            "async_http_broker"@,
                            "write"@,
                            overwrite_refusal(),
                        ))
                    },
                    _ => if to@.len() == 0 {
                        match parsed {
                            Err(m) => *final(self) == *old(self) && (r matches Err(Error::Decode { format, message })
                                && format@ == "application/json"@ && message@ == bad_request_message(m@)),
                            Ok(req) => {
                                &&& !old(self).table().contains_key(old(self).next())
                                &&& final(self).table() == old(self).table().insert(
                                    old(self).next(),
                                    AsyncHandleModel {
                                        request: req.model(),
                                        state: RequestState::Pending,
                                        error: None,
                                        response: None,
                                    },
                                )
                                &&& final(self).next() == old(self).next() + 1
                                &&& r matches Ok((q, started)) && handle_path_of(q@, old(self).next()) && started
                                    == Some(old(self).next())
                            },
                        }
                    } else {
                        *final(self) == *old(self) && (r matches Err(e) && e.is_store(
                            "async_http_broker"@,
                            "write"@,
                            invalid_write_message(to@),
                        ))
                    },
                },
            },
    {
        broadcast use crate::handles::group_ordered_table;
        proof {
            use_type_invariant(&*self);
        }
        let ghost t = self.table();
        let value = match data {
            Record::Parsed(v) => v,
            Record::Raw { bytes, format } => {
                return match NoCodec.decode(&bytes, &format) {
                    Ok(_) => Err(Error::UnsupportedFormat(format)),
                    Err(e) => Err(e),
                };
            },
        };
        match parse_handle_path(to) {
            Some((id, None)) => {
                if value.is_null() {
                    let mut hs: BTreeMap<u64, AsyncHandle> = BTreeMap::new();
                    std::mem::swap(&mut hs, &mut self.handles);
                    let _ = hs.remove(&id);
                    proof {
                        assert(async_table(hs@) =~= t.remove(id));
                    }
                    self.handles = hs;
                    return Ok((to.duplicate(), None));
                }
                return Err(
                    Error::store(
                        "async_http_broker",
                        "write",
                        "Cannot overwrite existing request. Write null to delete, or write to root to queue a new request.",
                    ),
                );
            },
            _ => {},
        }
        if to.is_empty() {
            match parsed {
                Err(m) => {
                    let mut message = to_owned_string("Data must be an HttpRequest: ");
                    push_str(&mut message, m.as_str());
                    Err(Error::decode(Format::JSON, message.as_str()))
                },
                Ok(req) => {
                    let id = self.next_id;
                    let mut hs: BTreeMap<u64, AsyncHandle> = BTreeMap::new();
                    std::mem::swap(&mut hs, &mut self.handles);
                    let entry = AsyncHandle { request: req, state: RequestState::Pending, error: None, response: None };
                    let ghost nm = entry.model();
                    hs.insert(id, entry);
                    proof {
                        assert(async_table(hs@) =~= t.insert(id, nm));
                    }
                    *self = AsyncBroker { handles: hs, next_id: id + 1 };
                    Ok((handle_path(id), Some(id)))
                },
            }
        } else {
            let mut message = to_owned_string("Invalid write path '");
            let p = to.to_string();
            push_str(&mut message, p.as_str());
            push_str(
                &mut message,
                "'. Write to root to queue a request, or write null to outstanding/{id} to delete.",
            );
            Err(Error::store("async_http_broker", "write", message.as_str()))
        }
    }
}

fn async_failure(error: &Option<String>) -> (r: Error)
    ensures
        r.is_store(
            "async_http_broker"@,
            "read"@,
            async_failed_message(
                match error {
                    Some(e) => Some(e@),
                    None => None,
                },
            ),
        ),
{
    match error {
        Some(e) => request_failed("async_http_broker", e.as_str()),
        None => request_failed("async_http_broker", "unknown error"),
    }
}

// ---------------------------------------------------------------------
// Laws
// ---------------------------------------------------------------------

/// The handle path `outstanding/{id}` followed by `rest` is recognized as
/// a path below handle `id`, and is neither the documentation nor the
/// listing.
proof fn lemma_handle_parts(id: u64, rest: Seq<Seq<char>>)
    ensures
        ({
            let p = seq!["outstanding"@, decimal(id as nat)] + rest;
            &&& handle_path_parts(p) matches Some((i, _)) && i == id
            &&& p.len() >= 2
            &&& p[0] != "docs"@
            &&& p.skip(2) == rest
        }),
{
    let p = seq!["outstanding"@, decimal(id as nat)] + rest;
    crate::text::lemma_decimal_digits(id as nat);
    reveal_strlit("outstanding");
    reveal_strlit("docs");
    assert(p[0] == "outstanding"@);
    assert(p[1] == decimal(id as nat));
    assert(crate::text::is_digit(decimal(id as nat)[0]));
    assert(crate::text::parse_u64(p[1]) == Some(id as nat));
    assert("outstanding"@[0] != "docs"@[0]);
    assert(p.skip(2) =~= rest);
}

/// A request queued in the blocking broker reads back at
/// `outstanding/{id}/request`.
pub proof fn lemma_sync_queued_request_reads_back(t: Map<u64, SyncHandleModel>, next: u64, req: Model)
    ensures
        sync_read_answer(
            t.insert(next, SyncHandleModel { request: req, outcome: None }),
            seq!["outstanding"@, decimal(next as nat), "request"@],
        ) == ReadAnswer::Value(req),
{
    lemma_handle_parts(next, seq!["request"@]);
    assert(seq!["outstanding"@, decimal(next as nat)] + seq!["request"@] =~= seq![
        "outstanding"@,
        decimal(next as nat),
        "request"@,
    ]);
    assert(seq!["request"@].skip(1) =~= Seq::<Seq<char>>::empty());
}

/// The first read of a handle's response in the blocking broker asks for
/// the request to be executed; once the outcome is recorded, reads answer
/// it and never ask again: the response is cached.
pub proof fn lemma_sync_read_executes_once(
    t: Map<u64, SyncHandleModel>,
    t2: Map<u64, SyncHandleModel>,
    id: u64,
    outcome: Result<Model, Seq<char>>,
)
    requires
        t.contains_key(id) && t[id].outcome is None,
        t2.contains_key(id) && t2[id] == (SyncHandleModel { request: t[id].request, outcome: Some(outcome) }),
    ensures
        sync_read_answer(t, seq!["outstanding"@, decimal(id as nat)]) == ReadAnswer::Execute(id),
        sync_read_answer(t2, seq!["outstanding"@, decimal(id as nat)]) == match outcome {
            Ok(resp) => ReadAnswer::Value(resp),
            Err(e) => ReadAnswer::Fails(failed_message(e)),
        },
{
    lemma_handle_parts(id, Seq::empty());
    assert(seq!["outstanding"@, decimal(id as nat)] + Seq::<Seq<char>>::empty() =~= seq![
        "outstanding"@,
        decimal(id as nat),
    ]);
}

/// After a handle is deleted, reading it fails as not found.
pub proof fn lemma_sync_deleted_handle_is_gone(t: Map<u64, SyncHandleModel>, id: u64)
    ensures
        sync_read_answer(t.remove(id), seq!["outstanding"@, decimal(id as nat)]) == ReadAnswer::Fails(
            not_found_message(id as nat),
        ),
{
    lemma_handle_parts(id, Seq::empty());
    assert(seq!["outstanding"@, decimal(id as nat)] + Seq::<Seq<char>>::empty() =~= seq![
        "outstanding"@,
        decimal(id as nat),
    ]);
}

/// A request queued in the background broker reads as pending at its
/// handle, and its response reads as not there yet.
pub proof fn lemma_async_queued_is_pending(t: Map<u64, AsyncHandleModel>, next: u64, req: Model)
    ensures
        ({
            let t2 = t.insert(
                next,
                AsyncHandleModel { request: req, state: RequestState::Pending, error: None, response: None },
            );
            &&& async_read_answer(t2, seq!["outstanding"@, decimal(next as nat)]) == ReadAnswer::Value(
                status_model(next, RequestState::Pending, None),
            )
            &&& async_read_answer(t2, seq!["outstanding"@, decimal(next as nat), "response"@]) == ReadAnswer::Nothing
            &&& async_read_answer(t2, seq!["outstanding"@, decimal(next as nat), "response"@, "wait"@])
                == ReadAnswer::Wait
        }),
{
    reveal_strlit("response");
    reveal_strlit("wait");
    reveal_strlit("request");
    lemma_handle_parts(next, Seq::empty());
    assert(seq!["outstanding"@, decimal(next as nat)] + Seq::<Seq<char>>::empty() =~= seq![
        "outstanding"@,
        decimal(next as nat),
    ]);
    lemma_handle_parts(next, seq!["response"@]);
    assert(seq!["outstanding"@, decimal(next as nat)] + seq!["response"@] =~= seq![
        "outstanding"@,
        decimal(next as nat),
        "response"@,
    ]);
    lemma_handle_parts(next, seq!["response"@, "wait"@]);
    assert(seq!["outstanding"@, decimal(next as nat)] + seq!["response"@, "wait"@] =~= seq![
        "outstanding"@,
        decimal(next as nat),
        "response"@,
        "wait"@,
    ]);
    assert("response"@[0] != "request"@[2]);
}

/// Once a background request finished with a response, its status is
/// complete and its response (waited for or not) reads back; once it
/// failed, reading its response fails with the error.
pub proof fn lemma_async_finished_reads(
    t: Map<u64, AsyncHandleModel>,
    id: u64,
    h: AsyncHandleModel,
    outcome: Result<Model, Seq<char>>,
)
    requires
        h.state == RequestState::Pending,
        h.error is None,
        h.response is None,
        t.contains_key(id) && t[id] == finished(h, outcome),
    ensures
        async_read_answer(t, seq!["outstanding"@, decimal(id as nat), "response"@]) == match outcome {
            Ok(resp) => ReadAnswer::Value(resp),
            Err(e) => ReadAnswer::Fails(failed_message(e)),
        },
        async_read_answer(t, seq!["outstanding"@, decimal(id as nat), "response"@, "wait"@]) == match outcome {
            Ok(resp) => ReadAnswer::Value(resp),
            Err(e) => ReadAnswer::Fails(failed_message(e)),
        },
        outcome is Ok ==> async_read_answer(t, seq!["outstanding"@, decimal(id as nat)]) == ReadAnswer::Value(
            status_model(id, RequestState::Complete, None),
        ),
{
    reveal_strlit("response");
    reveal_strlit("wait");
    reveal_strlit("request");
    lemma_handle_parts(id, Seq::empty());
    assert(seq!["outstanding"@, decimal(id as nat)] + Seq::<Seq<char>>::empty() =~= seq![
        "outstanding"@,
        decimal(id as nat),
    ]);
    lemma_handle_parts(id, seq!["response"@]);
    assert(seq!["outstanding"@, decimal(id as nat)] + seq!["response"@] =~= seq![
        "outstanding"@,
        decimal(id as nat),
        "response"@,
    ]);
    lemma_handle_parts(id, seq!["response"@, "wait"@]);
    assert(seq!["outstanding"@, decimal(id as nat)] + seq!["response"@, "wait"@] =~= seq![
        "outstanding"@,
        decimal(id as nat),
        "response"@,
        "wait"@,
    ]);
    assert(seq!["response"@].skip(1) =~= Seq::<Seq<char>>::empty());
    assert(seq!["response"@, "wait"@].skip(2) =~= Seq::<Seq<char>>::empty());
    assert("response"@[0] != "request"@[2]);
}

} // verus!
