//! Checks of the store conventions.
//!
//! Stores promise several semantics by convention rather than by trait
//! signature. Each check here exercises one of them on a store and reports
//! a violation as an error message; run them against a fresh store. They
//! write under top-level components prefixed `conformance_`.
//!
//! Each check hands what the store returned to a judge: a function of that
//! result alone, with an exact contract. Each check's contract names its
//! plan, the calls it makes in order with what passes each, and says that
//! the calls made follow the plan, each answered as the store's own
//! contract allows from the state the previous call left: the check
//! passes exactly when every planned call was made and passed, and
//! otherwise stops at the first call that did not pass.

use vstd::prelude::*;

use crate::error::Error;
use crate::memory_store::MemoryStore;
use crate::path::{path_string, split_path, valid_path, Path};
use crate::record::Record;
use crate::text::{concat, push_str, str_eq, to_owned_string};
use crate::traits::Store;
use crate::value::{Model, Value};

verus! {

/// Whether `got` is a string value equal to `text`.
pub open spec fn is_text(got: Option<Value>, text: Seq<char>) -> bool {
    got matches Some(v) && v.model() == Model::Str(text)
}

/// `Ok` when `got` is the string `expected`; otherwise `message`.
pub fn expect_text(got: &Option<Value>, expected: &str, message: &str) -> (r: Result<(), String>)
    ensures
        r is Ok <==> is_text(*got, expected@),
        r matches Err(m) ==> m@ == message@,
{
    if let Some(Value::String(s)) = got {
        if str_eq(s.as_str(), expected) {
            return Ok(());
        }
    }
    Err(to_owned_string(message))
}

/// `Ok` when nothing was read; otherwise `message`.
pub fn expect_absent(got: &Option<Value>, message: &str) -> (r: Result<(), String>)
    ensures
        r is Ok <==> got is None,
        r matches Err(m) ==> m@ == message@,
{
    match got {
        None => Ok(()),
        Some(_) => Err(to_owned_string(message)),
    }
}

/// `Ok` when a map was read; otherwise `message`.
pub fn expect_map(got: &Option<Value>, message: &str) -> (r: Result<(), String>)
    ensures
        r is Ok <==> (got matches Some(v) && v.model() is Object),
        r matches Err(m) ==> m@ == message@,
{
    match got {
        Some(Value::Object(_)) => Ok(()),
        _ => Err(to_owned_string(message)),
    }
}

/// `Ok` when a map with keys `a` and `b` was read; otherwise `message`.
pub fn expect_map_with(got: &Option<Value>, a: &str, b: &str, message: &str) -> (r: Result<(), String>)
    ensures
        r is Ok <==> (got matches Some(v) && v.model() matches Model::Object(m) && m.contains_key(a@)
            && m.contains_key(b@)),
        r matches Err(m) ==> m@ == message@,
{
    if let Some(Value::Object(m)) = got {
        if m.contains_key(a) && m.contains_key(b) {
            return Ok(());
        }
    }
    Err(to_owned_string(message))
}

/// Whether `names` holds exactly the two distinct names `a` and `b`, in
/// either order.
pub open spec fn lists_pair(names: Seq<String>, a: Seq<char>, b: Seq<char>) -> bool {
    &&& names.len() == 2
    &&& exists|i: int| 0 <= i < 2 && #[trigger] names[i]@ == a
    &&& exists|i: int| 0 <= i < 2 && #[trigger] names[i]@ == b
}

/// `Ok` when exactly the children `a` and `b` were listed, in any order
/// (`a` and `b` distinct); otherwise `message`.
pub fn expect_pair(got: &Option<Vec<String>>, a: &str, b: &str, message: &str) -> (r: Result<(), String>)
    ensures
        r is Ok <==> (got matches Some(names) && lists_pair(names@, a@, b@)),
        r matches Err(m) ==> m@ == message@,
{
    if let Some(names) = got {
        if names.len() == 2 {
            let x = names[0].as_str();
            let y = names[1].as_str();
            let has_a = str_eq(x, a) || str_eq(y, a);
            let has_b = str_eq(x, b) || str_eq(y, b);
            if has_a && has_b {
                return Ok(());
            }
            proof {
                if !has_a {
                    assert forall|i: int| 0 <= i < 2 implies #[trigger] names@[i]@ != a@ by {
                        assert(i == 0 || i == 1);
                    }
                } else {
                    assert forall|i: int| 0 <= i < 2 implies #[trigger] names@[i]@ != b@ by {
                        assert(i == 0 || i == 1);
                    }
                }
            }
        }
    }
    Err(to_owned_string(message))
}

/// `Ok` when nothing was listed; otherwise `message`.
pub fn expect_no_children(got: &Option<Vec<String>>, message: &str) -> (r: Result<(), String>)
    ensures
        r is Ok <==> got is None,
        r matches Err(m) ==> m@ == message@,
{
    match got {
        None => Ok(()),
        Some(_) => Err(to_owned_string(message)),
    }
}

/// What a conformance read of `path` yields from the store's answer: the
/// parsed value, or the failure as a message.
pub fn read_outcome(path: &Path, got: Result<Option<Record>, Error>) -> (r: Result<Option<Value>, String>)
    ensures
        match got {
            Err(e) => r matches Err(m) && m@ == "read "@ + path_string(path@) + " failed: "@ + e.text(),
            Ok(None) => r matches Ok(None),
            Ok(Some(Record::Parsed(v))) => r == Ok::<Option<Value>, String>(Some(v)),
            Ok(Some(Record::Raw { .. })) => r matches Err(m) && m@ == "read "@ + path_string(path@)
                + " returned a raw record"@,
        },
{
    match got {
        Err(e) => {
            let mut m = to_owned_string("read ");
            let p = path.to_string();
            push_str(&mut m, p.as_str());
            push_str(&mut m, " failed: ");
            let t = e.to_string();
            push_str(&mut m, t.as_str());
            Err(m)
        },
        Ok(None) => Ok(None),
        Ok(Some(Record::Parsed(v))) => Ok(Some(v)),
        Ok(Some(Record::Raw { .. })) => {
            let mut m = to_owned_string("read ");
            let p = path.to_string();
            push_str(&mut m, p.as_str());
            push_str(&mut m, " returned a raw record");
            Err(m)
        },
    }
}

/// The message for a failed write: `what`, a colon and the error.
pub fn write_failure(what: &str, e: &Error) -> (r: String)
    ensures
        r@ == what@ + ": "@ + e.text(),
{
    let mut m = to_owned_string(what);
    push_str(&mut m, ": ");
    let t = e.to_string();
    push_str(&mut m, t.as_str());
    m
}

/// `m` reports that reading `path` failed: the store's error, or a raw
/// record where a value was expected.
pub open spec fn read_failure(path: Seq<Seq<char>>, m: Seq<char>) -> bool {
    ||| exists|e: Error| m == "read "@ + path_string(path) + " failed: "@ + #[trigger] e.text()
    ||| m == "read "@ + path_string(path) + " returned a raw record"@
}

/// `m` reports that a write described by `what` failed with some error.
pub open spec fn write_failure_of(what: Seq<char>, m: Seq<char>) -> bool {
    exists|e: Error| m == what + ": "@ + #[trigger] e.text()
}

/// `m` reports that the fixed path `s` does not parse.
pub open spec fn path_failure(s: Seq<char>, m: Seq<char>) -> bool {
    m == "invalid conformance path: "@ + s
}

/// `m` reports a failure of reading at the fixed path `s`.
pub open spec fn read_failure_at(s: Seq<char>, m: Seq<char>) -> bool {
    path_failure(s, m) || read_failure(crate::path::split_path(s), m)
}

/// A read answer that is the string `t`.
pub open spec fn text_answer(g: Result<Option<Record>, Error>, t: Seq<char>) -> bool {
    g matches Ok(Some(Record::Parsed(v))) && v.model() == Model::Str(t)
}

/// A read answer that is a map.
pub open spec fn map_answer(g: Result<Option<Record>, Error>) -> bool {
    g matches Ok(Some(Record::Parsed(v))) && v.model() is Object
}

/// A read answer that is a map with the keys `a` and `b`.
pub open spec fn map_with_answer(g: Result<Option<Record>, Error>, a: Seq<char>, b: Seq<char>) -> bool {
    g matches Ok(Some(Record::Parsed(v))) && (v.model() matches Model::Object(m) && m.contains_key(a) && m.contains_key(b))
}

/// The path that `s` denotes, or the message that it denotes none.
fn fixed_path(s: &str) -> (r: Result<Path, String>)
    ensures
        r is Ok <==> crate::path::valid_path(crate::path::split_path(s@)),
        match r {
            Ok(p) => p@ == crate::path::split_path(s@),
            Err(m) => path_failure(s@, m@),
        },
{
    match Path::parse(s) {
        Ok(p) => Ok(p),
        Err(e) => {
            proof {
                let comps = crate::path::split_path(s@);
                crate::path::lemma_first_invalid(comps, 0);
            }
            Err(concat("invalid conformance path: ", s))
        },
    }
}

/// The failures `check_leaf_roundtrip` reports.
pub open spec fn leaf_roundtrip_failure(m: Seq<char>) -> bool {
    ||| path_failure("conformance_leaf/value"@, m)
    ||| write_failure_of("leaf write failed"@, m)
    ||| read_failure_at("conformance_leaf/value"@, m)
    ||| m == "leaf write/read did not roundtrip"@
}

/// The failures `check_missing_reads_none` reports.
pub open spec fn missing_reads_none_failure(m: Seq<char>) -> bool {
    ||| read_failure_at("conformance_missing/never_written"@, m)
    ||| m == "missing path must read as None, not an error or a value"@
}

/// The failures `check_deep_write_creates_intermediates` reports.
pub open spec fn deep_write_failure(m: Seq<char>) -> bool {
    ||| path_failure("conformance_deep/a/b/c"@, m)
    ||| write_failure_of("deep write must create intermediate maps"@, m)
    ||| deep_prefix_failure("conformance_deep"@, m)
    ||| deep_prefix_failure("conformance_deep/a"@, m)
    ||| deep_prefix_failure("conformance_deep/a/b"@, m)
}

/// `m` reports that the intermediate at `q` is missing or unreadable.
pub open spec fn deep_prefix_failure(q: Seq<char>, m: Seq<char>) -> bool {
    read_failure_at(q, m) || m == "intermediate "@ + q + " must exist as a map after a deep write"@
}

/// The failures `check_prefix_read_returns_children` reports.
pub open spec fn prefix_read_failure(m: Seq<char>) -> bool {
    ||| path_failure("conformance_tree/users/alice"@, m)
    ||| path_failure("conformance_tree/users/bob"@, m)
    ||| write_failure_of("write failed"@, m)
    ||| read_failure_at("conformance_tree/users"@, m)
    ||| m == "prefix read must return a map of children"@
    ||| m == "prefix read must include children as map keys"@
}

/// The failures `check_read_children` reports.
pub open spec fn read_children_failure(m: Seq<char>) -> bool {
    ||| path_failure("conformance_children/x"@, m)
    ||| path_failure("conformance_children/y"@, m)
    ||| path_failure("conformance_children"@, m)
    ||| path_failure("conformance_children_missing"@, m)
    ||| write_failure_of("write failed"@, m)
    ||| write_failure_of("read_children failed"@, m)
    ||| m == "read_children must return Some at an existing prefix"@
    ||| m == "read_children must enumerate direct children"@
    ||| m == "read_children at a missing path must return None"@
}

/// The failures `check_null_write_deletes_subtree` reports.
pub open spec fn null_write_failure(m: Seq<char>) -> bool {
    ||| path_failure("conformance_del/accounts/personal/key"@, m)
    ||| path_failure("conformance_del/accounts_other"@, m)
    ||| path_failure("conformance_del/accounts"@, m)
    ||| write_failure_of("write failed"@, m)
    ||| write_failure_of("null write failed"@, m)
    ||| read_failure_at("conformance_del/accounts"@, m)
    ||| read_failure_at("conformance_del/accounts/personal/key"@, m)
    ||| read_failure_at("conformance_del/accounts_other"@, m)
    ||| m == "null write must delete the node"@
    ||| m == "null write must delete the entire subtree"@
    ||| m == "null write must be component-wise: string-prefix siblings survive"@
}

/// The failures `check_map_write_replaces_subtree` reports.
pub open spec fn map_write_failure(m: Seq<char>) -> bool {
    ||| path_failure("conformance_replace/cfg/stale"@, m)
    ||| path_failure("conformance_replace/cfg"@, m)
    ||| path_failure("conformance_replace/cfg/fresh"@, m)
    ||| write_failure_of("write failed"@, m)
    ||| write_failure_of("map write failed"@, m)
    ||| read_failure_at("conformance_replace/cfg/stale"@, m)
    ||| read_failure_at("conformance_replace/cfg/fresh"@, m)
    ||| m == "map write at a parent must sweep stale descendants"@
    ||| m == "map write must install the new state"@
}

/// Answers that are the string `t`.
pub open spec fn reads_text(t: Seq<char>) -> spec_fn(Result<Option<Record>, Error>) -> bool {
    |g: Result<Option<Record>, Error>| text_answer(g, t)
}

/// The answer that nothing is there.
pub open spec fn reads_nothing() -> spec_fn(Result<Option<Record>, Error>) -> bool {
    |g: Result<Option<Record>, Error>| g matches Ok(None)
}

/// Answers that are a map.
pub open spec fn reads_map() -> spec_fn(Result<Option<Record>, Error>) -> bool {
    |g: Result<Option<Record>, Error>| map_answer(g)
}

/// Answers that are a map with the keys `a` and `b`.
pub open spec fn reads_map_with(a: Seq<char>, b: Seq<char>) -> spec_fn(Result<Option<Record>, Error>) -> bool {
    |g: Result<Option<Record>, Error>| map_with_answer(g, a, b)
}


// ---------------------------------------------------------------------
// Plans and traces: the calls a check makes and what the store answered
// ---------------------------------------------------------------------

/// One call that a check makes, with what counts as passing it.
pub enum Plan {
    /// Read the path; the answer passes when the judge holds of it.
    Read(Seq<Seq<char>>, spec_fn(Result<Option<Record>, Error>) -> bool),
    /// Write a value with this model at the path; it passes when accepted.
    Write(Seq<Seq<char>>, Model),
    /// List the children at the path; the answer passes when the judge
    /// holds of it.
    List(Seq<Seq<char>>, spec_fn(Result<Option<Vec<String>>, Error>) -> bool),
}

/// One call that a check made, with the store's answer.
pub enum Step {
    /// A read of the path, and its answer.
    Read(Seq<Seq<char>>, Result<Option<Record>, Error>),
    /// A write of the record at the path, and its answer.
    Write(Seq<Seq<char>>, Record, Result<Path, Error>),
    /// A child listing at the path, and its answer.
    List(Seq<Seq<char>>, Result<Option<Vec<String>>, Error>),
}

/// The store went from `st` to `next` by the call `x`, answering what `x`
/// records, as far as the store's own contracts say.
pub open spec fn step_from<S: Store>(st: S, x: Step, next: S) -> bool {
    match x {
        Step::Read(p, g) => S::read_answers(&st, p, g) && S::read_state(&next) == S::read_state(&st),
        Step::Write(p, d, w) => S::write_answers(&st, p, d, w) && S::write_moves(&st, p, d, w, S::write_state(&next)),
        Step::List(p, l) => S::read_state(&next) == S::read_state(&st) && (S::lists_as_read(&st) ==> exists|
            g: Result<Option<Record>, Error>,
        | S::read_answers(&st, p, g) && #[trigger] crate::traits::children_from(g, l)),
    }
}

/// The calls `steps`, made in turn from `st`, may have left the store as
/// `end`.
pub open spec fn traced<S: Store>(st: S, steps: Seq<Step>, end: S) -> bool
    decreases steps.len(),
{
    if steps.len() == 0 {
        st == end
    } else {
        exists|mid: S| traced::<S>(st, steps.drop_last(), mid) && #[trigger] step_from::<S>(mid, steps.last(), end)
    }
}

/// The call `x` is the one that `c` plans: same kind, same path, and for
/// a write a parsed record of the planned value.
pub open spec fn fits(c: Plan, x: Step) -> bool {
    match (c, x) {
        (Plan::Read(p, _), Step::Read(q, _)) => p == q,
        (Plan::Write(p, m), Step::Write(q, d, _)) => p == q && (d matches Record::Parsed(v) && v.model() == m),
        (Plan::List(p, _), Step::List(q, _)) => p == q,
        _ => false,
    }
}

/// The answer in `x` passes the plan `c`.
pub open spec fn passes(c: Plan, x: Step) -> bool {
    match (c, x) {
        (Plan::Read(_, ok), Step::Read(_, g)) => ok(g),
        (Plan::Write(_, _), Step::Write(_, _, w)) => w is Ok,
        (Plan::List(_, ok), Step::List(_, l)) => ok(l),
        _ => false,
    }
}

/// The calls made so far are the first ones of `plan`, and each passed.
pub open spec fn on_track(plan: Seq<Plan>, steps: Seq<Step>) -> bool {
    &&& steps.len() <= plan.len()
    &&& forall|i: int| 0 <= i < steps.len() ==> #[trigger] fits(plan[i], steps[i]) && passes(plan[i], steps[i])
}

/// The calls `steps` carried out `plan`: all of it, each passing, when
/// `ok`; otherwise a first part of it, each call passing but the last.
pub open spec fn follows(plan: Seq<Plan>, steps: Seq<Step>, ok: bool) -> bool {
    if ok {
        steps.len() == plan.len() && on_track(plan, steps)
    } else {
        &&& 0 < steps.len() <= plan.len()
        &&& on_track(plan, steps.drop_last())
        &&& fits(plan[steps.len() - 1], steps.last())
        &&& !passes(plan[steps.len() - 1], steps.last())
    }
}

/// One more call, the next one of the plan, extends the trace; it keeps the
/// check on track when it passes, and ends it as failed when it does not.
proof fn lemma_advance<S: Store>(plan: Seq<Plan>, st0: S, steps: Seq<Step>, before: S, x: Step, after: S)
    requires
        traced::<S>(st0, steps, before),
        step_from::<S>(before, x, after),
        on_track(plan, steps),
        steps.len() < plan.len(),
        fits(plan[steps.len() as int], x),
    ensures
        traced::<S>(st0, steps.push(x), after),
        passes(plan[steps.len() as int], x) ==> on_track(plan, steps.push(x)),
        !passes(plan[steps.len() as int], x) ==> follows(plan, steps.push(x), false),
{
    assert(steps.push(x).drop_last() =~= steps);
    assert(traced::<S>(st0, steps.push(x).drop_last(), before));
    assert(steps.push(x).last() == x);
    assert(step_from::<S>(before, steps.push(x).last(), after));
    if passes(plan[steps.len() as int], x) {
        assert forall|i: int| 0 <= i < steps.push(x).len() implies #[trigger] fits(plan[i], steps.push(x)[i])
            && passes(plan[i], steps.push(x)[i]) by {
            if i < steps.len() {
                assert(fits(plan[i], steps[i]));
            }
        }
    }
}

/// Two traces in a row are one trace.
proof fn lemma_traced_concat<S: Store>(a: S, s1: Seq<Step>, b: S, s2: Seq<Step>, c: S)
    requires
        traced::<S>(a, s1, b),
        traced::<S>(b, s2, c),
    ensures
        traced::<S>(a, s1 + s2, c),
    decreases s2.len(),
{
    if s2.len() == 0 {
        assert(s1 + s2 =~= s1);
    } else {
        let mid = choose|mid: S| traced::<S>(b, s2.drop_last(), mid) && #[trigger] step_from::<S>(mid, s2.last(), c);
        lemma_traced_concat(a, s1, b, s2.drop_last(), mid);
        assert((s1 + s2).drop_last() =~= s1 + s2.drop_last());
        assert((s1 + s2).last() == s2.last());
        assert(traced::<S>(a, (s1 + s2).drop_last(), mid));
        assert(step_from::<S>(mid, (s1 + s2).last(), c));
    }
}

/// A plan carried out in full, then another one carried out as far as it
/// went, carry out the two plans in a row as far as they went.
proof fn lemma_then<S: Store>(
    st0: S,
    p1: Seq<Plan>,
    s1: Seq<Step>,
    mid: S,
    p2: Seq<Plan>,
    s2: Seq<Step>,
    end: S,
    ok: bool,
)
    requires
        traced::<S>(st0, s1, mid),
        follows(p1, s1, true),
        traced::<S>(mid, s2, end),
        follows(p2, s2, ok),
    ensures
        traced::<S>(st0, s1 + s2, end),
        follows(p1 + p2, s1 + s2, ok),
{
    lemma_traced_concat(st0, s1, mid, s2, end);
    let s = s1 + s2;
    let p = p1 + p2;
    if ok {
        assert forall|i: int| 0 <= i < s.len() implies #[trigger] fits(p[i], s[i]) && passes(p[i], s[i]) by {
            if i < s1.len() {
                assert(fits(p1[i], s1[i]));
            } else {
                assert(fits(p2[i - s1.len()], s2[i - s1.len()]));
            }
        }
    } else {
        let t = s.drop_last();
        assert(t =~= s1 + s2.drop_last());
        assert forall|i: int| 0 <= i < t.len() implies #[trigger] fits(p[i], t[i]) && passes(p[i], t[i]) by {
            if i < s1.len() {
                assert(fits(p1[i], s1[i]));
            } else {
                assert(fits(p2[i - s1.len()], s2.drop_last()[i - s1.len()]));
            }
        }
        assert(s.last() == s2.last());
        assert(p[s.len() - 1] == p2[s2.len() - 1]);
    }
}

/// A plan that failed part way fails as the first part of a longer plan.
proof fn lemma_stop(p: Seq<Plan>, s: Seq<Step>, total: Seq<Plan>)
    requires
        follows(p, s, false),
        p.len() <= total.len(),
        total.subrange(0, p.len() as int) == p,
    ensures
        follows(total, s, false),
{
    assert forall|i: int| 0 <= i < p.len() implies total[i] == p[i] by {
        assert(total.subrange(0, p.len() as int)[i] == total[i]);
    }
    let t = s.drop_last();
    assert forall|i: int| 0 <= i < t.len() implies #[trigger] fits(total[i], t[i]) && passes(total[i], t[i]) by {
        assert(fits(p[i], t[i]));
    }
}

// ---------------------------------------------------------------------
// The checks
// ---------------------------------------------------------------------

/// Whether the path of `check_leaf_roundtrip` parses.
pub open spec fn leaf_paths_valid() -> bool {
    valid_path(split_path("conformance_leaf/value"@))
}

/// The calls of `check_leaf_roundtrip`: write a string at the leaf, then
/// read the same string back.
pub open spec fn leaf_plan() -> Seq<Plan> {
    let p = split_path("conformance_leaf/value"@);
    seq![Plan::Write(p, Model::Str("roundtrip"@)), Plan::Read(p, reads_text("roundtrip"@))]
}

/// A leaf written at a path reads back equal.
pub fn check_leaf_roundtrip<S: Store>(store: &mut S) -> (r: Result<(), String>)
    ensures
        r matches Err(m) ==> leaf_roundtrip_failure(m@),
        !leaf_paths_valid() ==> r is Err && *final(store) == *old(store),
        leaf_paths_valid() ==> exists|steps: Seq<Step>| #[trigger] traced::<S>(*old(store), steps, *final(store))
            && follows(leaf_plan(), steps, r is Ok),
{
    let ghost st0 = *store;
    let ghost plan = leaf_plan();
    let p = match fixed_path("conformance_leaf/value") {
        Ok(p) => p,
        Err(m) => return Err(m),
    };
    let ghost mut steps: Seq<Step> = Seq::empty();
    let ghost before = *store;
    let d = Record::parsed(Value::String(to_owned_string("roundtrip")));
    let ghost dd = d;
    let w = store.write(&p, d);
    proof {
        let x = Step::Write(p@, dd, w);
        lemma_advance(plan, st0, steps, before, x, *store);
        steps = steps.push(x);
    }
    if let Err(e) = w {
        return Err(write_failure("leaf write failed", &e));
    }
    let ghost before = *store;
    let got = store.read(&p);
    proof {
        let x = Step::Read(p@, got);
        lemma_advance(plan, st0, steps, before, x, *store);
        steps = steps.push(x);
    }
    let v = match read_outcome(&p, got) {
        Ok(v) => v,
        Err(m) => return Err(m),
    };
    expect_text(&v, "roundtrip", "leaf write/read did not roundtrip")
}

/// Whether the path of `check_missing_reads_none` parses.
pub open spec fn missing_paths_valid() -> bool {
    valid_path(split_path("conformance_missing/never_written"@))
}

/// The call of `check_missing_reads_none`: read a path never written and
/// find nothing.
pub open spec fn missing_plan() -> Seq<Plan> {
    seq![Plan::Read(split_path("conformance_missing/never_written"@), reads_nothing())]
}

/// Reading a path that was never written gives `Ok(None)`.
pub fn check_missing_reads_none<S: Store>(store: &mut S) -> (r: Result<(), String>)
    ensures
        r matches Err(m) ==> missing_reads_none_failure(m@),
        !missing_paths_valid() ==> r is Err && *final(store) == *old(store),
        missing_paths_valid() ==> exists|steps: Seq<Step>| #[trigger] traced::<S>(*old(store), steps, *final(store))
            && follows(missing_plan(), steps, r is Ok),
{
    let ghost st0 = *store;
    let ghost plan = missing_plan();
    let p = match fixed_path("conformance_missing/never_written") {
        Ok(p) => p,
        Err(m) => return Err(m),
    };
    let ghost mut steps: Seq<Step> = Seq::empty();
    let ghost before = *store;
    let got = store.read(&p);
    proof {
        let x = Step::Read(p@, got);
        lemma_advance(plan, st0, steps, before, x, *store);
        steps = steps.push(x);
    }
    let v = match read_outcome(&p, got) {
        Ok(v) => v,
        Err(m) => return Err(m),
    };
    expect_absent(&v, "missing path must read as None, not an error or a value")
}

/// `Ok` when the answer `got` to a read of `q`, the intermediate named
/// `name`, is a map; otherwise the message for it.
fn expect_intermediate(q: &Path, got: Result<Option<Record>, Error>, name: &str) -> (r: Result<(), String>)
    requires
        q@ == split_path(name@),
    ensures
        r is Ok <==> map_answer(got),
        r matches Err(m) ==> deep_prefix_failure(name@, m@),
{
    let v = match read_outcome(q, got) {
        Ok(v) => v,
        Err(m) => return Err(m),
    };
    let mut message = to_owned_string("intermediate ");
    push_str(&mut message, name);
    push_str(&mut message, " must exist as a map after a deep write");
    expect_map(&v, message.as_str())
}

/// Whether the paths of `check_deep_write_creates_intermediates` parse.
pub open spec fn deep_paths_valid() -> bool {
    &&& valid_path(split_path("conformance_deep/a/b/c"@))
    &&& valid_path(split_path("conformance_deep"@))
    &&& valid_path(split_path("conformance_deep/a"@))
    &&& valid_path(split_path("conformance_deep/a/b"@))
}

/// The calls of `check_deep_write_creates_intermediates`: write a deep
/// leaf, then read a map at each of its three prefixes, shallowest first.
pub open spec fn deep_plan() -> Seq<Plan> {
    seq![
        Plan::Write(split_path("conformance_deep/a/b/c"@), Model::Integer(1)),
        Plan::Read(split_path("conformance_deep"@), reads_map()),
        Plan::Read(split_path("conformance_deep/a"@), reads_map()),
        Plan::Read(split_path("conformance_deep/a/b"@), reads_map()),
    ]
}

/// Writing a deep path creates the intermediate maps.
pub fn check_deep_write_creates_intermediates<S: Store>(store: &mut S) -> (r: Result<(), String>)
    ensures
        r matches Err(m) ==> deep_write_failure(m@),
        !deep_paths_valid() ==> r is Err && *final(store) == *old(store),
        deep_paths_valid() ==> exists|steps: Seq<Step>| #[trigger] traced::<S>(*old(store), steps, *final(store))
            && follows(deep_plan(), steps, r is Ok),
{
    let ghost st0 = *store;
    let ghost plan = deep_plan();
    let p = match fixed_path("conformance_deep/a/b/c") {
        Ok(p) => p,
        Err(m) => return Err(m),
    };
    let q0 = match fixed_path("conformance_deep") {
        Ok(q) => q,
        Err(m) => return Err(m),
    };
    let q1 = match fixed_path("conformance_deep/a") {
        Ok(q) => q,
        Err(m) => return Err(m),
    };
    let q2 = match fixed_path("conformance_deep/a/b") {
        Ok(q) => q,
        Err(m) => return Err(m),
    };
    let ghost mut steps: Seq<Step> = Seq::empty();
    let ghost before = *store;
    let d = Record::parsed(Value::Integer(1));
    let ghost dd = d;
    let w = store.write(&p, d);
    proof {
        let x = Step::Write(p@, dd, w);
        lemma_advance(plan, st0, steps, before, x, *store);
        steps = steps.push(x);
    }
    if let Err(e) = w {
        return Err(write_failure("deep write must create intermediate maps", &e));
    }
    let ghost before = *store;
    let got = store.read(&q0);
    proof {
        let x = Step::Read(q0@, got);
        lemma_advance(plan, st0, steps, before, x, *store);
        steps = steps.push(x);
    }
    let e0 = expect_intermediate(&q0, got, "conformance_deep");
    if e0.is_err() {
        return e0;
    }
    let ghost before = *store;
    let got = store.read(&q1);
    proof {
        let x = Step::Read(q1@, got);
        lemma_advance(plan, st0, steps, before, x, *store);
        steps = steps.push(x);
    }
    let e1 = expect_intermediate(&q1, got, "conformance_deep/a");
    if e1.is_err() {
        return e1;
    }
    let ghost before = *store;
    let got = store.read(&q2);
    proof {
        let x = Step::Read(q2@, got);
        lemma_advance(plan, st0, steps, before, x, *store);
        steps = steps.push(x);
    }
    expect_intermediate(&q2, got, "conformance_deep/a/b")
}

/// Whether the paths of `check_prefix_read_returns_children` parse.
pub open spec fn prefix_paths_valid() -> bool {
    &&& valid_path(split_path("conformance_tree/users/alice"@))
    &&& valid_path(split_path("conformance_tree/users/bob"@))
    &&& valid_path(split_path("conformance_tree/users"@))
}

/// The calls of `check_prefix_read_returns_children`: write two users, then
/// read a map with both of them at their parent.
pub open spec fn prefix_plan() -> Seq<Plan> {
    seq![
        Plan::Write(split_path("conformance_tree/users/alice"@), Model::Integer(1)),
        Plan::Write(split_path("conformance_tree/users/bob"@), Model::Integer(2)),
        Plan::Read(split_path("conformance_tree/users"@), reads_map_with("alice"@, "bob"@)),
    ]
}

/// Reading at a prefix returns a map containing the children.
pub fn check_prefix_read_returns_children<S: Store>(store: &mut S) -> (r: Result<(), String>)
    ensures
        r matches Err(m) ==> prefix_read_failure(m@),
        !prefix_paths_valid() ==> r is Err && *final(store) == *old(store),
        prefix_paths_valid() ==> exists|steps: Seq<Step>| #[trigger] traced::<S>(*old(store), steps, *final(store))
            && follows(prefix_plan(), steps, r is Ok),
{
    let ghost st0 = *store;
    let ghost plan = prefix_plan();
    let alice = match fixed_path("conformance_tree/users/alice") {
        Ok(p) => p,
        Err(m) => return Err(m),
    };
    let bob = match fixed_path("conformance_tree/users/bob") {
        Ok(p) => p,
        Err(m) => return Err(m),
    };
    let users = match fixed_path("conformance_tree/users") {
        Ok(p) => p,
        Err(m) => return Err(m),
    };
    let ghost mut steps: Seq<Step> = Seq::empty();
    let ghost before = *store;
    let d = Record::parsed(Value::Integer(1));
    let ghost dd = d;
    let w = store.write(&alice, d);
    proof {
        let x = Step::Write(alice@, dd, w);
        lemma_advance(plan, st0, steps, before, x, *store);
        steps = steps.push(x);
    }
    if let Err(e) = w {
        return Err(write_failure("write failed", &e));
    }
    let ghost before = *store;
    let d = Record::parsed(Value::Integer(2));
    let ghost dd = d;
    let w = store.write(&bob, d);
    proof {
        let x = Step::Write(bob@, dd, w);
        lemma_advance(plan, st0, steps, before, x, *store);
        steps = steps.push(x);
    }
    if let Err(e) = w {
        return Err(write_failure("write failed", &e));
    }
    let ghost before = *store;
    let got = store.read(&users);
    proof {
        let x = Step::Read(users@, got);
        lemma_advance(plan, st0, steps, before, x, *store);
        steps = steps.push(x);
    }
    let v = match read_outcome(&users, got) {
        Ok(v) => v,
        Err(m) => return Err(m),
    };
    let first = expect_map(&v, "prefix read must return a map of children");
    if first.is_err() {
        return first;
    }
    expect_map_with(&v, "alice", "bob", "prefix read must include children as map keys")
}

/// Whether the paths of `check_read_children` parse.
pub open spec fn children_paths_valid() -> bool {
    &&& valid_path(split_path("conformance_children/x"@))
    &&& valid_path(split_path("conformance_children/y"@))
    &&& valid_path(split_path("conformance_children"@))
    &&& valid_path(split_path("conformance_children_missing"@))
}

/// Listings that are exactly the names `a` and `b`.
pub open spec fn lists_exactly(a: Seq<char>, b: Seq<char>) -> spec_fn(Result<Option<Vec<String>>, Error>) -> bool {
    |l: Result<Option<Vec<String>>, Error>| l matches Ok(Some(names)) && lists_pair(names@, a, b)
}

/// The listing that nothing is there.
pub open spec fn lists_nothing() -> spec_fn(Result<Option<Vec<String>>, Error>) -> bool {
    |l: Result<Option<Vec<String>>, Error>| l matches Ok(None)
}

/// The calls of `check_read_children`: write two children, list exactly
/// them at their parent, and list nothing at a missing path.
pub open spec fn children_plan() -> Seq<Plan> {
    seq![
        Plan::Write(split_path("conformance_children/x"@), Model::Integer(1)),
        Plan::Write(split_path("conformance_children/y"@), Model::Integer(2)),
        Plan::List(split_path("conformance_children"@), lists_exactly("x"@, "y"@)),
        Plan::List(split_path("conformance_children_missing"@), lists_nothing()),
    ]
}

/// `read_children` lists the direct children at a prefix, and nothing at
/// a missing path.
pub fn check_read_children<S: Store>(store: &mut S) -> (r: Result<(), String>)
    ensures
        r matches Err(m) ==> read_children_failure(m@),
        !children_paths_valid() ==> r is Err && *final(store) == *old(store),
        children_paths_valid() ==> exists|steps: Seq<Step>| #[trigger] traced::<S>(*old(store), steps, *final(store))
            && follows(children_plan(), steps, r is Ok),
{
    let ghost st0 = *store;
    let ghost plan = children_plan();
    let x = match fixed_path("conformance_children/x") {
        Ok(p) => p,
        Err(m) => return Err(m),
    };
    let y = match fixed_path("conformance_children/y") {
        Ok(p) => p,
        Err(m) => return Err(m),
    };
    let parent = match fixed_path("conformance_children") {
        Ok(p) => p,
        Err(m) => return Err(m),
    };
    let missing = match fixed_path("conformance_children_missing") {
        Ok(p) => p,
        Err(m) => return Err(m),
    };
    let ghost mut steps: Seq<Step> = Seq::empty();
    let ghost before = *store;
    let d = Record::parsed(Value::Integer(1));
    let ghost dd = d;
    let w = store.write(&x, d);
    proof {
        let s = Step::Write(x@, dd, w);
        lemma_advance(plan, st0, steps, before, s, *store);
        steps = steps.push(s);
    }
    if let Err(e) = w {
        return Err(write_failure("write failed", &e));
    }
    let ghost before = *store;
    let d = Record::parsed(Value::Integer(2));
    let ghost dd = d;
    let w = store.write(&y, d);
    proof {
        let s = Step::Write(y@, dd, w);
        lemma_advance(plan, st0, steps, before, s, *store);
        steps = steps.push(s);
    }
    if let Err(e) = w {
        return Err(write_failure("write failed", &e));
    }
    let ghost before = *store;
    let listed = store.read_children(&parent);
    proof {
        let s = Step::List(parent@, listed);
        lemma_advance(plan, st0, steps, before, s, *store);
        steps = steps.push(s);
    }
    let names = match listed {
        Ok(Some(names)) => names,
        Ok(None) => {
            return Err(to_owned_string("read_children must return Some at an existing prefix"));
        },
        Err(e) => {
            return Err(write_failure("read_children failed", &e));
        },
    };
    let some = Some(names);
    let pair = expect_pair(&some, "x", "y", "read_children must enumerate direct children");
    if pair.is_err() {
        return pair;
    }
    let ghost before = *store;
    let none = store.read_children(&missing);
    proof {
        let s = Step::List(missing@, none);
        lemma_advance(plan, st0, steps, before, s, *store);
        steps = steps.push(s);
    }
    match none {
        Ok(o) => expect_no_children(&o, "read_children at a missing path must return None"),
        Err(e) => Err(write_failure("read_children failed", &e)),
    }
}

/// Whether the paths of `check_null_write_deletes_subtree` parse.
pub open spec fn null_paths_valid() -> bool {
    &&& valid_path(split_path("conformance_del/accounts/personal/key"@))
    &&& valid_path(split_path("conformance_del/accounts_other"@))
    &&& valid_path(split_path("conformance_del/accounts"@))
}

/// The calls of `check_null_write_deletes_subtree`: write a key deep under
/// a node and a string at a sibling whose name starts with the node's,
/// write null over the node, then read nothing at the node and at the key,
/// and the sibling's string.
pub open spec fn null_plan() -> Seq<Plan> {
    let key = split_path("conformance_del/accounts/personal/key"@);
    let other = split_path("conformance_del/accounts_other"@);
    let accounts = split_path("conformance_del/accounts"@);
    seq![
        Plan::Write(key, Model::Str("secret"@)),
        Plan::Write(other, Model::Str("survivor"@)),
        Plan::Write(accounts, Model::Null),
        Plan::Read(accounts, reads_nothing()),
        Plan::Read(key, reads_nothing()),
        Plan::Read(other, reads_text("survivor"@)),
    ]
}

/// Writing null deletes the node and its entire subtree, and leaves alone
/// a sibling whose name merely starts with the deleted one.
pub fn check_null_write_deletes_subtree<S: Store>(store: &mut S) -> (r: Result<(), String>)
    ensures
        r matches Err(m) ==> null_write_failure(m@),
        !null_paths_valid() ==> r is Err && *final(store) == *old(store),
        null_paths_valid() ==> exists|steps: Seq<Step>| #[trigger] traced::<S>(*old(store), steps, *final(store))
            && follows(null_plan(), steps, r is Ok),
{
    let ghost st0 = *store;
    let ghost plan = null_plan();
    let key = match fixed_path("conformance_del/accounts/personal/key") {
        Ok(p) => p,
        Err(m) => return Err(m),
    };
    let other = match fixed_path("conformance_del/accounts_other") {
        Ok(p) => p,
        Err(m) => return Err(m),
    };
    let accounts = match fixed_path("conformance_del/accounts") {
        Ok(p) => p,
        Err(m) => return Err(m),
    };
    let ghost mut steps: Seq<Step> = Seq::empty();
    let ghost before = *store;
    let d = Record::parsed(Value::String(to_owned_string("secret")));
    let ghost dd = d;
    let w = store.write(&key, d);
    proof {
        let x = Step::Write(key@, dd, w);
        lemma_advance(plan, st0, steps, before, x, *store);
        steps = steps.push(x);
    }
    if let Err(e) = w {
        return Err(write_failure("write failed", &e));
    }
    let ghost before = *store;
    let d = Record::parsed(Value::String(to_owned_string("survivor")));
    let ghost dd = d;
    let w = store.write(&other, d);
    proof {
        let x = Step::Write(other@, dd, w);
        lemma_advance(plan, st0, steps, before, x, *store);
        steps = steps.push(x);
    }
    if let Err(e) = w {
        return Err(write_failure("write failed", &e));
    }
    let ghost before = *store;
    let d = Record::parsed(Value::Null);
    let ghost dd = d;
    let w = store.write(&accounts, d);
    proof {
        let x = Step::Write(accounts@, dd, w);
        lemma_advance(plan, st0, steps, before, x, *store);
        steps = steps.push(x);
    }
    if let Err(e) = w {
        return Err(write_failure("null write failed", &e));
    }
    let ghost before = *store;
    let got = store.read(&accounts);
    proof {
        let x = Step::Read(accounts@, got);
        lemma_advance(plan, st0, steps, before, x, *store);
        steps = steps.push(x);
    }
    let v = match read_outcome(&accounts, got) {
        Ok(v) => v,
        Err(m) => return Err(m),
    };
    let e1 = expect_absent(&v, "null write must delete the node");
    if e1.is_err() {
        return e1;
    }
    let ghost before = *store;
    let got = store.read(&key);
    proof {
        let x = Step::Read(key@, got);
        lemma_advance(plan, st0, steps, before, x, *store);
        steps = steps.push(x);
    }
    let v = match read_outcome(&key, got) {
        Ok(v) => v,
        Err(m) => return Err(m),
    };
    let e2 = expect_absent(&v, "null write must delete the entire subtree");
    if e2.is_err() {
        return e2;
    }
    let ghost before = *store;
    let got = store.read(&other);
    proof {
        let x = Step::Read(other@, got);
        lemma_advance(plan, st0, steps, before, x, *store);
        steps = steps.push(x);
    }
    let v = match read_outcome(&other, got) {
        Ok(v) => v,
        Err(m) => return Err(m),
    };
    expect_text(&v, "survivor", "null write must be component-wise: string-prefix siblings survive")
}

/// The model of the map written over the configuration.
pub open spec fn fresh_config() -> Model {
    Model::Object(Map::<Seq<char>, Model>::empty().insert("fresh"@, Model::Str("new"@)))
}

/// Whether the paths of `check_map_write_replaces_subtree` parse.
pub open spec fn map_paths_valid() -> bool {
    &&& valid_path(split_path("conformance_replace/cfg/stale"@))
    &&& valid_path(split_path("conformance_replace/cfg"@))
    &&& valid_path(split_path("conformance_replace/cfg/fresh"@))
}

/// The calls of `check_map_write_replaces_subtree`: write a stale entry,
/// write a map over its parent, then read nothing at the stale entry and
/// the new string at the fresh one.
pub open spec fn map_plan() -> Seq<Plan> {
    seq![
        Plan::Write(split_path("conformance_replace/cfg/stale"@), Model::Str("old"@)),
        Plan::Write(split_path("conformance_replace/cfg"@), fresh_config()),
        Plan::Read(split_path("conformance_replace/cfg/stale"@), reads_nothing()),
        Plan::Read(split_path("conformance_replace/cfg/fresh"@), reads_text("new"@)),
    ]
}

/// Writing a map at a parent replaces the whole state below it.
pub fn check_map_write_replaces_subtree<S: Store>(store: &mut S) -> (r: Result<(), String>)
    ensures
        r matches Err(m) ==> map_write_failure(m@),
        !map_paths_valid() ==> r is Err && *final(store) == *old(store),
        map_paths_valid() ==> exists|steps: Seq<Step>| #[trigger] traced::<S>(*old(store), steps, *final(store))
            && follows(map_plan(), steps, r is Ok),
{
    let ghost st0 = *store;
    let ghost plan = map_plan();
    let stale = match fixed_path("conformance_replace/cfg/stale") {
        Ok(p) => p,
        Err(m) => return Err(m),
    };
    let cfg = match fixed_path("conformance_replace/cfg") {
        Ok(p) => p,
        Err(m) => return Err(m),
    };
    let fresh = match fixed_path("conformance_replace/cfg/fresh") {
        Ok(p) => p,
        Err(m) => return Err(m),
    };
    let ghost mut steps: Seq<Step> = Seq::empty();
    let ghost before = *store;
    let d = Record::parsed(Value::String(to_owned_string("old")));
    let ghost dd = d;
    let w = store.write(&stale, d);
    proof {
        let x = Step::Write(stale@, dd, w);
        lemma_advance(plan, st0, steps, before, x, *store);
        steps = steps.push(x);
    }
    if let Err(e) = w {
        return Err(write_failure("write failed", &e));
    }
    let mut m = crate::value::ValueMap::new();
    m.insert(to_owned_string("fresh"), Value::String(to_owned_string("new")));
    let config = Value::Object(m);
    assert(config.model() == fresh_config());
    let ghost before = *store;
    let d = Record::parsed(config);
    let ghost dd = d;
    let w = store.write(&cfg, d);
    proof {
        let x = Step::Write(cfg@, dd, w);
        lemma_advance(plan, st0, steps, before, x, *store);
        steps = steps.push(x);
    }
    if let Err(e) = w {
        return Err(write_failure("map write failed", &e));
    }
    let ghost before = *store;
    let got = store.read(&stale);
    proof {
        let x = Step::Read(stale@, got);
        lemma_advance(plan, st0, steps, before, x, *store);
        steps = steps.push(x);
    }
    let v = match read_outcome(&stale, got) {
        Ok(v) => v,
        Err(m) => return Err(m),
    };
    let e1 = expect_absent(&v, "map write at a parent must sweep stale descendants");
    if e1.is_err() {
        return e1;
    }
    let ghost before = *store;
    let got = store.read(&fresh);
    proof {
        let x = Step::Read(fresh@, got);
        lemma_advance(plan, st0, steps, before, x, *store);
        steps = steps.push(x);
    }
    let v = match read_outcome(&fresh, got) {
        Ok(v) => v,
        Err(m) => return Err(m),
    };
    expect_text(&v, "new", "map write must install the new state")
}

/// Whether every path of the convention checks parses.
pub open spec fn conventions_paths_valid() -> bool {
    &&& leaf_paths_valid()
    &&& missing_paths_valid()
    &&& deep_paths_valid()
    &&& prefix_paths_valid()
    &&& children_paths_valid()
    &&& null_paths_valid()
    &&& map_paths_valid()
}

/// The calls of `check_conventions`: those of each check, in turn.
pub open spec fn conventions_plan() -> Seq<Plan> {
    leaf_plan() + missing_plan() + deep_plan() + prefix_plan() + children_plan() + null_plan() + map_plan()
}

/// Run every convention check, stopping at the first violation: it passes
/// when the store answered each call as planned, and fails at the first
/// call answered otherwise.
pub fn check_conventions<S: Store>(store: &mut S) -> (r: Result<(), String>)
    ensures
        r matches Err(m) ==> {
            ||| leaf_roundtrip_failure(m@)
            ||| missing_reads_none_failure(m@)
            ||| deep_write_failure(m@)
            ||| prefix_read_failure(m@)
            ||| read_children_failure(m@)
            ||| null_write_failure(m@)
            ||| map_write_failure(m@)
        },
        !conventions_paths_valid() ==> r is Err,
        conventions_paths_valid() ==> exists|steps: Seq<Step>| #[trigger] traced::<S>(*old(store), steps, *final(store))
            && follows(conventions_plan(), steps, r is Ok),
{
    let ghost st0 = *store;
    let ghost total = conventions_plan();
    let ghost mut done: Seq<Plan> = Seq::empty();
    let ghost mut steps: Seq<Step> = Seq::empty();

    let r1 = check_leaf_roundtrip(store);
    proof {
        if conventions_paths_valid() {
            steps = choose|s: Seq<Step>| #[trigger] traced::<S>(st0, s, *store) && follows(leaf_plan(), s, r1 is Ok);
            done = leaf_plan();
            if r1 is Err {
                assert(total.subrange(0, done.len() as int) =~= done);
                lemma_stop(done, steps, total);
            }
        }
    }
    if r1.is_err() {
        return r1;
    }

    let ghost mid = *store;
    let r2 = check_missing_reads_none(store);
    proof {
        if conventions_paths_valid() {
            let s = choose|s: Seq<Step>| #[trigger] traced::<S>(mid, s, *store) && follows(missing_plan(), s, r2 is Ok);
            lemma_then(st0, done, steps, mid, missing_plan(), s, *store, r2 is Ok);
            done = done + missing_plan();
            steps = steps + s;
            if r2 is Err {
                assert(total.subrange(0, done.len() as int) =~= done);
                lemma_stop(done, steps, total);
            }
        }
    }
    if r2.is_err() {
        return r2;
    }

    let ghost mid = *store;
    let r3 = check_deep_write_creates_intermediates(store);
    proof {
        if conventions_paths_valid() {
            let s = choose|s: Seq<Step>| #[trigger] traced::<S>(mid, s, *store) && follows(deep_plan(), s, r3 is Ok);
            lemma_then(st0, done, steps, mid, deep_plan(), s, *store, r3 is Ok);
            done = done + deep_plan();
            steps = steps + s;
            if r3 is Err {
                assert(total.subrange(0, done.len() as int) =~= done);
                lemma_stop(done, steps, total);
            }
        }
    }
    if r3.is_err() {
        return r3;
    }

    let ghost mid = *store;
    let r4 = check_prefix_read_returns_children(store);
    proof {
        if conventions_paths_valid() {
            let s = choose|s: Seq<Step>| #[trigger] traced::<S>(mid, s, *store) && follows(prefix_plan(), s, r4 is Ok);
            lemma_then(st0, done, steps, mid, prefix_plan(), s, *store, r4 is Ok);
            done = done + prefix_plan();
            steps = steps + s;
            if r4 is Err {
                assert(total.subrange(0, done.len() as int) =~= done);
                lemma_stop(done, steps, total);
            }
        }
    }
    if r4.is_err() {
        return r4;
    }

    let ghost mid = *store;
    let r5 = check_read_children(store);
    proof {
        if conventions_paths_valid() {
            let s = choose|s: Seq<Step>| #[trigger] traced::<S>(mid, s, *store) && follows(children_plan(), s, r5 is Ok);
            lemma_then(st0, done, steps, mid, children_plan(), s, *store, r5 is Ok);
            done = done + children_plan();
            steps = steps + s;
            if r5 is Err {
                assert(total.subrange(0, done.len() as int) =~= done);
                lemma_stop(done, steps, total);
            }
        }
    }
    if r5.is_err() {
        return r5;
    }

    let ghost mid = *store;
    let r6 = check_null_write_deletes_subtree(store);
    proof {
        if conventions_paths_valid() {
            let s = choose|s: Seq<Step>| #[trigger] traced::<S>(mid, s, *store) && follows(null_plan(), s, r6 is Ok);
            lemma_then(st0, done, steps, mid, null_plan(), s, *store, r6 is Ok);
            done = done + null_plan();
            steps = steps + s;
            if r6 is Err {
                assert(total.subrange(0, done.len() as int) =~= done);
                lemma_stop(done, steps, total);
            }
        }
    }
    if r6.is_err() {
        return r6;
    }

    let ghost mid = *store;
    let r7 = check_map_write_replaces_subtree(store);
    proof {
        if conventions_paths_valid() {
            let s = choose|s: Seq<Step>| #[trigger] traced::<S>(mid, s, *store) && follows(map_plan(), s, r7 is Ok);
            lemma_then(st0, done, steps, mid, map_plan(), s, *store, r7 is Ok);
            done = done + map_plan();
            steps = steps + s;
        }
    }
    r7
}

/// A memory store that holds nothing passes the missing-path check: the
/// one read it is asked finds nothing.
pub proof fn lemma_empty_memory_store_passes_missing_check(
    st: MemoryStore,
    steps: Seq<Step>,
    end: MemoryStore,
    ok: bool,
)
    requires
        st.root_model() is None,
        traced::<MemoryStore>(st, steps, end),
        follows(missing_plan(), steps, ok),
    ensures
        ok,
{
    if !ok {
        assert(steps.drop_last() =~= Seq::<Step>::empty());
        let mid = choose|mid: MemoryStore| traced::<MemoryStore>(st, steps.drop_last(), mid)
            && #[trigger] step_from::<MemoryStore>(mid, steps.last(), end);
        assert(mid == st);
    }
}

/// Setting a value anywhere below an empty map succeeds: the missing maps
/// on the way are created.
proof fn lemma_set_into_empty(p: Seq<Seq<char>>, x: Model)
    ensures
        crate::value::set_model(Model::Object(Map::empty()), p, x) is Ok,
    decreases p.len(),
{
    if p.len() > 1 {
        lemma_set_into_empty(p.drop_first(), x);
    }
}

/// A memory store that holds nothing passes the leaf round trip check: the
/// string written at the leaf reads back.
pub proof fn lemma_empty_memory_store_passes_leaf_check(st: MemoryStore, steps: Seq<Step>, end: MemoryStore, ok: bool)
    requires
        st.root_model() is None,
        traced::<MemoryStore>(st, steps, end),
        follows(leaf_plan(), steps, ok),
    ensures
        ok,
{
    if !ok {
        let p = split_path("conformance_leaf/value"@);
        let x = Model::Str("roundtrip"@);
        lemma_set_into_empty(p, x);
        assert(crate::memory_store::write_model(None, p, x).1 is Ok);
        if steps.len() == 1 {
            assert(steps.drop_last() =~= Seq::<Step>::empty());
            let mid = choose|mid: MemoryStore| traced::<MemoryStore>(st, steps.drop_last(), mid)
                && #[trigger] step_from::<MemoryStore>(mid, steps.last(), end);
            assert(mid == st);
        } else {
            let one = steps.drop_last();
            let mid = choose|mid: MemoryStore| traced::<MemoryStore>(st, one, mid)
                && #[trigger] step_from::<MemoryStore>(mid, steps.last(), end);
            assert(one.drop_last() =~= Seq::<Step>::empty());
            let first = choose|m0: MemoryStore| traced::<MemoryStore>(st, one.drop_last(), m0)
                && #[trigger] step_from::<MemoryStore>(m0, one.last(), mid);
            assert(first == st);
            assert(fits(leaf_plan()[0], one[0]));
            assert(one.last() == one[0]);
            assert(mid.root_model() == crate::memory_store::write_model(None, p, x).0);
            crate::memory_store::lemma_write_then_read(None, p, x, Seq::empty());
        }
    }
}

} // verus!
