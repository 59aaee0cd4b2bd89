//! The HTTP stores' own vocabulary: methods, request handles and their
//! status, navigation into response values, and the stores' documentation.

use vstd::prelude::*;

use crate::path::{path_string, Path};
use crate::reference::Reference;
use crate::text::{concat, parse_usize_str, push_str, str_eq, to_owned_string};
use crate::value::{Model, Value, ValueMap};
use http::Method as HttpMethod;

verus! {

// ---------------------------------------------------------------------
// Methods
// ---------------------------------------------------------------------

/// An HTTP method.
#[derive(Debug, Clone, Copy, PartialEq, Eq, Structural)]
#[allow(non_camel_case_types, clippy::upper_case_acronyms)]
pub enum Method {
    GET,
    POST,
    PUT,
    DELETE,
    PATCH,
    HEAD,
    OPTIONS,
}

/// The request method of the `http` crate.
#[verifier::external_type_specification]
#[verifier::external_body]
pub struct ExHttpMethod(HttpMethod);

/// The method's name, in upper case.
pub open spec fn method_name(m: Method) -> Seq<char> {
    match m {
        Method::GET => "GET"@,
        Method::POST => "POST"@,
        Method::PUT => "PUT"@,
        Method::DELETE => "DELETE"@,
        Method::PATCH => "PATCH"@,
        Method::HEAD => "HEAD"@,
        Method::OPTIONS => "OPTIONS"@,
    }
}

/// The method a name denotes; any other name falls back to `GET`.
pub open spec fn method_of_name(s: Seq<char>) -> Method {
    if s == "POST"@ {
        Method::POST
    } else if s == "PUT"@ {
        Method::PUT
    } else if s == "DELETE"@ {
        Method::DELETE
    } else if s == "PATCH"@ {
        Method::PATCH
    } else if s == "HEAD"@ {
        Method::HEAD
    } else if s == "OPTIONS"@ {
        Method::OPTIONS
    } else {
        Method::GET
    }
}

impl Method {
    /// The method's name.
    pub fn name(&self) -> (r: &'static str)
        ensures
            r@ == method_name(*self),
    {
        match self {
            Method::GET => "GET",
            Method::POST => "POST",
            Method::PUT => "PUT",
            Method::DELETE => "DELETE",
            Method::PATCH => "PATCH",
            Method::HEAD => "HEAD",
            Method::OPTIONS => "OPTIONS",
        }
    }

    /// The method named `s`; `GET` for any other name.
    pub fn from_name(s: &str) -> (r: Method)
        ensures
            r == method_of_name(s@),
    {
        if str_eq(s, "POST") {
            Method::POST
        } else if str_eq(s, "PUT") {
            Method::PUT
        } else if str_eq(s, "DELETE") {
            Method::DELETE
        } else if str_eq(s, "PATCH") {
            Method::PATCH
        } else if str_eq(s, "HEAD") {
            Method::HEAD
        } else if str_eq(s, "OPTIONS") {
            Method::OPTIONS
        } else {
            Method::GET
        }
    }
}

impl Default for Method {
    fn default() -> (r: Method)
        ensures
            r == Method::GET,
    {
        Method::GET
    }
}

/// `http::Method::from_bytes` (http crate) on a method name; the standard
/// names this library passes always parse. Nothing is claimed of the
/// result, which Verus does not see into.
#[verifier::external_body]
fn http_method_from_name(name: &str) -> HttpMethod {
    HttpMethod::from_bytes(name.as_bytes()).unwrap_or_default()
}

/// `http::Method::as_str` (http crate): the method's name. Nothing is
/// claimed of it.
#[verifier::external_body]
fn http_method_text(m: &HttpMethod) -> String {
    m.as_str().to_string()
}

impl From<Method> for HttpMethod {
    fn from(method: Method) -> HttpMethod {
        http_method_from_name(method.name())
    }
}

impl vstd::std_specs::convert::FromSpecImpl<Method> for HttpMethod {
    open spec fn obeys_from_spec() -> bool {
        false
    }

    open spec fn from_spec(method: Method) -> HttpMethod {
        arbitrary()
    }
}

impl From<HttpMethod> for Method {
    fn from(method: HttpMethod) -> Method {
        let name = http_method_text(&method);
        Method::from_name(name.as_str())
    }
}

impl vstd::std_specs::convert::FromSpecImpl<HttpMethod> for Method {
    open spec fn obeys_from_spec() -> bool {
        false
    }

    open spec fn from_spec(method: HttpMethod) -> Method {
        arbitrary()
    }
}

// ---------------------------------------------------------------------
// Request handles
// ---------------------------------------------------------------------

/// The state of a background HTTP request.
#[derive(Debug, Clone, Copy, PartialEq, Eq, Structural)]
pub enum RequestState {
    /// In progress.
    Pending,
    /// Completed successfully.
    Complete,
    /// Failed with an error.
    Failed,
}

/// A reference to a value at another path, in its serialized shape.
#[derive(Debug, Clone)]
pub struct SerializableReference {
    /// The path of the referenced value.
    pub path: String,
    /// Optional type information.
    pub type_info: Option<SerializableTypeInfo>,
}

/// Type information of a serialized reference.
#[derive(Debug, Clone)]
pub struct SerializableTypeInfo {
    /// The type name, such as "http-request" or "http-response".
    pub name: String,
}

impl SerializableReference {
    /// A reference with a type name.
    pub fn with_type(path: &str, kind: &str) -> (r: SerializableReference)
        ensures
            r.path@ == path@,
            r.type_info matches Some(ti) && ti.name@ == kind@,
    {
        SerializableReference { path: to_owned_string(path), type_info: Some(SerializableTypeInfo { name: to_owned_string(kind) }) }
    }
}

impl From<Reference> for SerializableReference {
    fn from(r: Reference) -> (s: SerializableReference)
        ensures
            s.path@ == r.path@,
            match r.type_info {
                Some(ti) => s.type_info matches Some(t) && t.name@ == ti.name@,
                None => s.type_info is None,
            },
    {
        SerializableReference {
            path: r.path,
            type_info: match r.type_info {
                Some(ti) => Some(SerializableTypeInfo { name: ti.name }),
                None => None,
            },
        }
    }
}

impl vstd::std_specs::convert::FromSpecImpl<Reference> for SerializableReference {
    open spec fn obeys_from_spec() -> bool {
        false
    }

    open spec fn from_spec(r: Reference) -> SerializableReference {
        arbitrary()
    }
}

/// The status of a background request's handle, with references to the
/// request and, once complete, the response.
#[derive(Debug, Clone)]
pub struct RequestStatus {
    /// The request's state.
    pub state: RequestState,
    /// The error message when the request failed.
    pub error: Option<String>,
    /// The request as it was queued.
    pub request: SerializableReference,
    /// The response, once complete.
    pub response: Option<SerializableReference>,
}

/// The path of the `what` of request `id`: `outstanding/{id}/{what}`.
pub open spec fn handle_part(id: Seq<char>, what: Seq<char>) -> Seq<char> {
    "outstanding/"@ + id + "/"@ + what
}

fn part_path(id: &str, what: &str) -> (r: String)
    ensures
        r@ == handle_part(id@, what@),
{
    let mut s = to_owned_string("outstanding/");
    push_str(&mut s, id);
    push_str(&mut s, "/");
    push_str(&mut s, what);
    s
}

/// Whether `r` is the typed reference to `path` of type `kind`.
pub open spec fn typed_reference(r: SerializableReference, path: Seq<char>, kind: Seq<char>) -> bool {
    r.path@ == path && (r.type_info matches Some(ti) && ti.name@ == kind)
}

impl RequestStatus {
    /// The status of a request still in progress.
    pub fn pending(id: String) -> (r: RequestStatus)
        ensures
            r.state == RequestState::Pending,
            r.error is None,
            typed_reference(r.request, handle_part(id@, "request"@), "http-request"@),
            r.response is None,
    {
        let p = part_path(id.as_str(), "request");
        RequestStatus {
            state: RequestState::Pending,
            error: None,
            request: SerializableReference::with_type(p.as_str(), "http-request"),
            response: None,
        }
    }

    /// The status of a completed request.
    pub fn complete(id: String) -> (r: RequestStatus)
        ensures
            r.state == RequestState::Complete,
            r.error is None,
            typed_reference(r.request, handle_part(id@, "request"@), "http-request"@),
            r.response matches Some(resp) && typed_reference(resp, handle_part(id@, "response"@), "http-response"@),
    {
        let p = part_path(id.as_str(), "request");
        let q = part_path(id.as_str(), "response");
        RequestStatus {
            state: RequestState::Complete,
            error: None,
            request: SerializableReference::with_type(p.as_str(), "http-request"),
            response: Some(SerializableReference::with_type(q.as_str(), "http-response")),
        }
    }

    /// The status of a failed request.
    pub fn failed(id: String, error: String) -> (r: RequestStatus)
        ensures
            r.state == RequestState::Failed,
            r.error == Some(error),
            typed_reference(r.request, handle_part(id@, "request"@), "http-request"@),
            r.response is None,
    {
        let p = part_path(id.as_str(), "request");
        RequestStatus {
            state: RequestState::Failed,
            error: Some(error),
            request: SerializableReference::with_type(p.as_str(), "http-request"),
            response: None,
        }
    }

    /// Whether the request is in progress.
    pub fn is_pending(&self) -> (r: bool)
        ensures
            r == (self.state == RequestState::Pending),
    {
        self.state == RequestState::Pending
    }

    /// Whether the request completed.
    pub fn is_complete(&self) -> (r: bool)
        ensures
            r == (self.state == RequestState::Complete),
    {
        self.state == RequestState::Complete
    }

    /// Whether the request failed.
    pub fn is_failed(&self) -> (r: bool)
        ensures
            r == (self.state == RequestState::Failed),
    {
        self.state == RequestState::Failed
    }
}

// ---------------------------------------------------------------------
// Navigation and handle paths
// ---------------------------------------------------------------------

/// Following `keys` into `v`: map keys select entries, decimal indices
/// select array elements; the index of the first key that leads nowhere
/// otherwise.
pub open spec fn navigate_model(v: Model, keys: Seq<Seq<char>>, i: nat) -> Result<Model, nat>
    decreases keys.len() - i,
{
    if i >= keys.len() {
        Ok(v)
    } else {
        let key = keys[i as int];
        match v {
            Model::Object(m) => if m.contains_key(key) {
                navigate_model(m[key], keys, i + 1)
            } else {
                Err(i)
            },
            Model::Array(a) => match crate::text::parse_usize(key) {
                Some(n) => if n < a.len() {
                    navigate_model(a[n as int], keys, i + 1)
                } else {
                    Err(i)
                },
                None => Err(i),
            },
            _ => Err(i),
        }
    }
}

/// Navigate into `value` along `keys`; on failure, the index of the first
/// key that leads nowhere.
pub fn navigate_value(value: Value, keys: &[&str]) -> (r: Result<Value, usize>)
    ensures
        match navigate_model(value.model(), keys@.map_values(|k: &str| k@), 0) {
            Ok(m) => r matches Ok(v) && v.model() == m,
            Err(i) => r == Err::<Value, usize>(i as usize),
        },
{
    let ghost ks = keys@.map_values(|k: &str| k@);
    let mut current = value;
    let mut i: usize = 0;
    while i < keys.len()
        invariant
            i <= keys@.len(),
            ks == keys@.map_values(|k: &str| k@),
            navigate_model(value.model(), ks, 0) == navigate_model(current.model(), ks, i as nat),
        decreases keys@.len() - i,
    {
        let key = keys[i];
        assert(ks[i as int] == key@);
        let next = match &current {
            Value::Object(m) => match m.get(key) {
                Some(v) => v.deep_clone(),
                None => {
                    return Err(i);
                },
            },
            Value::Array(a) => match parse_usize_str(key) {
                Some(n) => {
                    proof {
                        crate::value::lemma_seq_model(a@);
                    }
                    if n < a.len() {
                        a[n].deep_clone()
                    } else {
                        return Err(i);
                    }
                },
                None => {
                    return Err(i);
                },
            },
            _ => {
                return Err(i);
            },
        };
        current = next;
        i = i + 1;
    }
    Ok(current)
}

/// The request id and the rest of the path (joined with `/`) for paths of
/// the shape `outstanding/{id}[/...]`.
pub open spec fn handle_path_parts(p: Seq<Seq<char>>) -> Option<(nat, Option<Seq<char>>)> {
    if p.len() >= 2 && p[0] == "outstanding"@ && crate::text::parse_u64(p[1]) is Some {
        Some(
            (
                crate::text::parse_u64(p[1])->Some_0,
                if p.len() > 2 {
                    Some(path_string(p.skip(2)))
                } else {
                    None
                },
            ),
        )
    } else {
        None
    }
}

/// Parse `outstanding/{id}[/sub...]` into the id and the rest as a
/// string; `None` for the listing path and any other shape.
pub fn parse_handle_path(path: &Path) -> (r: Option<(u64, Option<String>)>)
    ensures
        match r {
            Some((id, sub)) => handle_path_parts(path@) matches Some((i, s)) && i == id && match sub {
                Some(t) => s == Some(t@),
                None => s is None,
            },
            None => handle_path_parts(path@) is None,
        },
{
    if path.is_empty() || !str_eq(path.component(0), "outstanding") {
        return None;
    }
    if path.len() == 1 {
        return None;
    }
    let id = match crate::text::parse_u64_str(path.component(1)) {
        Some(id) => id,
        None => {
            return None;
        },
    };
    let sub = if path.len() > 2 {
        let rest = path.slice(2, path.len());
        assert(path@.subrange(2, path@.len() as int) =~= path@.skip(2));
        Some(rest.to_string())
    } else {
        None
    };
    Some((id, sub))
}

// ---------------------------------------------------------------------
// Documentation
// ---------------------------------------------------------------------

/// The map that string pairs denote (a later pair wins).
pub open spec fn text_map(pairs: Seq<(Seq<char>, Seq<char>)>) -> Map<Seq<char>, Model>
    decreases pairs.len(),
{
    if pairs.len() == 0 {
        Map::empty()
    } else {
        text_map(pairs.drop_last()).insert(pairs.last().0, Model::Str(pairs.last().1))
    }
}

/// Documentation as a value: a title, a description, a map of paths to
/// what they do, and an example session, one line per element.
pub open spec fn docs_model(title: Seq<char>, description: Seq<char>, paths: Seq<(Seq<char>, Seq<char>)>, example: Seq<Seq<char>>) -> Model {
    Model::Object(
        Map::<Seq<char>, Model>::empty().insert("title"@, Model::Str(title)).insert("description"@, Model::Str(description)).insert(
            "paths"@,
            Model::Object(text_map(paths)),
        ).insert("example"@, Model::Array(example.map_values(|l: Seq<char>| Model::Str(l)))),
    )
}

fn docs_value(title: &str, description: &str, paths: &[(&str, &str)], example: &[&str]) -> (r: Value)
    ensures
        r.model() == docs_model(
            title@,
            description@,
            paths@.map_values(|e: (&str, &str)| (e.0@, e.1@)),
            example@.map_values(|l: &str| l@),
        ),
{
    let mut map = ValueMap::new();
    map.insert(to_owned_string("title"), Value::String(to_owned_string(title)));
    map.insert(to_owned_string("description"), Value::String(to_owned_string(description)));
    let ghost ps = paths@.map_values(|e: (&str, &str)| (e.0@, e.1@));
    let mut pm = ValueMap::new();
    let mut i: usize = 0;
    while i < paths.len()
        invariant
            i <= paths@.len(),
            ps == paths@.map_values(|e: (&str, &str)| (e.0@, e.1@)),
            pm.model_map() == text_map(ps.subrange(0, i as int)),
        decreases paths@.len() - i,
    {
        let (k, v) = paths[i];
        pm.insert(to_owned_string(k), Value::String(to_owned_string(v)));
        assert(ps.subrange(0, i + 1).drop_last() =~= ps.subrange(0, i as int));
        i = i + 1;
    }
    assert(ps.subrange(0, paths@.len() as int) =~= ps);
    map.insert(to_owned_string("paths"), Value::Object(pm));
    let ghost ls = example@.map_values(|l: &str| l@);
    let mut lines: Vec<Value> = Vec::new();
    let mut j: usize = 0;
    while j < example.len()
        invariant
            j <= example@.len(),
            ls == example@.map_values(|l: &str| l@),
            lines@.len() == j,
            forall|k: int| 0 <= k < j ==> (#[trigger] lines@[k]).model() == Model::Str(ls[k]),
        decreases example@.len() - j,
    {
        lines.push(Value::String(to_owned_string(example[j])));
        j = j + 1;
    }
    proof {
        crate::value::lemma_seq_model(lines@);
        assert(crate::value::seq_model(lines@) =~= ls.map_values(|l: Seq<char>| Model::Str(l)));
    }
    map.insert(to_owned_string("example"), Value::Array(lines));
    let r = Value::Object(map);
    assert(r.model() =~~= docs_model(title@, description@, ps, ls));
    r
}

/// What `sync_broker_docs` gives.
pub open spec fn sync_docs_model() -> Model {
    docs_model(
            "Sync HTTP Broker"@,
            "Queue HTTP requests by writing, execute on read (blocks until complete)."@,
            seq![
            ("write /"@, "Queue request, returns outstanding/{id}"@),
            ("read /outstanding"@, "List queued request IDs"@),
            ("read /outstanding/{id}"@, "Execute request (blocks) and return response"@),
            ("read /outstanding/{id}/request"@, "View the queued request"@),
            ("read /outstanding/{id}/response/body"@, "Navigate into response fields"@),
            ("write /outstanding/{id} null"@, "Delete the handle"@)
            ],
            seq![
            "write / {\"method\": \"GET\", \"path\": \"https://httpbin.org/json\"}"@,
            "# Returns: outstanding/0"@,
            "read /outstanding/0"@,
            "# Blocks until complete, returns response"@
            ],
        )
}

/// The documentation of the blocking HTTP broker.
pub fn sync_broker_docs() -> (r: Value)
    ensures
        r.model() == sync_docs_model(),
{
    let paths = [
        ("write /", "Queue request, returns outstanding/{id}"),
        ("read /outstanding", "List queued request IDs"),
        ("read /outstanding/{id}", "Execute request (blocks) and return response"),
        ("read /outstanding/{id}/request", "View the queued request"),
        ("read /outstanding/{id}/response/body", "Navigate into response fields"),
        ("write /outstanding/{id} null", "Delete the handle"),
    ];
    let example = [
        "write / {\"method\": \"GET\", \"path\": \"https://httpbin.org/json\"}",
        "# Returns: outstanding/0",
        "read /outstanding/0",
        "# Blocks until complete, returns response",
    ];
    let r = docs_value(
        "Sync HTTP Broker",
        "Queue HTTP requests by writing, execute on read (blocks until complete).",
        &paths,
        &example,
    );
    assert(paths@.map_values(|e: (&str, &str)| (e.0@, e.1@)) =~= seq![
            ("write /"@, "Queue request, returns outstanding/{id}"@),
            ("read /outstanding"@, "List queued request IDs"@),
            ("read /outstanding/{id}"@, "Execute request (blocks) and return response"@),
            ("read /outstanding/{id}/request"@, "View the queued request"@),
            ("read /outstanding/{id}/response/body"@, "Navigate into response fields"@),
            ("write /outstanding/{id} null"@, "Delete the handle"@)
    ]);
    assert(example@.map_values(|l: &str| l@) =~= seq![
            "write / {\"method\": \"GET\", \"path\": \"https://httpbin.org/json\"}"@,
            "# Returns: outstanding/0"@,
            "read /outstanding/0"@,
            "# Blocks until complete, returns response"@
    ]);
    r
}

/// What `http_client_docs` gives.
pub open spec fn client_docs_model() -> Model {
    docs_model(
            "HTTP Client Store"@,
            "Direct HTTP client with a base URL. Read = GET, Write = POST."@,
            seq![
            ("read /<path>"@, "GET request to base_url/<path>"@),
            ("write /<path> <json>"@, "POST request to base_url/<path>"@),
            ("write / <HttpRequest>"@, "Execute arbitrary request"@)
            ],
            seq![
            "# Mount at /api with base URL"@,
            "write /ctx/mounts/api {\"type\": \"http\", \"url\": \"https://api.example.com\"}"@,
            "read /api/users  # GET https://api.example.com/users"@,
            "write /api/users {\"name\": \"Alice\"}  # POST with body"@
            ],
        )
}

/// The documentation of the HTTP client store.
pub fn http_client_docs() -> (r: Value)
    ensures
        r.model() == client_docs_model(),
{
    let paths = [
        ("read /<path>", "GET request to base_url/<path>"),
        ("write /<path> <json>", "POST request to base_url/<path>"),
        ("write / <HttpRequest>", "Execute arbitrary request"),
    ];
    let example = [
        "# Mount at /api with base URL",
        "write /ctx/mounts/api {\"type\": \"http\", \"url\": \"https://api.example.com\"}",
        "read /api/users  # GET https://api.example.com/users",
        "write /api/users {\"name\": \"Alice\"}  # POST with body",
    ];
    let r = docs_value(
        "HTTP Client Store",
        "Direct HTTP client with a base URL. Read = GET, Write = POST.",
        &paths,
        &example,
    );
    assert(paths@.map_values(|e: (&str, &str)| (e.0@, e.1@)) =~= seq![
            ("read /<path>"@, "GET request to base_url/<path>"@),
            ("write /<path> <json>"@, "POST request to base_url/<path>"@),
            ("write / <HttpRequest>"@, "Execute arbitrary request"@)
    ]);
    assert(example@.map_values(|l: &str| l@) =~= seq![
            "# Mount at /api with base URL"@,
            "write /ctx/mounts/api {\"type\": \"http\", \"url\": \"https://api.example.com\"}"@,
            "read /api/users  # GET https://api.example.com/users"@,
            "write /api/users {\"name\": \"Alice\"}  # POST with body"@
    ]);
    r
}

/// What `async_broker_docs` gives.
pub open spec fn async_docs_model() -> Model {
    docs_model(
            "Async HTTP Broker"@,
            "Queue HTTP requests by writing, requests execute in background threads."@,
            seq![
            ("write /"@, "Queue request, returns outstanding/{id}"@),
            ("read /outstanding"@, "List queued request IDs"@),
            ("read /outstanding/{id}"@, "Get request status (pending/complete/failed)"@),
            ("read /outstanding/{id}/request"@, "View the queued request"@),
            ("read /outstanding/{id}/response"@, "Get response (None if still pending)"@),
            ("read /outstanding/{id}/response/wait"@, "Block until response ready"@),
            ("write /outstanding/{id} null"@, "Delete the handle"@)
            ],
            seq![
            "write / {\"method\": \"GET\", \"path\": \"https://httpbin.org/json\"}"@,
            "# Returns: outstanding/0 (request starts executing)"@,
            "read /outstanding/0"@,
            "# Returns status: {\"status\": \"pending\"} or {\"status\": \"complete\"}"@,
            "read /outstanding/0/response/wait"@,
            "# Blocks until complete, returns response"@
            ],
        )
}

/// The documentation of the background HTTP broker.
pub fn async_broker_docs() -> (r: Value)
    ensures
        r.model() == async_docs_model(),
{
    let paths = [
        ("write /", "Queue request, returns outstanding/{id}"),
        ("read /outstanding", "List queued request IDs"),
        ("read /outstanding/{id}", "Get request status (pending/complete/failed)"),
        ("read /outstanding/{id}/request", "View the queued request"),
        ("read /outstanding/{id}/response", "Get response (None if still pending)"),
        ("read /outstanding/{id}/response/wait", "Block until response ready"),
        ("write /outstanding/{id} null", "Delete the handle"),
    ];
    let example = [
        "write / {\"method\": \"GET\", \"path\": \"https://httpbin.org/json\"}",
        "# Returns: outstanding/0 (request starts executing)",
        "read /outstanding/0",
        "# Returns status: {\"status\": \"pending\"} or {\"status\": \"complete\"}",
        "read /outstanding/0/response/wait",
        "# Blocks until complete, returns response",
    ];
    let r = docs_value(
        "Async HTTP Broker",
        "Queue HTTP requests by writing, requests execute in background threads.",
        &paths,
        &example,
    );
    assert(paths@.map_values(|e: (&str, &str)| (e.0@, e.1@)) =~= seq![
            ("write /"@, "Queue request, returns outstanding/{id}"@),
            ("read /outstanding"@, "List queued request IDs"@),
            ("read /outstanding/{id}"@, "Get request status (pending/complete/failed)"@),
            ("read /outstanding/{id}/request"@, "View the queued request"@),
            ("read /outstanding/{id}/response"@, "Get response (None if still pending)"@),
            ("read /outstanding/{id}/response/wait"@, "Block until response ready"@),
            ("write /outstanding/{id} null"@, "Delete the handle"@)
    ]);
    assert(example@.map_values(|l: &str| l@) =~= seq![
            "write / {\"method\": \"GET\", \"path\": \"https://httpbin.org/json\"}"@,
            "# Returns: outstanding/0 (request starts executing)"@,
            "read /outstanding/0"@,
            "# Returns status: {\"status\": \"pending\"} or {\"status\": \"complete\"}"@,
            "read /outstanding/0/response/wait"@,
            "# Blocks until complete, returns response"@
    ]);
    r
}


} // verus!
