//! Requests and responses of the HTTP stores, their header and query
//! maps, and the client store that maps reads to GET and writes to POST.

use vstd::prelude::*;

use crate::error::Error as StoreError;
use crate::http_api::{http_client_docs, client_docs_model, Method};
use crate::path::{path_string, Path};
use crate::record::Record;
use crate::strmap::{assoc, keys_sorted, locate};
use crate::text::{decimal, is_prefix, push_str, str_eq, str_starts_with, to_owned_string, u64_to_string};
use crate::traits::Reader;
use crate::value::{Model, Value};

verus! {

// ---------------------------------------------------------------------
// Header and query maps
// ---------------------------------------------------------------------

/// A map from names to values (request headers, query parameters), kept
/// sorted by name.
pub struct TextMap {
    entries: Vec<(String, String)>,
}

/// The text of each value of `m`.
pub open spec fn text_values(m: Map<Seq<char>, String>) -> Map<Seq<char>, Seq<char>> {
    m.map_values(|v: String| v@)
}

impl View for TextMap {
    type V = Map<Seq<char>, Seq<char>>;

    closed spec fn view(&self) -> Map<Seq<char>, Seq<char>> {
        text_values(assoc(self.entries@))
    }
}

impl TextMap {
    #[verifier::type_invariant]
    closed spec fn wf(self) -> bool {
        keys_sorted(self.entries@)
    }

    /// An empty map.
    pub fn new() -> (r: TextMap)
        ensures
            r@ == Map::<Seq<char>, Seq<char>>::empty(),
    {
        let r = TextMap { entries: Vec::new() };
        assert(r@ =~= Map::<Seq<char>, Seq<char>>::empty());
        r
    }

    /// The number of entries.
    pub fn len(&self) -> (r: usize)
        ensures
            r == self@.len(),
    {
        proof {
            use_type_invariant(self);
            crate::strmap::lemma_assoc_len(self.entries@);
            assert(self@.dom() =~= assoc(self.entries@).dom());
        }
        self.entries.len()
    }

    /// Whether the map is empty.
    pub fn is_empty(&self) -> (r: bool)
        ensures
            r == (self@.len() == 0),
    {
        self.len() == 0
    }

    /// The value for `key`.
    pub fn get(&self, key: &str) -> (r: Option<&String>)
        ensures
            match r {
                Some(v) => self@.contains_key(key@) && self@[key@] == v@,
                None => !self@.contains_key(key@),
            },
    {
        proof {
            use_type_invariant(self);
        }
        let (found, i) = locate(&self.entries, key);
        if found {
            proof {
                crate::strmap::lemma_assoc_at(self.entries@, i as int);
            }
            Some(&self.entries[i].1)
        } else {
            proof {
                crate::strmap::lemma_assoc_absent(self.entries@, key@, i as int);
            }
            None
        }
    }

    /// Whether `key` has a value.
    pub fn contains_key(&self, key: &str) -> (r: bool)
        ensures
            r == self@.contains_key(key@),
    {
        self.get(key).is_some()
    }

    /// Set `key` to `value`, replacing an earlier value.
    pub fn insert(&mut self, key: String, value: String)
        ensures
            final(self)@ == old(self)@.insert(key@, value@),
    {
        proof {
            use_type_invariant(&*self);
        }
        let mut entries = Vec::new();
        std::mem::swap(&mut entries, &mut self.entries);
        let ghost s = entries@;
        let (found, i) = locate(&entries, key.as_str());
        let ghost k = key@;
        let ghost v = value;
        if found {
            proof {
                crate::strmap::lemma_assoc_update(s, i as int, (key, value));
            }
            entries.set(i, (key, value));
        } else {
            proof {
                crate::strmap::lemma_assoc_insert(s, i as int, (key, value));
            }
            entries.insert(i, (key, value));
        }
        assert(text_values(assoc(entries@)) =~= text_values(assoc(s)).insert(k, v@));
        self.entries = entries;
    }

    /// The entries, sorted by name.
    pub fn pairs(&self) -> (r: Vec<(String, String)>)
        ensures
            r@.len() == self@.len(),
            self@.dom().finite(),
            keys_sorted(r@),
            forall|i: int| 0 <= i < r@.len() ==> #[trigger] self@.contains_key(r@[i].0@) && self@[r@[i].0@] == r@[i].1@,
    {
        proof {
            use_type_invariant(self);
        }
        let mut out: Vec<(String, String)> = Vec::new();
        let mut i: usize = 0;
        while i < self.entries.len()
            invariant
                i <= self.entries@.len(),
                keys_sorted(self.entries@),
                out@.len() == i,
                forall|j: int| 0 <= j < i ==> (#[trigger] out@[j]).0@ == self.entries@[j].0@ && out@[j].1@ == self.entries@[j].1@,
            decreases self.entries@.len() - i,
        {
            let (k, v) = &self.entries[i];
            out.push((k.clone(), v.clone()));
            i = i + 1;
        }
        proof {
            crate::strmap::lemma_assoc_len(self.entries@);
            assert(self@.dom() =~= assoc(self.entries@).dom());
            assert forall|j: int| 0 <= j < out@.len() implies #[trigger] self@.contains_key(out@[j].0@) && self@[out@[j].0@]
                == out@[j].1@ by {
                crate::strmap::lemma_assoc_at(self.entries@, j);
            }
            assert forall|a: int, b: int| 0 <= a < b < out@.len() implies crate::text::seq_lt(#[trigger] out@[a].0@, #[trigger] out@[b].0@) by {
                assert(crate::text::seq_lt(self.entries@[a].0@, self.entries@[b].0@));
            }
        }
        out
    }

    /// A copy of the map.
    pub fn duplicate(&self) -> (r: TextMap)
        ensures
            r@ == self@,
    {
        proof {
            use_type_invariant(self);
        }
        let mut out: Vec<(String, String)> = Vec::new();
        let mut i: usize = 0;
        while i < self.entries.len()
            invariant
                i <= self.entries@.len(),
                keys_sorted(self.entries@),
                out@.len() == i,
                forall|j: int| 0 <= j < i ==> (#[trigger] out@[j]).0@ == self.entries@[j].0@ && out@[j].1@ == self.entries@[j].1@,
            decreases self.entries@.len() - i,
        {
            let (k, v) = &self.entries[i];
            out.push((k.clone(), v.clone()));
            i = i + 1;
        }
        proof {
            assert forall|a: int, b: int| 0 <= a < b < out@.len() implies crate::text::seq_lt(#[trigger] out@[a].0@, #[trigger] out@[b].0@) by {
                assert(crate::text::seq_lt(self.entries@[a].0@, self.entries@[b].0@));
            }
            lemma_same_text(out@, self.entries@);
        }
        TextMap { entries: out }
    }
}

/// Lists with the same keys and value texts denote the same text map.
proof fn lemma_same_text(a: Seq<(String, String)>, b: Seq<(String, String)>)
    requires
        a.len() == b.len(),
        forall|j: int| 0 <= j < a.len() ==> (#[trigger] a[j]).0@ == b[j].0@ && a[j].1@ == b[j].1@,
    ensures
        text_values(assoc(a)) == text_values(assoc(b)),
    decreases a.len(),
{
    if a.len() > 0 {
        let n = a.len() - 1;
        let pa = a.subrange(0, n);
        let pb = b.subrange(0, n);
        assert forall|j: int| 0 <= j < pa.len() implies (#[trigger] pa[j]).0@ == pb[j].0@ && pa[j].1@ == pb[j].1@ by {
            assert(pa[j] == a[j]);
            assert(pb[j] == b[j]);
        }
        lemma_same_text(pa, pb);
        let ta = text_values(assoc(a));
        let tb = text_values(assoc(b));
        assert(assoc(a) == assoc(pa).insert(a[n].0@, a[n].1));
        assert(assoc(b) == assoc(pb).insert(b[n].0@, b[n].1));
        assert forall|k: Seq<char>| #[trigger] ta.contains_key(k) == tb.contains_key(k) && (ta.contains_key(k) ==> ta[k] == tb[k]) by {
            assert(ta.contains_key(k) == assoc(a).contains_key(k));
            assert(tb.contains_key(k) == assoc(b).contains_key(k));
            if k != a[n].0@ {
                let qa = text_values(assoc(pa));
                let qb = text_values(assoc(pb));
                assert(qa.contains_key(k) == assoc(pa).contains_key(k));
                assert(qb.contains_key(k) == assoc(pb).contains_key(k));
                assert(qa.contains_key(k) == qb.contains_key(k));
                if ta.contains_key(k) {
                    assert(ta[k] == assoc(a)[k]@);
                    assert(tb[k] == assoc(b)[k]@);
                    assert(qa[k] == assoc(pa)[k]@);
                    assert(qb[k] == assoc(pb)[k]@);
                }
            } else {
                assert(ta[k] == a[n].1@);
                assert(tb[k] == b[n].1@);
            }
        }
        assert(ta =~= tb);
    }
}

impl Clone for TextMap {
    fn clone(&self) -> (r: TextMap)
        ensures
            r@ == self@,
    {
        self.duplicate()
    }
}

impl Default for TextMap {
    fn default() -> (r: TextMap)
        ensures
            r@ == Map::<Seq<char>, Seq<char>>::empty(),
    {
        TextMap::new()
    }
}


// ---------------------------------------------------------------------
// Requests and responses
// ---------------------------------------------------------------------

/// A full HTTP request. Written to an HTTP store, it is executed; the
/// path is a full URL, or a path resolved against a client's base URL.
pub struct HttpRequest {
    /// The method.
    pub method: Method,
    /// The URL or the path below the base URL.
    pub path: String,
    /// Query parameters.
    pub query: TextMap,
    /// Request headers.
    pub headers: TextMap,
    /// The request body, sent as JSON.
    pub body: Option<Value>,
}

/// Whether `r` is a request with `method` and `path`, no query, no
/// headers and no body.
pub open spec fn is_bare_request(r: HttpRequest, method: Method, path: Seq<char>) -> bool {
    &&& r.method == method
    &&& r.path@ == path
    &&& r.query@ == Map::<Seq<char>, Seq<char>>::empty()
    &&& r.headers@ == Map::<Seq<char>, Seq<char>>::empty()
    &&& r.body is None
}

/// The model of an optional body.
pub open spec fn body_model(b: Option<Value>) -> Option<Model> {
    match b {
        Some(v) => Some(v.model()),
        None => None,
    }
}

impl HttpRequest {
    /// A request with `method` to `path`, and nothing else.
    pub fn new(method: Method, path: &str) -> (r: HttpRequest)
        ensures
            is_bare_request(r, method, path@),
    {
        HttpRequest {
            method,
            path: crate::text::to_owned_string(path),
            query: TextMap::new(),
            headers: TextMap::new(),
            body: None,
        }
    }

    /// A GET request.
    pub fn get(path: &str) -> (r: HttpRequest)
        ensures
            is_bare_request(r, Method::GET, path@),
    {
        HttpRequest::new(Method::GET, path)
    }

    /// A POST request.
    pub fn post(path: &str) -> (r: HttpRequest)
        ensures
            is_bare_request(r, Method::POST, path@),
    {
        HttpRequest::new(Method::POST, path)
    }

    /// A PUT request.
    pub fn put(path: &str) -> (r: HttpRequest)
        ensures
            is_bare_request(r, Method::PUT, path@),
    {
        HttpRequest::new(Method::PUT, path)
    }

    /// A DELETE request.
    pub fn delete(path: &str) -> (r: HttpRequest)
        ensures
            is_bare_request(r, Method::DELETE, path@),
    {
        HttpRequest::new(Method::DELETE, path)
    }

    /// The request with `body` as its body.
    pub fn with_json_body(self, body: Value) -> (r: HttpRequest)
        ensures
            r.method == self.method,
            r.path == self.path,
            r.query@ == self.query@,
            r.headers@ == self.headers@,
            r.body == Some(body),
    {
        HttpRequest { body: Some(body), ..self }
    }

    /// The request with header `name` set to `value`.
    pub fn with_header(self, name: &str, value: &str) -> (r: HttpRequest)
        ensures
            r.method == self.method,
            r.path == self.path,
            r.query@ == self.query@,
            r.headers@ == self.headers@.insert(name@, value@),
            r.body == self.body,
    {
        let mut headers = self.headers;
        headers.insert(crate::text::to_owned_string(name), crate::text::to_owned_string(value));
        HttpRequest { method: self.method, path: self.path, query: self.query, headers, body: self.body }
    }

    /// The request with query parameter `name` set to `value`.
    pub fn with_query(self, name: &str, value: &str) -> (r: HttpRequest)
        ensures
            r.method == self.method,
            r.path == self.path,
            r.query@ == self.query@.insert(name@, value@),
            r.headers@ == self.headers@,
            r.body == self.body,
    {
        let mut query = self.query;
        query.insert(crate::text::to_owned_string(name), crate::text::to_owned_string(value));
        HttpRequest { method: self.method, path: self.path, query, headers: self.headers, body: self.body }
    }
}

impl Default for HttpRequest {
    fn default() -> (r: HttpRequest)
        ensures
            is_bare_request(r, Method::GET, Seq::<char>::empty()),
    {
        proof {
            reveal_strlit("");
            assert(""@ =~= Seq::<char>::empty());
        }
        HttpRequest::new(Method::GET, "")
    }
}

impl Clone for HttpRequest {
    fn clone(&self) -> (r: HttpRequest)
        ensures
            r.method == self.method,
            r.path@ == self.path@,
            r.query@ == self.query@,
            r.headers@ == self.headers@,
            body_model(r.body) == body_model(self.body),
    {
        HttpRequest {
            method: self.method,
            path: self.path.clone(),
            query: self.query.duplicate(),
            headers: self.headers.duplicate(),
            body: match &self.body {
                Some(b) => Some(b.deep_clone()),
                None => None,
            },
        }
    }
}

/// The answer to an HTTP request.
pub struct HttpResponse {
    /// The status code.
    pub status: u16,
    /// The status text, such as "OK" or "Not Found".
    pub status_text: String,
    /// Response headers.
    pub headers: TextMap,
    /// The body as a value; null when it was empty or not JSON.
    pub body: Value,
    /// The raw body text.
    pub body_text: Option<String>,
}

impl HttpResponse {
    /// Whether the status is a success (2xx).
    pub fn is_success(&self) -> (r: bool)
        ensures
            r == (200 <= self.status < 300),
    {
        200 <= self.status && self.status < 300
    }

    /// Whether the status is a client error (4xx).
    pub fn is_client_error(&self) -> (r: bool)
        ensures
            r == (400 <= self.status < 500),
    {
        400 <= self.status && self.status < 500
    }

    /// Whether the status is a server error (5xx).
    pub fn is_server_error(&self) -> (r: bool)
        ensures
            r == (500 <= self.status < 600),
    {
        500 <= self.status && self.status < 600
    }
}

impl Clone for HttpResponse {
    fn clone(&self) -> (r: HttpResponse)
        ensures
            r.status == self.status,
            r.status_text@ == self.status_text@,
            r.headers@ == self.headers@,
            r.body.model() == self.body.model(),
            r.body_text == self.body_text,
    {
        HttpResponse {
            status: self.status,
            status_text: self.status_text.clone(),
            headers: self.headers.duplicate(),
            body: self.body.deep_clone(),
            body_text: self.body_text.clone(),
        }
    }
}


// ---------------------------------------------------------------------
// Errors of the HTTP stores
// ---------------------------------------------------------------------

/// Errors of the HTTP stores' construction and requests. The outside
/// errors (of the HTTP client, the URL parser, the JSON codec) are kept
/// by their messages.
#[derive(Debug)]
pub enum Error {
    /// The HTTP client failed.
    Http { message: String },
    /// A URL did not parse.
    UrlParse { message: String },
    /// A URL is not usable.
    InvalidUrl { message: String },
    /// An HTTP method name is not known.
    InvalidMethod { method: String },
    /// A header name is not valid.
    InvalidHeaderName { message: String },
    /// A header value is not valid.
    InvalidHeaderValue { message: String },
    /// JSON encoding or decoding failed.
    Json { message: String },
    /// A store failed.
    Store(StoreError),
    /// Any other failure, by its message.
    Other { message: String },
}

impl Error {
    /// The display text of the error.
    pub open spec fn text(&self) -> Seq<char> {
        match self {
            Error::Http { message } => "HTTP error: "@ + message@,
            Error::UrlParse { message } => "URL parse error: "@ + message@,
            Error::InvalidUrl { message } => "Invalid URL: "@ + message@,
            Error::InvalidMethod { method } => "Invalid HTTP method: "@ + method@,
            Error::InvalidHeaderName { message } => "Invalid header name: "@ + message@,
            Error::InvalidHeaderValue { message } => "Invalid header value: "@ + message@,
            Error::Json { message } => "JSON error: "@ + message@,
            Error::Store(e) => "Store error: "@ + e.text(),
            Error::Other { message } => message@,
        }
    }

    /// The display text of the error.
    pub fn to_string(&self) -> (r: String)
        ensures
            r@ == self.text(),
    {
        let (head, tail) = match self {
            Error::Http { message } => ("HTTP error: ", message.clone()),
            Error::UrlParse { message } => ("URL parse error: ", message.clone()),
            Error::InvalidUrl { message } => ("Invalid URL: ", message.clone()),
            Error::InvalidMethod { method } => ("Invalid HTTP method: ", method.clone()),
            Error::InvalidHeaderName { message } => ("Invalid header name: ", message.clone()),
            Error::InvalidHeaderValue { message } => ("Invalid header value: ", message.clone()),
            Error::Json { message } => ("JSON error: ", message.clone()),
            Error::Store(e) => ("Store error: ", e.to_string()),
            Error::Other { message } => ("", message.clone()),
        };
        let mut out = to_owned_string(head);
        push_str(&mut out, tail.as_str());
        proof {
            reveal_strlit("");
            assert(""@ + self.text() =~= self.text());
        }
        out
    }
}

impl From<Error> for StoreError {
    fn from(error: Error) -> (r: StoreError)
        ensures
            r matches StoreError::Other { message } && message@ == error.text(),
    {
        StoreError::Other { message: error.to_string() }
    }
}

impl vstd::std_specs::convert::FromSpecImpl<Error> for StoreError {
    open spec fn obeys_from_spec() -> bool {
        false
    }

    open spec fn from_spec(error: Error) -> StoreError {
        arbitrary()
    }
}

// ---------------------------------------------------------------------
// URLs
// ---------------------------------------------------------------------

/// The parsed URL of the `url` crate.
#[verifier::external_type_specification]
#[verifier::external_body]
pub struct ExUrl(url::Url);

/// Whether `url::Url::parse` accepts the text as an absolute URL.
pub uninterp spec fn url_parses(s: Seq<char>) -> bool;

/// `url::Url::parse` (url crate): the absolute URL the text denotes, or
/// the parser's message. Whether it succeeds depends on the text alone
/// (`url_parses`); the parsed URL is opaque to Verus.
#[verifier::external_body]
fn parse_url(input: &str) -> (r: Result<url::Url, String>)
    ensures
        r is Ok == url_parses(input@),
{
    url::Url::parse(input).map_err(|e| e.to_string())
}

/// The text of `input` resolved as a reference against the URL that
/// `base` parses to, where both succeed.
pub uninterp spec fn url_join(base: Seq<char>, input: Seq<char>) -> Option<Seq<char>>;

/// `url::Url::parse` of `base` followed by `url::Url::join` of `input`
/// (url crate), as text. The URL type is opaque to Verus, so the base is
/// handed over as its text and parsed here; the result is named
/// `url_join` of the two texts, on which alone it depends. `None` when
/// either step fails.
#[verifier::external_body]
fn join_url(base: &str, input: &str) -> (r: Option<String>)
    ensures
        match r {
            Some(u) => url_join(base@, input@) == Some(u@),
            None => url_join(base@, input@) is None,
        },
{
    url::Url::parse(base).ok().and_then(|b| b.join(input).ok()).map(|u| u.to_string())
}

/// Whether `p` is an absolute `http` or `https` URL, which the client
/// sends as it is.
pub open spec fn is_absolute_url(p: Seq<char>) -> bool {
    is_prefix("http://"@, p) || is_prefix("https://"@, p)
}

// ---------------------------------------------------------------------
// The client store
// ---------------------------------------------------------------------

/// Executes HTTP requests: a real client, or a mock in tests.
pub trait HttpExecutor: Send + Sync {
    /// Whether executing `request` may answer `r`. An executor that says
    /// nothing of its answers leaves this `true`.
    open spec fn execute_answers(&self, request: HttpRequest, r: Result<HttpResponse, String>) -> bool {
        true
    }

    /// Execute `request`; the error is a message.
    fn execute(&self, request: &HttpRequest) -> (r: Result<HttpResponse, String>)
        ensures
            Self::execute_answers(self, *request, r),
    ;
}

/// Whether `r` is what a write answers for the response `response`
/// (`write_outcome`).
pub open spec fn write_answer(to: Seq<Seq<char>>, response: HttpResponse, r: Result<Path, StoreError>) -> bool {
    if 200 <= response.status < 300 {
        r matches Ok(p) && p@ == to
    } else {
        r matches Err(e) && e.is_store("http_client"@, "write"@, failure_message(response))
    }
}

/// Whether `req` is the request a write of `value` at `to` makes
/// (`write_request`).
pub open spec fn write_request_of(to: Seq<Seq<char>>, value: Value, as_request: Option<HttpRequest>, req: HttpRequest) -> bool {
    if to.len() == 0 && as_request is Some {
        req == as_request->Some_0
    } else {
        &&& req.method == Method::POST
        &&& req.path@ == path_string(to)
        &&& req.query@ == Map::<Seq<char>, Seq<char>>::empty()
        &&& req.headers@ == Map::<Seq<char>, Seq<char>>::empty()
        &&& req.body == Some(value)
    }
}

/// A store over an HTTP server: a read is a GET of the path below the
/// base URL, a write a POST (or, at the root, a request of its own).
pub struct HttpClientStore<E: HttpExecutor> {
    executor: E,
    base_url: String,
    default_headers: TextMap,
}

/// The failure message of a response: `HTTP {status} {text}: {body}`.
pub open spec fn failure_message(response: HttpResponse) -> Seq<char> {
    "HTTP "@ + decimal(response.status as nat) + " "@ + response.status_text@ + ": "@ + match response.body_text {
        Some(t) => t@,
        None => Seq::<char>::empty(),
    }
}

fn failure_text(response: &HttpResponse) -> (r: String)
    ensures
        r@ == failure_message(*response),
{
    let mut out = to_owned_string("HTTP ");
    let code = u64_to_string(response.status as u64);
    push_str(&mut out, code.as_str());
    push_str(&mut out, " ");
    push_str(&mut out, response.status_text.as_str());
    push_str(&mut out, ": ");
    match &response.body_text {
        Some(t) => push_str(&mut out, t.as_str()),
        None => {
            proof {
                reveal_strlit("");
            }
            push_str(&mut out, "");
        },
    }
    proof {
        assert(out@ =~= failure_message(*response));
    }
    out
}

/// What a read answers for `response`: nothing for 404, a store failure
/// for any other status but 2xx, else the body.
pub fn read_outcome(response: HttpResponse) -> (r: Result<Option<Record>, StoreError>)
    ensures
        response.status == 404 ==> r matches Ok(None),
        response.status != 404 && !(200 <= response.status < 300) ==> (r matches Err(e) && e.is_store(
            "http_client"@,
            "read"@,
            failure_message(response),
        )),
        200 <= response.status < 300 ==> (r matches Ok(Some(Record::Parsed(v))) && v == response.body),
{
    if response.status == 404 {
        return Ok(None);
    }
    if !response.is_success() {
        let message = failure_text(&response);
        return Err(StoreError::store("http_client", "read", message.as_str()));
    }
    Ok(Some(Record::Parsed(response.body)))
}

/// Whether `r` is what a read answers for `response` (`read_outcome`).
pub open spec fn read_answer(response: HttpResponse, r: Result<Option<Record>, StoreError>) -> bool {
    if response.status == 404 {
        r matches Ok(None)
    } else if !(200 <= response.status < 300) {
        r matches Err(e) && e.is_store("http_client"@, "read"@, failure_message(response))
    } else {
        r matches Ok(Some(Record::Parsed(v))) && v == response.body
    }
}

/// What a write answers for `response`: the written path for 2xx, a store
/// failure otherwise.
pub fn write_outcome(to: &Path, response: &HttpResponse) -> (r: Result<Path, StoreError>)
    ensures
        200 <= response.status < 300 ==> (r matches Ok(p) && p@ == to@),
        !(200 <= response.status < 300) ==> (r matches Err(e) && e.is_store(
            "http_client"@,
            "write"@,
            failure_message(*response),
        )),
{
    if !response.is_success() {
        let message = failure_text(response);
        return Err(StoreError::store("http_client", "write", message.as_str()));
    }
    Ok(to.duplicate())
}

/// The request a write of `value` at `to` makes: at the root, the request
/// the value denotes when it denotes one (`as_request`); otherwise a POST
/// of the value to the path.
pub fn write_request(to: &Path, value: Value, as_request: Option<HttpRequest>) -> (r: HttpRequest)
    ensures
        (to@.len() == 0 && as_request is Some) ==> r == as_request->Some_0,
        !(to@.len() == 0 && as_request is Some) ==> {
            &&& r.method == Method::POST
            &&& r.path@ == path_string(to@)
            &&& r.query@ == Map::<Seq<char>, Seq<char>>::empty()
            &&& r.headers@ == Map::<Seq<char>, Seq<char>>::empty()
            &&& r.body == Some(value)
        },
{
    if to.is_empty() {
        if let Some(request) = as_request {
            return request;
        }
    }
    let path = to.to_string();
    HttpRequest::post(path.as_str()).with_json_body(value)
}

impl<E: HttpExecutor> HttpClientStore<E> {
    /// The default headers sent with every request.
    pub closed spec fn default_header_map(&self) -> Map<Seq<char>, Seq<char>> {
        self.default_headers@
    }

    /// The text of the base URL that relative paths resolve against.
    pub closed spec fn base_text(&self) -> Seq<char> {
        self.base_url@
    }

    /// The executor that runs the requests.
    pub closed spec fn executor_of(&self) -> E {
        self.executor
    }

    /// Whether `sent` is `request` as this client sends it
    /// (`build_request`).
    pub open spec fn sends(&self, request: HttpRequest, sent: HttpRequest) -> bool {
        &&& sent.method == request.method
        &&& is_absolute_url(request.path@) ==> sent.path == request.path
        &&& !is_absolute_url(request.path@) ==> sent.path@ == match url_join(self.base_text(), request.path@) {
            Some(u) => u,
            None => request.path@,
        }
        &&& sent.query@ == request.query@
        &&& sent.headers@ == self.default_header_map().union_prefer_right(request.headers@)
        &&& sent.body == request.body
    }

    /// Whether running `request` as this client sends it may answer `x`.
    pub open spec fn runs(&self, request: HttpRequest, x: Result<HttpResponse, String>) -> bool {
        exists|sent: HttpRequest| #[trigger] self.sends(request, sent) && E::execute_answers(&self.executor_of(), sent, x)
    }

    /// A client of the server at `base_url`, executing with `executor`.
    pub fn with_executor(base_url: &str, executor: E) -> (r: Result<HttpClientStore<E>, Error>)
        ensures
            r is Ok == url_parses(base_url@),
            match r {
                Ok(s) => s.default_header_map() == Map::<Seq<char>, Seq<char>>::empty() && s.base_text() == base_url@,
                Err(e) => e is UrlParse,
            },
    {
        match parse_url(base_url) {
            Ok(_) => Ok(HttpClientStore { executor, base_url: to_owned_string(base_url), default_headers: TextMap::new() }),
            Err(message) => Err(Error::UrlParse { message }),
        }
    }

    /// The client with a header sent with every request.
    pub fn with_default_header(self, name: &str, value: &str) -> (r: HttpClientStore<E>)
        ensures
            r.default_header_map() == self.default_header_map().insert(name@, value@),
            r.base_text() == self.base_text(),
    {
        let mut headers = self.default_headers;
        headers.insert(to_owned_string(name), to_owned_string(value));
        HttpClientStore { executor: self.executor, base_url: self.base_url, default_headers: headers }
    }

    /// The request as sent: a relative path resolved against the base URL
    /// (kept when it does not resolve), and the default headers added
    /// where the request has none of that name.
    pub fn build_request(&self, request: HttpRequest) -> (r: HttpRequest)
        ensures
            r.method == request.method,
            is_absolute_url(request.path@) ==> r.path == request.path,
            !is_absolute_url(request.path@) ==> r.path@ == match url_join(self.base_text(), request.path@) {
                Some(u) => u,
                None => request.path@,
            },
            r.query@ == request.query@,
            r.headers@ == self.default_header_map().union_prefer_right(request.headers@),
            r.body == request.body,
    {
        let HttpRequest { method, path, query, headers, body } = request;
        let absolute = str_starts_with(path.as_str(), "http://") || str_starts_with(path.as_str(), "https://");
        proof {
            reveal_strlit("http://");
            reveal_strlit("https://");
        }
        let path = if absolute {
            path
        } else {
            match join_url(self.base_url.as_str(), path.as_str()) {
                Some(url) => url,
                None => path,
            }
        };
        let defaults = self.default_headers.pairs();
        let ghost dm = self.default_headers@;
        let mut merged = headers;
        let ghost requested = merged@;
        let mut i: usize = 0;
        while i < defaults.len()
            invariant
                i <= defaults@.len(),
                keys_sorted(defaults@),
                merged@ == text_values_of(defaults@.subrange(0, i as int)).union_prefer_right(requested),
            decreases defaults@.len() - i,
        {
            let (name, value) = &defaults[i];
            let ghost before = merged@;
            let ghost prefix = defaults@.subrange(0, i as int);
            let ghost e = defaults@[i as int];
            let present = merged.contains_key(name.as_str());
            if !present {
                merged.insert(name.clone(), value.clone());
            }
            proof {
                lemma_text_values_of_push(prefix, e);
                assert(defaults@.subrange(0, i + 1) =~= prefix.push(e));
                if text_values_of(prefix).contains_key(e.0@) {
                    crate::strmap::lemma_assoc_dom(prefix, e.0@);
                    let j = choose|j: int| 0 <= j < prefix.len() && (#[trigger] prefix[j]).0@ == e.0@;
                    assert(prefix[j] == defaults@[j]);
                    crate::strmap::lemma_sorted_unique(defaults@, j, i as int);
                }
                assert(merged@ =~= text_values_of(defaults@.subrange(0, i + 1)).union_prefer_right(requested));
            }
            i = i + 1;
        }
        proof {
            assert(defaults@.subrange(0, defaults@.len() as int) =~= defaults@);
            lemma_pairs_cover(defaults@, dm);
        }
        HttpRequest { method, path, query, headers: merged, body }
    }

    /// A GET of `path` below the base URL.
    pub fn get(&self, path: &Path) -> (r: Result<HttpResponse, Error>)
        ensures
            r matches Err(e) ==> (e matches Error::Other { message } && is_prefix("HTTP request failed: "@, message@)),
            exists|req: HttpRequest, x: Result<HttpResponse, String>|
                is_bare_request(req, Method::GET, path_string(path@)) && #[trigger] self.runs(req, x) && match x {
                    Ok(resp) => r == Ok::<HttpResponse, Error>(resp),
                    Err(m) => r matches Err(Error::Other { message }) && message@ == "HTTP request failed: "@ + m@,
                },
    {
        let text = path.to_string();
        let bare = HttpRequest::get(text.as_str());
        let ghost req = bare;
        let request = self.build_request(bare);
        let x = self.executor.execute(&request);
        let ghost gx = x;
        proof {
            assert(self.sends(req, request));
            assert(self.runs(req, gx));
        }
        match x {
            Ok(response) => Ok(response),
            Err(e) => {
                let mut message = to_owned_string("HTTP request failed: ");
                push_str(&mut message, e.as_str());
                proof {
                    reveal_strlit("HTTP request failed: ");
                    assert(message@.subrange(0, "HTTP request failed: "@.len() as int) =~= "HTTP request failed: "@);
                }
                Err(Error::Other { message })
            },
        }
    }

    /// Write `value` at `to`: `as_request` is the request the value
    /// denotes, where it denotes one.
    pub fn write_value(&mut self, to: &Path, value: Value, as_request: Option<HttpRequest>) -> (r: Result<Path, StoreError>)
        ensures
            r matches Ok(p) ==> p@ == to@,
            r matches Err(e) ==> exists|m: Seq<char>| e.is_store("http_client"@, "write"@, m),
            exists|req: HttpRequest, x: Result<HttpResponse, String>|
                write_request_of(to@, value, as_request, req) && #[trigger] old(self).runs(req, x) && match x {
                    Ok(resp) => write_answer(to@, resp, r),
                    Err(m) => r matches Err(e) && e.is_store("http_client"@, "write"@, m@),
                },
    {
        let ghost v = value;
        let ghost ar = as_request;
        let made = write_request(to, value, as_request);
        let ghost req = made;
        let request = self.build_request(made);
        let x = self.executor.execute(&request);
        let ghost gx = x;
        proof {
            assert(self.sends(req, request));
            assert(self.runs(req, gx));
            assert(write_request_of(to@, v, ar, req));
        }
        match x {
            Ok(response) => write_outcome(to, &response),
            Err(e) => Err(StoreError::store("http_client", "write", e.as_str())),
        }
    }
}

impl<E: HttpExecutor> Reader for HttpClientStore<E> {
    /// A read of `docs` answers the documentation; any other read answers
    /// what the GET of the path, as this client sends it, came back with.
    open spec fn read_answers(&self, from: Seq<Seq<char>>, r: Result<Option<Record>, StoreError>) -> bool {
        if from.len() > 0 && from[0] == "docs"@ {
            r matches Ok(Some(Record::Parsed(v))) && v.model() == client_docs_model()
        } else {
            exists|req: HttpRequest, x: Result<HttpResponse, String>|
                is_bare_request(req, Method::GET, path_string(from)) && #[trigger] self.runs(req, x) && match x {
                    Ok(resp) => read_answer(resp, r),
                    Err(m) => r matches Err(e) && e.is_store("http_client"@, "read"@, "HTTP request failed: "@ + m@),
                }
        }
    }

    fn read(&mut self, from: &Path) -> (r: Result<Option<Record>, StoreError>)
        ensures
            from@.len() > 0 && from@[0] == "docs"@ ==> (r matches Ok(Some(Record::Parsed(v))) && v.model() == client_docs_model()),
            !(from@.len() > 0 && from@[0] == "docs"@) ==> exists|req: HttpRequest, x: Result<HttpResponse, String>|
                is_bare_request(req, Method::GET, path_string(from@)) && #[trigger] old(self).runs(req, x) && match x {
                    Ok(resp) => read_answer(resp, r),
                    Err(m) => r matches Err(e) && e.is_store("http_client"@, "read"@, "HTTP request failed: "@ + m@),
                },
    {
        let ghost start = *self;
        if !from.is_empty() && str_eq(from.component(0), "docs") {
            let r = Ok(Some(Record::Parsed(http_client_docs())));
            assert(<HttpClientStore<E> as Reader>::read_answers(&start, from@, r));
            return r;
        }
        let got = self.get(from);
        let ghost g = got;
        let ghost (req, x) = choose|req: HttpRequest, x: Result<HttpResponse, String>|
            is_bare_request(req, Method::GET, path_string(from@)) && #[trigger] self.runs(req, x) && match x {
                Ok(resp) => g == Ok::<HttpResponse, Error>(resp),
                Err(m) => g matches Err(Error::Other { message }) && message@ == "HTTP request failed: "@ + m@,
            };
        match got {
            Ok(response) => {
                let ghost resp = response;
                let r = read_outcome(response);
                assert(read_answer(resp, r));
                assert(self.runs(req, x));
                assert(<HttpClientStore<E> as Reader>::read_answers(&start, from@, r));
                r
            },
            Err(e) => {
                let message = e.to_string();
                let r = Err(StoreError::store("http_client", "read", message.as_str()));
                assert(self.runs(req, x));
                assert(<HttpClientStore<E> as Reader>::read_answers(&start, from@, r));
                r
            },
        }
    }
}

/// The text map that a list of pairs denotes (a later pair wins).
pub open spec fn text_values_of(s: Seq<(String, String)>) -> Map<Seq<char>, Seq<char>> {
    text_values(assoc(s))
}

proof fn lemma_text_values_of_push(s: Seq<(String, String)>, e: (String, String))
    ensures
        text_values_of(s.push(e)) == text_values_of(s).insert(e.0@, e.1@),
{
    let t = s.push(e);
    assert(t.subrange(0, t.len() - 1) =~= s);
    assert(text_values_of(t) =~= text_values_of(s).insert(e.0@, e.1@));
}

/// Sorted pairs that each agree with `m` and are as many as its entries
/// denote `m`.
proof fn lemma_pairs_cover(s: Seq<(String, String)>, m: Map<Seq<char>, Seq<char>>)
    requires
        keys_sorted(s),
        s.len() == m.len(),
        m.dom().finite(),
        forall|j: int| 0 <= j < s.len() ==> #[trigger] m.contains_key(s[j].0@) && m[s[j].0@] == s[j].1@,
    ensures
        text_values_of(s) == m,
{
    crate::strmap::lemma_assoc_len(s);
    let t = text_values_of(s);
    assert(t.dom() =~= assoc(s).dom());
    assert forall|k: Seq<char>| #[trigger] assoc(s).dom().contains(k) implies m.dom().contains(k) && t[k] == m[k] by {
        crate::strmap::lemma_assoc_dom(s, k);
        let j = choose|j: int| 0 <= j < s.len() && (#[trigger] s[j]).0@ == k;
        crate::strmap::lemma_assoc_at(s, j);
        assert(m.contains_key(s[j].0@));
    }
    assert(t.dom().subset_of(m.dom()));
    vstd::set_lib::lemma_len_subset(t.dom(), m.dom());
    assert forall|k: Seq<char>| m.contains_key(k) implies t.contains_key(k) by {
        if !t.contains_key(k) {
            assert(t.dom().subset_of(m.dom().remove(k)));
            vstd::set_lib::lemma_len_subset(t.dom(), m.dom().remove(k));
        }
    }
    assert(t =~= m);
}

} // verus!
