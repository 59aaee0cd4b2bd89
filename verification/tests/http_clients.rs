use std::sync::{Arc, Mutex};

use structfs::http_api::Method;
use structfs::http_client::{read_outcome, write_outcome, write_request, HttpClientStore, HttpExecutor, HttpRequest, HttpResponse, TextMap};
use structfs::path::Path;
use structfs::record::Record;
use structfs::traits::Reader;
use structfs::value::{Value, ValueMap};

fn p(s: &str) -> Path {
    Path::parse(s).unwrap()
}

#[derive(Clone, Default)]
struct MockExecutor {
    responses: Arc<Mutex<Vec<(String, HttpResponse)>>>,
    default_response: Arc<Mutex<Option<HttpResponse>>>,
    recorded: Arc<Mutex<Vec<HttpRequest>>>,
    failure: Arc<Mutex<Option<String>>>,
}

impl MockExecutor {
    fn new() -> Self {
        Self::default()
    }

    fn with_response(self, path: &str, response: HttpResponse) -> Self {
        self.responses.lock().unwrap().push((path.to_string(), response));
        self
    }

    fn with_default_response(self, response: HttpResponse) -> Self {
        *self.default_response.lock().unwrap() = Some(response);
        self
    }

    fn fail_with(self, message: &str) -> Self {
        *self.failure.lock().unwrap() = Some(message.to_string());
        self
    }

    fn recorded_requests(&self) -> Vec<HttpRequest> {
        self.recorded.lock().unwrap().clone()
    }

    fn success_response(body: Value) -> HttpResponse {
        HttpResponse { status: 200, status_text: "OK".to_string(), headers: TextMap::new(), body, body_text: Some("{}".to_string()) }
    }

    fn error_response(status: u16, message: &str) -> HttpResponse {
        let mut m = ValueMap::new();
        m.insert("error".to_string(), Value::from(message));
        HttpResponse {
            status,
            status_text: message.to_string(),
            headers: TextMap::new(),
            body: Value::Object(m),
            body_text: Some(format!(r#"{{"error":"{}"}}"#, message)),
        }
    }

    fn not_found() -> HttpResponse {
        Self::error_response(404, "Not Found")
    }
}

impl HttpExecutor for MockExecutor {
    fn execute(&self, request: &HttpRequest) -> Result<HttpResponse, String> {
        self.recorded.lock().unwrap().push(request.clone());
        if let Some(message) = self.failure.lock().unwrap().clone() {
            return Err(message);
        }
        for (path, response) in self.responses.lock().unwrap().iter() {
            if *path == request.path {
                return Ok(response.clone());
            }
        }
        if let Some(response) = self.default_response.lock().unwrap().as_ref() {
            return Ok(response.clone());
        }
        Ok(Self::not_found())
    }
}

fn user_value() -> Value {
    let mut m = ValueMap::new();
    m.insert("id".to_string(), Value::from(1i64));
    m.insert("name".to_string(), Value::from("Alice"));
    Value::Object(m)
}

#[test]
fn http_request_get() {
    let req = HttpRequest::get("/users");
    assert_eq!(req.method, Method::GET);
    assert_eq!(req.path, "/users");
}

#[test]
fn http_request_post() {
    let req = HttpRequest::post("/users");
    assert_eq!(req.method, Method::POST);
    assert_eq!(req.path, "/users");
}

#[test]
fn http_request_put() {
    let req = HttpRequest::put("/users/1");
    assert_eq!(req.method, Method::PUT);
    assert_eq!(req.path, "/users/1");
}

#[test]
fn http_request_delete() {
    let req = HttpRequest::delete("/users/1");
    assert_eq!(req.method, Method::DELETE);
    assert_eq!(req.path, "/users/1");
}

#[test]
fn http_request_with_json_body() {
    let mut m = ValueMap::new();
    m.insert("key".to_string(), Value::from("value"));
    let req = HttpRequest::post("/data").with_json_body(Value::Object(m));
    let mut expected = ValueMap::new();
    expected.insert("key".to_string(), Value::from("value"));
    assert_eq!(req.body, Some(Value::Object(expected)));
}

#[test]
fn http_request_with_header() {
    let req = HttpRequest::get("/api").with_header("Authorization", "Bearer token123");
    assert_eq!(req.headers.get("Authorization"), Some(&"Bearer token123".to_string()));
}

#[test]
fn http_request_with_query() {
    let req = HttpRequest::get("/search").with_query("q", "test").with_query("page", "1");
    assert_eq!(req.query.get("q"), Some(&"test".to_string()));
    assert_eq!(req.query.get("page"), Some(&"1".to_string()));
}

#[test]
fn http_request_default() {
    let req = HttpRequest::default();
    assert_eq!(req.method, Method::GET);
    assert_eq!(req.path, "");
    assert!(req.query.is_empty());
    assert!(req.headers.is_empty());
    assert!(req.body.is_none());
}

fn response(status: u16, text: &str) -> HttpResponse {
    HttpResponse { status, status_text: text.to_string(), headers: TextMap::new(), body: Value::Null, body_text: None }
}

#[test]
fn http_response_is_success() {
    let resp = response(200, "OK");
    assert!(resp.is_success());
    assert!(!resp.is_client_error());
    assert!(!resp.is_server_error());
}

#[test]
fn http_response_is_client_error() {
    let resp = response(404, "Not Found");
    assert!(!resp.is_success());
    assert!(resp.is_client_error());
    assert!(!resp.is_server_error());
}

#[test]
fn http_response_is_server_error() {
    let resp = response(500, "Internal Server Error");
    assert!(!resp.is_success());
    assert!(!resp.is_client_error());
    assert!(resp.is_server_error());
}

#[test]
fn test_client_store_with_mock() {
    let mock = MockExecutor::new().with_response("https://api.example.com/users/1", MockExecutor::success_response(user_value()));
    let mut client = HttpClientStore::with_executor("https://api.example.com", mock).unwrap();
    let record = client.read(&p("users/1")).unwrap().unwrap();
    assert_eq!(record.as_value(), Some(&user_value()));
}

#[test]
fn test_client_store_404_returns_none() {
    let mock = MockExecutor::new().with_response("https://api.example.com/missing", MockExecutor::not_found());
    let mut client = HttpClientStore::with_executor("https://api.example.com", mock).unwrap();
    let result = client.read(&p("missing")).unwrap();
    assert!(result.is_none());
}

#[test]
fn test_client_store_server_error() {
    let mock = MockExecutor::new().with_response("https://api.example.com/error", MockExecutor::error_response(500, "Internal Server Error"));
    let mut client = HttpClientStore::with_executor("https://api.example.com", mock).unwrap();
    let result = client.read(&p("error"));
    assert!(result.is_err());
    assert!(result.unwrap_err().to_string().contains("500"));
}

#[test]
fn test_client_store_write_post() {
    let mock = MockExecutor::new().with_default_response(MockExecutor::success_response(Value::Bool(true)));
    let mut client = HttpClientStore::with_executor("https://api.example.com", mock.clone()).unwrap();
    let mut m = ValueMap::new();
    m.insert("name".to_string(), Value::from("Bob"));
    let result = client.write_value(&p("users"), Value::Object(m), None);
    assert!(result.is_ok());
    let requests = mock.recorded_requests();
    assert_eq!(requests.len(), 1);
    assert_eq!(requests[0].method, Method::POST);
}

#[test]
fn test_client_store_write_http_request() {
    let mock = MockExecutor::new().with_default_response(MockExecutor::success_response(Value::Null));
    let mut client = HttpClientStore::with_executor("https://api.example.com", mock.clone()).unwrap();
    let request = HttpRequest::delete("/users/1");
    let result = client.write_value(&Path::root(), Value::Null, Some(request));
    assert!(result.is_ok());
    let requests = mock.recorded_requests();
    assert_eq!(requests.len(), 1);
    assert_eq!(requests[0].method, Method::DELETE);
}

#[test]
fn test_client_store_default_headers() {
    let mock = MockExecutor::new().with_default_response(MockExecutor::success_response(Value::Null));
    let mut client = HttpClientStore::with_executor("https://api.example.com", mock.clone())
        .unwrap()
        .with_default_header("Authorization", "Bearer token123");
    client.read(&p("data")).unwrap();
    let requests = mock.recorded_requests();
    assert_eq!(requests[0].headers.get("Authorization"), Some(&"Bearer token123".to_string()));
}

#[test]
fn test_client_store_base_url_resolution() {
    let mock = MockExecutor::new().with_default_response(MockExecutor::success_response(Value::Null));
    let client = HttpClientStore::with_executor("https://api.example.com/v1/", mock.clone()).unwrap();
    let full_request = client.build_request(HttpRequest::get("users"));
    assert_eq!(full_request.path, "https://api.example.com/v1/users");
}

#[test]
fn test_client_store_absolute_url_preserved() {
    let mock = MockExecutor::new().with_default_response(MockExecutor::success_response(Value::Null));
    let client = HttpClientStore::with_executor("https://api.example.com", mock.clone()).unwrap();
    let full_request = client.build_request(HttpRequest::get("https://other.com/data"));
    assert_eq!(full_request.path, "https://other.com/data");
}

#[test]
fn test_client_store_request_headers_override_default() {
    let mock = MockExecutor::new().with_default_response(MockExecutor::success_response(Value::Null));
    let client = HttpClientStore::with_executor("https://api.example.com", mock.clone())
        .unwrap()
        .with_default_header("X-Custom", "default");
    let full_request = client.build_request(HttpRequest::get("/data").with_header("X-Custom", "override"));
    assert_eq!(full_request.headers.get("X-Custom"), Some(&"override".to_string()));
}

#[test]
fn test_client_store_write_failure() {
    let mock = MockExecutor::new().with_default_response(MockExecutor::error_response(400, "Bad Request"));
    let mut client = HttpClientStore::with_executor("https://api.example.com", mock).unwrap();
    let result = client.write_value(&p("data"), Value::Object(ValueMap::new()), None);
    assert!(result.is_err());
    assert!(result.unwrap_err().to_string().contains("400"));
}

#[test]
fn test_client_store_invalid_url() {
    let client = HttpClientStore::with_executor("not a url", MockExecutor::new());
    assert!(client.is_err());
}

#[test]
fn client_store_executor_failure_is_a_store_error() {
    let mock = MockExecutor::new().fail_with("connection refused");
    let mut client = HttpClientStore::with_executor("https://api.example.com", mock).unwrap();
    let err = client.read(&p("data")).unwrap_err();
    assert_eq!(err.to_string(), "http_client read failed: HTTP request failed: connection refused");
}

#[test]
fn client_store_docs_are_answered_locally() {
    let mock = MockExecutor::new().fail_with("no network");
    let mut client = HttpClientStore::with_executor("https://api.example.com", mock.clone()).unwrap();
    let record = client.read(&p("docs")).unwrap().unwrap();
    assert!(record.as_value().unwrap().is_map());
    assert!(mock.recorded_requests().is_empty());
}

#[test]
fn read_outcome_formats_failures() {
    let mut resp = response(503, "Service Unavailable");
    resp.body_text = Some("down".to_string());
    let err = read_outcome(resp).unwrap_err();
    assert_eq!(err.to_string(), "http_client read failed: HTTP 503 Service Unavailable: down");
    assert!(read_outcome(response(404, "Not Found")).unwrap().is_none());
    let ok = read_outcome(MockExecutor::success_response(Value::Integer(7))).unwrap().unwrap();
    assert_eq!(ok.as_value(), Some(&Value::Integer(7)));
}

#[test]
fn write_outcome_and_request() {
    let to = p("items/3");
    assert_eq!(write_outcome(&to, &response(201, "Created")).unwrap(), to);
    let err = write_outcome(&to, &response(409, "Conflict")).unwrap_err();
    assert_eq!(err.to_string(), "http_client write failed: HTTP 409 Conflict: ");
    let post = write_request(&to, Value::Integer(1), None);
    assert_eq!(post.method, Method::POST);
    assert_eq!(post.path, "items/3");
    assert_eq!(post.body, Some(Value::Integer(1)));
    let kept = write_request(&to, Value::Null, Some(HttpRequest::put("/x")));
    assert_eq!(kept.method, Method::POST);
    let root = write_request(&Path::root(), Value::Null, Some(HttpRequest::put("/x")));
    assert_eq!(root.method, Method::PUT);
    assert_eq!(root.path, "/x");
}


#[test]
fn text_map_keeps_one_value_per_name() {
    let mut m = TextMap::new();
    assert!(m.is_empty());
    m.insert("b".to_string(), "2".to_string());
    m.insert("a".to_string(), "1".to_string());
    m.insert("b".to_string(), "3".to_string());
    assert_eq!(m.len(), 2);
    assert_eq!(m.get("b"), Some(&"3".to_string()));
    assert!(m.contains_key("a"));
    assert!(!m.contains_key("c"));
    assert_eq!(m.pairs(), vec![("a".to_string(), "1".to_string()), ("b".to_string(), "3".to_string())]);
    let copy = m.clone();
    assert_eq!(copy.pairs(), m.pairs());
}

#[test]
fn test_http_client_docs() {
    let mock = MockExecutor::new();
    let mut client = HttpClientStore::with_executor("https://example.com", mock).unwrap();
    let result = client.read(&p("docs")).unwrap().unwrap();
    match result.as_value() {
        Some(Value::Object(map)) => {
            assert!(map.contains_key("title"));
            assert!(map.contains_key("description"));
            assert!(map.contains_key("paths"));
            assert!(map.contains_key("example"));
        },
        _ => panic!("Expected map"),
    }
}

#[test]
fn client_store_write_executor_failure_is_a_store_error() {
    let mock = MockExecutor::new().fail_with("connection refused");
    let mut client = HttpClientStore::with_executor("https://api.example.com", mock).unwrap();
    let err = client.write_value(&p("data"), Value::Null, None).unwrap_err();
    assert_eq!(err.to_string(), "http_client write failed: connection refused");
}
