use structfs::broker::{AsyncBroker, AsyncRead, SyncBroker, SyncRead};
use structfs::error::Error;
use structfs::http_api::{async_broker_docs, parse_handle_path, sync_broker_docs};
use structfs::path::Path;
use structfs::record::Record;
use structfs::value::{Value, ValueMap};

fn p(s: &str) -> Path {
    Path::parse(s).unwrap()
}

fn map_of(entries: Vec<(&str, Value)>) -> Value {
    let mut m = ValueMap::new();
    for (k, v) in entries {
        m.insert(k.to_string(), v);
    }
    Value::Object(m)
}

fn get_request(url: &str) -> Value {
    map_of(vec![("method", Value::from("GET")), ("path", Value::from(url))])
}

/// Reads a value as a request: a map with a string `path`.
fn parse_request(v: &Value) -> Result<Value, String> {
    match v {
        Value::Object(m) => match m.get("path") {
            Some(Value::String(_)) => Ok(v.clone()),
            _ => Err("missing field `path`".to_string()),
        },
        _ => Err("invalid type: expected struct HttpRequest".to_string()),
    }
}

fn queue(broker: &mut SyncBroker, request: Value) -> Result<Path, Error> {
    let parsed = parse_request(&request);
    broker.write(&p(""), Record::parsed(request), parsed)
}

/// Reads through the blocking broker, executing with `exec` when asked.
fn read_sync(
    broker: &mut SyncBroker,
    path: &Path,
    exec: &dyn Fn(&Value) -> Result<Value, String>,
) -> Result<Option<Record>, Error> {
    loop {
        match broker.read(path) {
            SyncRead::Answer(answer) => return answer,
            SyncRead::Execute(id, request) => {
                let outcome = exec(&request);
                broker.record_outcome(id, outcome);
            },
        }
    }
}

fn ok_response(body: Value) -> Value {
    map_of(vec![("status", Value::Integer(200)), ("status_text", Value::from("OK")), ("body", body)])
}

#[test]
fn test_parse_handle_path() {
    assert_eq!(parse_handle_path(&p("outstanding")), None);
    assert_eq!(parse_handle_path(&p("outstanding/0")), Some((0, None)));
    assert_eq!(parse_handle_path(&p("outstanding/123")), Some((123, None)));
    assert_eq!(parse_handle_path(&p("outstanding/0/request")), Some((0, Some("request".to_string()))));
    assert_eq!(
        parse_handle_path(&p("outstanding/0/response/status")),
        Some((0, Some("response/status".to_string())))
    );
    assert_eq!(parse_handle_path(&p("other/123")), None);
    assert_eq!(parse_handle_path(&p("")), None);
}

#[test]
fn test_broker_queue_request() {
    let mut broker = SyncBroker::new();
    let handle = queue(&mut broker, get_request("https://example.com")).unwrap();
    assert_eq!(handle.to_string(), "outstanding/0");
    assert_eq!(broker.handle_count(), 1);
}

#[test]
fn test_broker_with_mock_executor() {
    let mut broker = SyncBroker::new();
    let handle = queue(&mut broker, get_request("https://api.example.com/users")).unwrap();
    let exec = |_r: &Value| Ok(ok_response(Value::from("users")));
    let record = read_sync(&mut broker, &handle, &exec).unwrap().unwrap();
    let value = record.as_value().unwrap();
    assert_eq!(value.get(&p("status")), Some(&Value::Integer(200)));
    assert_eq!(value.get(&p("body")), Some(&Value::from("users")));
}

#[test]
fn test_broker_multiple_requests() {
    let mut broker = SyncBroker::new();
    let h1 = queue(&mut broker, get_request("/a")).unwrap();
    let h2 = queue(&mut broker, get_request("/b")).unwrap();
    assert_eq!(h1.to_string(), "outstanding/0");
    assert_eq!(h2.to_string(), "outstanding/1");
    assert_eq!(broker.handle_count(), 2);
    let exec = |r: &Value| {
        let url = r.get(&p("path")).cloned().unwrap();
        Ok(ok_response(url))
    };
    let r2 = read_sync(&mut broker, &h2, &exec).unwrap().unwrap();
    assert_eq!(r2.as_value().unwrap().get(&p("body")), Some(&Value::from("/b")));
    let r1 = read_sync(&mut broker, &h1, &exec).unwrap().unwrap();
    assert_eq!(r1.as_value().unwrap().get(&p("body")), Some(&Value::from("/a")));
}

#[test]
fn test_broker_request_not_found() {
    let broker = SyncBroker::new();
    match broker.read(&p("outstanding/999")) {
        SyncRead::Answer(Err(e)) => assert!(e.to_string().contains("not found")),
        _ => panic!("expected an error"),
    }
}

#[test]
fn test_broker_invalid_path() {
    let broker = SyncBroker::new();
    match broker.read(&p("invalid")) {
        SyncRead::Answer(Err(e)) => assert!(e.to_string().contains("Invalid path")),
        _ => panic!("expected an error"),
    }
}

#[test]
fn test_broker_http_error() {
    let mut broker = SyncBroker::new();
    let handle = queue(&mut broker, get_request("https://example.com")).unwrap();
    let exec = |_r: &Value| Err("Connection refused".to_string());
    let result = read_sync(&mut broker, &handle, &exec);
    assert!(result.unwrap_err().to_string().contains("Connection refused"));
}

#[test]
fn test_broker_invalid_request_data() {
    let mut broker = SyncBroker::new();
    let result = queue(&mut broker, Value::from("not a request"));
    assert!(result.is_err());
    assert!(result.unwrap_err().to_string().contains("Data must be an HttpRequest"));
}

#[test]
fn test_broker_idempotent_read() {
    let mut broker = SyncBroker::new();
    let handle = queue(&mut broker, get_request("https://api.example.com/data")).unwrap();
    let calls = std::cell::Cell::new(0);
    let exec = |_r: &Value| {
        calls.set(calls.get() + 1);
        Ok(ok_response(Value::Integer(42)))
    };
    let v1 = read_sync(&mut broker, &handle, &exec).unwrap().unwrap();
    let v2 = read_sync(&mut broker, &handle, &exec).unwrap().unwrap();
    assert_eq!(v1.as_value(), v2.as_value());
    assert_eq!(calls.get(), 1);
    assert!(broker.has_handle(0));
}

#[test]
fn test_broker_idempotent_read_error_cached() {
    let mut broker = SyncBroker::new();
    let handle = queue(&mut broker, get_request("https://example.com")).unwrap();
    let exec = |_r: &Value| Err("Network timeout".to_string());
    let r1 = read_sync(&mut broker, &handle, &exec);
    assert!(r1.unwrap_err().to_string().contains("Network timeout"));
    let never = |_r: &Value| -> Result<Value, String> { panic!("executed twice") };
    let r2 = read_sync(&mut broker, &handle, &never);
    assert!(r2.unwrap_err().to_string().contains("Network timeout"));
}

#[test]
fn test_broker_list_outstanding() {
    let mut broker = SyncBroker::new();
    queue(&mut broker, get_request("/a")).unwrap();
    queue(&mut broker, get_request("/b")).unwrap();
    let never = |_r: &Value| -> Result<Value, String> { panic!("no execution") };
    let listing = read_sync(&mut broker, &p("outstanding"), &never).unwrap().unwrap();
    assert_eq!(listing.as_value(), Some(&Value::Array(vec![Value::Integer(0), Value::Integer(1)])));
}

#[test]
fn test_broker_view_queued_request() {
    let mut broker = SyncBroker::new();
    let request = get_request("https://example.com");
    queue(&mut broker, request.clone()).unwrap();
    let never = |_r: &Value| -> Result<Value, String> { panic!("no execution") };
    let r = read_sync(&mut broker, &p("outstanding/0/request"), &never).unwrap().unwrap();
    assert_eq!(r.as_value(), Some(&request));
    let m = read_sync(&mut broker, &p("outstanding/0/request/method"), &never).unwrap().unwrap();
    assert_eq!(m.as_value(), Some(&Value::from("GET")));
}

#[test]
fn test_broker_unknown_subpath() {
    let mut broker = SyncBroker::new();
    queue(&mut broker, get_request("/a")).unwrap();
    match broker.read(&p("outstanding/0/unknown")) {
        SyncRead::Answer(Err(e)) => {
            assert!(e.to_string().contains("Unknown sub-path 'unknown'"));
        },
        _ => panic!("expected an error"),
    }
}

#[test]
fn test_broker_delete_handle() {
    let mut broker = SyncBroker::new();
    queue(&mut broker, get_request("/a")).unwrap();
    assert!(broker.has_handle(0));
    let out = broker.write(&p("outstanding/0"), Record::parsed(Value::Null), Err("unused".to_string())).unwrap();
    assert_eq!(out, p("outstanding/0"));
    assert!(!broker.has_handle(0));
    match broker.read(&p("outstanding/0")) {
        SyncRead::Answer(Err(e)) => assert!(e.to_string().contains("not found")),
        _ => panic!("expected an error"),
    }
}

#[test]
fn test_broker_cannot_overwrite_request() {
    let mut broker = SyncBroker::new();
    queue(&mut broker, get_request("/a")).unwrap();
    let result = broker.write(&p("outstanding/0"), Record::parsed(get_request("/b")), Ok(get_request("/b")));
    assert!(result.unwrap_err().to_string().contains("Cannot overwrite"));
}

#[test]
fn test_broker_invalid_write_path() {
    let mut broker = SyncBroker::new();
    let result = broker.write(&p("somewhere/else"), Record::parsed(Value::Null), Err("unused".to_string()));
    assert!(result.unwrap_err().to_string().contains("Invalid write path 'somewhere/else'"));
}

#[test]
fn test_broker_deep_response_navigation() {
    let mut broker = SyncBroker::new();
    let handle = queue(&mut broker, get_request("/a")).unwrap();
    let body = map_of(vec![("items", Value::Array(vec![Value::from("x"), Value::from("y")]))]);
    let exec = move |_r: &Value| Ok(ok_response(body.clone()));
    read_sync(&mut broker, &handle, &exec).unwrap();
    let never = |_r: &Value| -> Result<Value, String> { panic!("no execution") };
    let v = read_sync(&mut broker, &p("outstanding/0/response/body/items/1"), &never).unwrap().unwrap();
    assert_eq!(v.as_value(), Some(&Value::from("y")));
    let missing = read_sync(&mut broker, &p("outstanding/0/response/body/nothing"), &never);
    assert!(missing.unwrap_err().to_string().contains("Path not found at index 1: 'nothing'"));
}

#[test]
fn test_sync_broker_docs() {
    let broker = SyncBroker::new();
    match broker.read(&p("docs")) {
        SyncRead::Answer(Ok(Some(r))) => assert_eq!(r.as_value(), Some(&sync_broker_docs())),
        _ => panic!("expected docs"),
    }
}

fn queue_async(broker: &mut AsyncBroker, request: Value) -> (Path, Option<u64>) {
    let parsed = parse_request(&request);
    broker.write(&p(""), Record::parsed(request), parsed).unwrap()
}

fn answer(read: AsyncRead) -> Result<Option<Record>, Error> {
    match read {
        AsyncRead::Answer(a) => a,
        AsyncRead::Wait => panic!("unexpected wait"),
    }
}

#[test]
fn test_async_broker_queue_request() {
    let mut broker = AsyncBroker::new();
    let (handle, started) = queue_async(&mut broker, get_request("https://example.com"));
    assert_eq!(handle.to_string(), "outstanding/0");
    assert_eq!(started, Some(0));
    let status = answer(broker.read(&handle)).unwrap().unwrap();
    let v = status.as_value().unwrap();
    assert_eq!(v.get(&p("state")), Some(&Value::from("pending")));
    assert_eq!(v.get(&p("request/path")), Some(&Value::from("outstanding/0/request")));
    assert_eq!(v.get(&p("request/type/name")), Some(&Value::from("http-request")));
    assert!(v.get(&p("response")).is_none());
}

#[test]
fn test_async_broker_invalid_path() {
    let broker = AsyncBroker::new();
    assert!(answer(broker.read(&p("invalid"))).unwrap_err().to_string().contains("Invalid path"));
}

#[test]
fn test_async_broker_request_not_found() {
    let broker = AsyncBroker::new();
    assert!(answer(broker.read(&p("outstanding/999"))).unwrap_err().to_string().contains("not found"));
}

#[test]
fn test_async_broker_unknown_subpath() {
    let mut broker = AsyncBroker::new();
    queue_async(&mut broker, get_request("/a"));
    let err = answer(broker.read(&p("outstanding/0/bogus"))).unwrap_err();
    assert!(err.to_string().contains("Unknown sub-path 'bogus'"));
}

#[test]
fn test_async_broker_response_not_ready() {
    let mut broker = AsyncBroker::new();
    queue_async(&mut broker, get_request("/a"));
    assert!(answer(broker.read(&p("outstanding/0/response"))).unwrap().is_none());
    assert!(matches!(broker.read(&p("outstanding/0/response/wait")), AsyncRead::Wait));
}

#[test]
fn test_async_broker_invalid_request_data() {
    let mut broker = AsyncBroker::new();
    let result = broker.write(&p(""), Record::parsed(Value::from(3i64)), parse_request(&Value::from(3i64)));
    assert!(result.unwrap_err().to_string().contains("Data must be an HttpRequest"));
}

#[test]
fn test_async_broker_list_outstanding() {
    let mut broker = AsyncBroker::new();
    queue_async(&mut broker, get_request("/a"));
    queue_async(&mut broker, get_request("/b"));
    let listing = answer(broker.read(&p("outstanding"))).unwrap().unwrap();
    assert_eq!(listing.as_value(), Some(&Value::Array(vec![Value::Integer(0), Value::Integer(1)])));
}

#[test]
fn test_async_broker_view_queued_request() {
    let mut broker = AsyncBroker::new();
    let request = get_request("https://example.com");
    queue_async(&mut broker, request.clone());
    let r = answer(broker.read(&p("outstanding/0/request"))).unwrap().unwrap();
    assert_eq!(r.as_value(), Some(&request));
}

#[test]
fn test_async_broker_delete_handle() {
    let mut broker = AsyncBroker::new();
    queue_async(&mut broker, get_request("/a"));
    let (out, started) = broker.write(&p("outstanding/0"), Record::parsed(Value::Null), Err("unused".to_string())).unwrap();
    assert_eq!(out, p("outstanding/0"));
    assert_eq!(started, None);
    assert!(answer(broker.read(&p("outstanding/0"))).unwrap_err().to_string().contains("not found"));
}

#[test]
fn test_async_broker_cannot_overwrite() {
    let mut broker = AsyncBroker::new();
    queue_async(&mut broker, get_request("/a"));
    let result = broker.write(&p("outstanding/0"), Record::parsed(Value::from(1i64)), Err("x".to_string()));
    assert!(result.unwrap_err().to_string().contains("Cannot overwrite"));
}

#[test]
fn test_async_broker_invalid_write_path() {
    let mut broker = AsyncBroker::new();
    let result = broker.write(&p("x/y"), Record::parsed(Value::Null), Err("x".to_string()));
    assert!(result.unwrap_err().to_string().contains("Invalid write path"));
}

#[test]
fn test_async_broker_finish_completes() {
    let mut broker = AsyncBroker::new();
    let (handle, started) = queue_async(&mut broker, get_request("/a"));
    broker.finish(started.unwrap(), Ok(ok_response(Value::from("done"))));
    let status = answer(broker.read(&handle)).unwrap().unwrap();
    let v = status.as_value().unwrap();
    assert_eq!(v.get(&p("state")), Some(&Value::from("complete")));
    assert_eq!(v.get(&p("response/path")), Some(&Value::from("outstanding/0/response")));
    let body = answer(broker.read(&p("outstanding/0/response/wait/body"))).unwrap().unwrap();
    assert_eq!(body.as_value(), Some(&Value::from("done")));
    broker.finish(0, Err("late".to_string()));
    let again = answer(broker.read(&p("outstanding/0/response/body"))).unwrap().unwrap();
    assert_eq!(again.as_value(), Some(&Value::from("done")));
}

#[test]
fn test_async_broker_finish_fails() {
    let mut broker = AsyncBroker::new();
    let (handle, _) = queue_async(&mut broker, get_request("/a"));
    broker.finish(0, Err("boom".to_string()));
    let status = answer(broker.read(&handle)).unwrap().unwrap();
    let v = status.as_value().unwrap();
    assert_eq!(v.get(&p("state")), Some(&Value::from("failed")));
    assert_eq!(v.get(&p("error")), Some(&Value::from("boom")));
    let err = answer(broker.read(&p("outstanding/0/response/wait"))).unwrap_err();
    assert_eq!(err.to_string(), "async_http_broker read failed: HTTP request failed: boom");
}

#[test]
fn test_async_broker_docs() {
    let broker = AsyncBroker::new();
    let docs = answer(broker.read(&p("docs/anything"))).unwrap().unwrap();
    assert_eq!(docs.as_value(), Some(&async_broker_docs()));
}

#[test]
fn core_test_parse_handle_path() {
    assert_eq!(parse_handle_path(&p("outstanding")), None);
    assert_eq!(parse_handle_path(&p("outstanding/0")), Some((0, None)));
    assert_eq!(parse_handle_path(&p("outstanding/123")), Some((123, None)));
    assert_eq!(parse_handle_path(&p("outstanding/0/request")), Some((0, Some("request".to_string()))));
    assert_eq!(
        parse_handle_path(&p("outstanding/0/response/status")),
        Some((0, Some("response/status".to_string())))
    );
    assert_eq!(parse_handle_path(&p("other/123")), None);
    assert_eq!(parse_handle_path(&p("outstanding/abc")), None);
    assert_eq!(parse_handle_path(&p("")), None);
}

#[test]
fn test_async_broker_parse_handle_path() {
    assert_eq!(parse_handle_path(&p("outstanding/0")), Some((0, None)));
    assert_eq!(parse_handle_path(&p("outstanding/123/response")), Some((123, Some("response".to_string()))));
    assert_eq!(parse_handle_path(&p("outstanding")), None);
    assert_eq!(parse_handle_path(&p("other/123")), None);
    assert_eq!(parse_handle_path(&p("")), None);
    assert_eq!(parse_handle_path(&p("outstanding/abc")), None);
    assert_eq!(parse_handle_path(&p("outstanding/0/foo/bar")), Some((0, Some("foo/bar".to_string()))));
}

#[test]
fn test_broker_delete_updates_listing() {
    let mut broker = SyncBroker::new();
    let h1 = queue(&mut broker, get_request("/a")).unwrap();
    queue(&mut broker, get_request("/b")).unwrap();
    broker.write(&h1, Record::parsed(Value::Null), Err("unused".to_string())).unwrap();
    let never = |_r: &Value| -> Result<Value, String> { panic!("no execution") };
    let listing = read_sync(&mut broker, &p("outstanding"), &never).unwrap().unwrap();
    match listing.as_value() {
        Some(Value::Array(ids)) => {
            assert_eq!(ids.len(), 1);
            assert_eq!(ids[0], Value::Integer(1));
        },
        _ => panic!("Expected array"),
    }
}

#[test]
fn test_broker_deep_request_navigation() {
    let mut broker = SyncBroker::new();
    let handle = queue(&mut broker, get_request("https://api.example.com/users")).unwrap();
    let never = |_r: &Value| -> Result<Value, String> { panic!("no execution") };
    let method = read_sync(&mut broker, &handle.join(&p("request/method")), &never).unwrap().unwrap();
    assert_eq!(method.as_value(), Some(&Value::String("GET".to_string())));
    let path = read_sync(&mut broker, &handle.join(&p("request/path")), &never).unwrap().unwrap();
    assert_eq!(path.as_value(), Some(&Value::String("https://api.example.com/users".to_string())));
}

#[test]
fn test_broker_deep_navigation_missing_path() {
    let mut broker = SyncBroker::new();
    let handle = queue(&mut broker, get_request("/test")).unwrap();
    let exec = |_r: &Value| Ok(ok_response(map_of(vec![("a", Value::Integer(1))])));
    let result = read_sync(&mut broker, &handle.join(&p("response/body/nonexistent/path")), &exec);
    assert!(result.is_err());
    let err = result.unwrap_err().to_string();
    assert!(err.contains("nonexistent"), "Error should mention failing component: {}", err);
}
