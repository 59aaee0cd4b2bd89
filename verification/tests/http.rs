use structfs::http_api::{Method, RequestState, RequestStatus, SerializableReference};
use structfs::reference::Reference;

#[test]
fn request_status_pending() {
    let status = RequestStatus::pending("123".to_string());
    assert!(status.is_pending());
    assert!(!status.is_complete());
    assert!(!status.is_failed());
    assert_eq!(status.request.path, "outstanding/123/request");
    assert_eq!(status.request.type_info.as_ref().unwrap().name, "http-request");
    assert!(status.error.is_none());
    assert!(status.response.is_none());
}

#[test]
fn request_status_complete() {
    let status = RequestStatus::complete("456".to_string());
    assert!(!status.is_pending());
    assert!(status.is_complete());
    assert!(!status.is_failed());
    assert_eq!(status.request.path, "outstanding/456/request");
    assert!(status.error.is_none());
    let response = status.response.as_ref().unwrap();
    assert_eq!(response.path, "outstanding/456/response");
    assert_eq!(response.type_info.as_ref().unwrap().name, "http-response");
}

#[test]
fn request_status_failed() {
    let status = RequestStatus::failed("789".to_string(), "connection refused".to_string());
    assert!(!status.is_pending());
    assert!(!status.is_complete());
    assert!(status.is_failed());
    assert_eq!(status.request.path, "outstanding/789/request");
    assert_eq!(status.error, Some("connection refused".to_string()));
    assert!(status.response.is_none());
}

#[test]
fn request_state_equality() {
    assert_eq!(RequestState::Pending, RequestState::Pending);
    assert_eq!(RequestState::Complete, RequestState::Complete);
    assert_eq!(RequestState::Failed, RequestState::Failed);
    assert_ne!(RequestState::Pending, RequestState::Complete);
}

#[test]
fn serializable_reference_with_type() {
    let r = SerializableReference::with_type("outstanding/0/response", "http-response");
    assert_eq!(r.path, "outstanding/0/response");
    assert_eq!(r.type_info.as_ref().unwrap().name, "http-response");
}

#[test]
fn serializable_reference_from_reference() {
    let core_ref = Reference::with_type("handles/0", "handle");
    let ser_ref: SerializableReference = core_ref.into();
    assert_eq!(ser_ref.path, "handles/0");
    assert_eq!(ser_ref.type_info.as_ref().unwrap().name, "handle");
}

#[test]
fn method_default_is_get() {
    let method = Method::default();
    assert_eq!(method, Method::GET);
}

#[test]
fn method_to_http_method() {
    assert_eq!(http::Method::from(Method::GET), http::Method::GET);
    assert_eq!(http::Method::from(Method::POST), http::Method::POST);
    assert_eq!(http::Method::from(Method::PUT), http::Method::PUT);
    assert_eq!(http::Method::from(Method::DELETE), http::Method::DELETE);
    assert_eq!(http::Method::from(Method::PATCH), http::Method::PATCH);
    assert_eq!(http::Method::from(Method::HEAD), http::Method::HEAD);
    assert_eq!(http::Method::from(Method::OPTIONS), http::Method::OPTIONS);
}

#[test]
fn http_method_to_method() {
    assert_eq!(Method::from(http::Method::GET), Method::GET);
    assert_eq!(Method::from(http::Method::POST), Method::POST);
    assert_eq!(Method::from(http::Method::PUT), Method::PUT);
    assert_eq!(Method::from(http::Method::DELETE), Method::DELETE);
    assert_eq!(Method::from(http::Method::PATCH), Method::PATCH);
    assert_eq!(Method::from(http::Method::HEAD), Method::HEAD);
    assert_eq!(Method::from(http::Method::OPTIONS), Method::OPTIONS);
    assert_eq!(Method::from(http::Method::CONNECT), Method::GET);
}

#[test]
fn method_names_round_trip() {
    for m in [Method::GET, Method::POST, Method::PUT, Method::DELETE, Method::PATCH, Method::HEAD, Method::OPTIONS] {
        assert_eq!(Method::from_name(m.name()), m);
    }
    assert_eq!(Method::from_name("TRACE"), Method::GET);
}
