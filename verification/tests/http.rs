//! Authentication, guards, parameters and the error envelope.

use serde_json::Value;
use streams::config::ServerConfig;
use streams::error::Error;
use streams::http::{
    authenticate, decide_access, envelope_error, extract_bearer, is_probe_path,
    is_watch_stream_path, parse_json_body, query_bool, query_token, require_json_content_type,
    task_failure, unauthorized, Access,
};
use streams::name_map::NameMap;
use streams::types::ErrorCode;

#[test]
fn query_bool_parses_common_forms() {
    let mut p = NameMap::new();
    assert!(query_bool(&p, "touch", true));
    assert!(!query_bool(&p, "touch", false));
    p.insert("touch".to_string(), "false".to_string());
    assert!(!query_bool(&p, "touch", true));
    p.insert("touch".to_string(), "1".to_string());
    assert!(query_bool(&p, "touch", false));
}

#[test]
fn query_bool_falls_back_on_anything_else() {
    let mut p = NameMap::new();
    for odd in ["TRUE", "yes", "", "01"] {
        p.insert("touch".to_string(), odd.to_string());
        assert!(query_bool(&p, "touch", true));
        assert!(!query_bool(&p, "touch", false));
    }
    p.insert("touch".to_string(), "0".to_string());
    assert!(!query_bool(&p, "touch", true));
    p.insert("touch".to_string(), "true".to_string());
    assert!(query_bool(&p, "touch", false));
}

fn parse(body: &[u8]) -> Result<Value, String> {
    serde_json::from_slice(body).map_err(|e| e.to_string())
}

#[test]
fn parse_json_body_requires_content_type() {
    let r = parse_json_body(None, parse(b"{}"));
    assert_eq!(r.unwrap_err().code, ErrorCode::UnsupportedMediaType);
}

#[test]
fn parse_json_body_rejects_bad_json() {
    let r = parse_json_body(Some("application/json"), parse(b"{bad"));
    let e = r.unwrap_err();
    assert_eq!(e.code, ErrorCode::InvalidRequest);
    assert!(e.message.starts_with("malformed JSON body: "));
}

#[test]
fn parse_json_body_hands_on_what_was_parsed() {
    let r = parse_json_body(Some(" application/json; charset=utf-8"), parse(b"[1]"));
    assert_eq!(r.unwrap(), Value::from(vec![1]));
    let r = parse_json_body(Some("text/plain"), parse(b"{bad"));
    assert_eq!(r.unwrap_err().message, "Content-Type must be application/json");
}

#[test]
fn query_token_basic_and_decoded() {
    assert_eq!(query_token(None), None);
    assert_eq!(query_token(Some("token=abc")), Some("abc".to_string()));
    assert_eq!(query_token(Some("x=1&token=abc&y=2")), Some("abc".to_string()));
    assert_eq!(
        query_token(Some("token=a%2Bb%3Dc")),
        Some("a+b=c".to_string())
    );
    assert_eq!(query_token(Some("token=a+b")), Some("a b".to_string()));
    assert_eq!(query_token(Some("tokenx=abc")), None);
}

#[test]
fn query_token_takes_first_duplicate() {
    assert_eq!(
        query_token(Some("token=first&token=second")),
        Some("first".to_string())
    );
}

#[test]
fn watch_stream_path_matches_only_the_get_stream() {
    assert!(is_watch_stream_path("/v0/watch/wid_abc"));
    assert!(!is_watch_stream_path("/v0/watch"));
    assert!(!is_watch_stream_path("/v0/watch/"));
    assert!(!is_watch_stream_path("/v0/watch/wid/extra"));
    assert!(!is_watch_stream_path("/v0/boxes/jobs"));
}

#[test]
fn probe_paths() {
    for p in ["/healthz", "/readyz", "/v0/health", "/v0/ready"] {
        assert!(is_probe_path(p), "{p}");
    }
    assert!(!is_probe_path("/v0/metrics"));
    assert!(!is_probe_path("/v0/healthz"));
    assert!(!is_probe_path("/v0/health/"));
    assert!(!is_probe_path(""));
}

#[test]
fn bearer_tokens_are_trimmed() {
    assert_eq!(extract_bearer(None), None);
    assert_eq!(extract_bearer(Some("Bearer  k1 ")), Some("k1"));
    assert_eq!(extract_bearer(Some("bearer k1")), None);
    assert_eq!(extract_bearer(Some("Basic k1")), None);
    assert_eq!(extract_bearer(Some("Bearer ")), Some(""));
}

fn keyed() -> ServerConfig {
    let mut cfg = ServerConfig::default();
    cfg.api_keys = vec!["k1".to_string(), "k2".to_string()];
    cfg
}

#[test]
fn without_keys_everything_is_open() {
    let cfg = ServerConfig::default();
    assert!(matches!(authenticate(&cfg, false, "/v0/boxes/a", None, None), Access::Open));
}

#[test]
fn with_keys_a_request_needs_one_of_them() {
    let cfg = keyed();
    match authenticate(&cfg, false, "/v0/boxes/a", Some("Bearer k2"), None) {
        Access::Granted(p) => assert_eq!(p.0, "k2"),
        other => panic!("{other:?}"),
    }
    assert!(matches!(
        authenticate(&cfg, false, "/v0/boxes/a", Some("Bearer k3"), None),
        Access::Denied
    ));
    assert!(matches!(authenticate(&cfg, false, "/v0/boxes/a", None, None), Access::Denied));
    // The header goes before the query, even where it is wrong.
    assert!(matches!(
        authenticate(&cfg, true, "/v0/boxes/a", Some("Bearer no"), Some("token=k1")),
        Access::Denied
    ));
    match authenticate(&cfg, true, "/v0/boxes/a", None, Some("token=k1")) {
        Access::Granted(p) => assert_eq!(p.0, "k1"),
        other => panic!("{other:?}"),
    }
    assert!(matches!(decide_access(&cfg, false, "/x", None), Access::Denied));
    assert_eq!(unauthorized().http_status(), 401);
    assert_eq!(unauthorized().message, "missing or invalid bearer token");
}

#[test]
fn probes_and_streams_are_open_with_keys() {
    let mut cfg = keyed();
    assert!(matches!(authenticate(&cfg, true, "/healthz", None, None), Access::Open));
    assert!(matches!(authenticate(&cfg, true, "/v0/watch/wid_a", None, None), Access::Open));
    // The metrics need a key.
    assert!(matches!(authenticate(&cfg, true, "/v0/metrics", None, None), Access::Denied));
    // Only a GET of the stream is: creating a session is not.
    assert!(matches!(authenticate(&cfg, false, "/v0/watch/wid_a", None, None), Access::Denied));
    assert!(matches!(authenticate(&cfg, false, "/v0/watch", None, None), Access::Denied));
    cfg.probe_auth = true;
    assert!(matches!(authenticate(&cfg, true, "/healthz", None, None), Access::Denied));
}

#[test]
fn json_content_types() {
    assert!(require_json_content_type(Some("application/json")).is_ok());
    assert!(require_json_content_type(Some("  application/json;charset=x")).is_ok());
    let e = require_json_content_type(Some("text/json")).unwrap_err();
    assert_eq!(e.code, ErrorCode::UnsupportedMediaType);
    assert_eq!(e.message, "Content-Type must be application/json");
    assert!(require_json_content_type(None).is_err());
}

#[test]
fn bare_responses_get_an_envelope() {
    let cases = [
        (413, ErrorCode::PayloadTooLarge, "request body exceeds the server limit"),
        (404, ErrorCode::NotFound, "resource not found"),
        (405, ErrorCode::MethodNotAllowed, "method not allowed for this path"),
        (415, ErrorCode::UnsupportedMediaType, "Content-Type must be application/json"),
    ];
    for (status, code, message) in cases {
        let e = envelope_error(status, None).unwrap();
        assert_eq!(e.code, code);
        assert_eq!(e.message, message);
        assert_eq!(e.http_status(), status);
        assert!(envelope_error(status, Some("text/plain")).is_some());
        assert!(envelope_error(status, Some("application/json")).is_none());
    }
    assert!(envelope_error(200, None).is_none());
    assert!(envelope_error(500, None).is_none());
}

#[test]
fn errors_as_they_are_sent() {
    let e = Error::box_not_found("jobs");
    let r = e.response();
    assert_eq!(r.status, 404);
    assert_eq!(
        r.body.to_string(),
        r#"{"error":{"code":"box_not_found","detail":{"box":"jobs"},"message":"box \"jobs\" does not exist"}}"#
    );
    assert_eq!(r.retry_after, None);

    let r = Error::new(ErrorCode::Throttled, "slow down").with_retry_after(30).response();
    assert_eq!(r.status, 429);
    assert_eq!(r.retry_after, Some("30".to_string()));
    assert_eq!(
        r.body.to_string(),
        r#"{"error":{"code":"throttled","message":"slow down"}}"#
    );
}

#[test]
fn the_error_constructors() {
    assert_eq!(Error::not_a_queue("a\"b").message, "box \"a\\\"b\" is not a queue");
    assert_eq!(Error::not_a_queue("q").http_status(), 409);
    assert_eq!(Error::router_not_found("r").message, "router \"r\" does not exist");
    assert_eq!(
        Error::router_not_found("r").envelope().error.detail.unwrap().to_string(),
        r#"{"router":"r"}"#
    );
    assert_eq!(Error::internal("x").http_status(), 500);
    assert_eq!(Error::invalid_request("x").http_status(), 400);
    let d = Error::internal("x").with_detail(Value::from(3));
    assert_eq!(d.envelope().error.detail, Some(Value::from(3)));
    assert_eq!(d.envelope().error.code, "internal");
}

#[test]
fn codes_and_statuses() {
    let all = [
        (ErrorCode::InvalidRequest, "invalid_request", 400),
        (ErrorCode::Unauthorized, "unauthorized", 401),
        (ErrorCode::Forbidden, "forbidden", 403),
        (ErrorCode::NotFound, "not_found", 404),
        (ErrorCode::BoxNotFound, "box_not_found", 404),
        (ErrorCode::RouterNotFound, "router_not_found", 404),
        (ErrorCode::MethodNotAllowed, "method_not_allowed", 405),
        (ErrorCode::NotAcceptable, "not_acceptable", 406),
        (ErrorCode::BoxNotEmpty, "box_not_empty", 409),
        (ErrorCode::NotAQueue, "not_a_queue", 409),
        (ErrorCode::PayloadTooLarge, "payload_too_large", 413),
        (ErrorCode::UnsupportedMediaType, "unsupported_media_type", 415),
        (ErrorCode::Throttled, "throttled", 429),
        (ErrorCode::Internal, "internal", 500),
        (ErrorCode::NotReady, "not_ready", 503),
    ];
    for (code, text, status) in all {
        assert_eq!(code.code(), text);
        assert_eq!(code.status(), status);
    }
}

#[test]
fn a_task_that_did_not_end_is_an_internal_error() {
    let e = task_failure("task 7 panicked");
    assert_eq!(e.code, ErrorCode::Internal);
    assert_eq!(e.message, "engine task failed: task 7 panicked");
    assert_eq!(e.http_status(), 500);
}
