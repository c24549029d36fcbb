//! The decisions of the box, router, health and metrics endpoints.

use serde_json::Value;
use streams::auth::Principal;
use streams::http::boxes::{
    authorize_write, created_status, list_query, long_poll, page_size, principal_prefixes,
    with_header_key,
};
use streams::http::health::{health_body, metrics, readiness, render_prometheus, Metrics};
use streams::http::routers::{authorize_route, authorize_router_endpoints};
use streams::name_map::NameMap;
use streams::types::{DiffResponse, ErrorCode, Tombstone, TombstoneReason, WriteRequest};

fn limited(prefixes: &[&str], admin: bool) -> Principal {
    Principal {
        key_id: 1,
        read: true,
        write: true,
        admin,
        prefixes: prefixes.iter().map(|p| p.to_string()).collect(),
    }
}

fn params(pairs: &[(&str, &str)]) -> NameMap<String> {
    let mut m = NameMap::new();
    for (k, v) in pairs {
        m.insert(k.to_string(), v.to_string());
    }
    m
}

#[test]
fn created_or_not() {
    assert_eq!(created_status(true), 201);
    assert_eq!(created_status(false), 200);
}

#[test]
fn page_sizes() {
    assert_eq!(page_size(&params(&[])), 100);
    assert_eq!(page_size(&params(&[("page_size", "7")])), 7);
    assert_eq!(page_size(&params(&[("page_size", "seven")])), 100);
    assert_eq!(page_size(&params(&[("page_size", "5000")])), 5000);
}

#[test]
fn a_listing_asks_within_its_prefixes() {
    let p = limited(&["t:"], false);
    let q = list_query(&params(&[("prefix", "t:a"), ("cursor", "c")]), Some(&p));
    assert_eq!(q.prefix.as_deref(), Some("t:a"));
    assert_eq!(q.cursor.as_deref(), Some("c"));
    assert!(!q.touch);
    assert_eq!(q.allow, vec!["t:"]);
    assert_eq!(q.page_size, 100);
    let q = list_query(&params(&[("touch", "1")]), None);
    assert!(q.touch && q.allow.is_empty() && q.prefix.is_none());
    let q = streams::http::routers::list_query(&params(&[("source", "a"), ("dest", "b")]), None);
    assert_eq!((q.source.as_deref(), q.dest.as_deref()), (Some("a"), Some("b")));
    assert!(principal_prefixes(None).is_empty());
}

fn write() -> WriteRequest {
    WriteRequest {
        records: Vec::new(),
        node: None,
        idempotency_key: None,
        create: None,
        config: None,
        disable_backpressure: false,
    }
}

#[test]
fn the_body_key_goes_before_the_header_key() {
    assert_eq!(with_header_key(write(), None).idempotency_key, None);
    assert_eq!(with_header_key(write(), Some("h")).idempotency_key.as_deref(), Some("h"));
    let req = WriteRequest { idempotency_key: Some("b".to_string()), ..write() };
    assert_eq!(with_header_key(req, Some("h")).idempotency_key.as_deref(), Some("b"));
}

#[test]
fn configuring_a_new_box_takes_admin() {
    let writer = limited(&[], false);
    let admin = limited(&[], true);
    assert!(authorize_write(Some(&writer), false, false, "b").is_ok());
    assert!(authorize_write(Some(&writer), true, true, "b").is_ok());
    assert!(authorize_write(Some(&admin), true, false, "b").is_ok());
    assert!(authorize_write(None, true, false, "b").is_ok());
    let e = authorize_write(Some(&writer), true, false, "b").unwrap_err();
    assert_eq!(e.code, ErrorCode::Forbidden);
    assert_eq!(e.message, "configuring a new box on write requires the admin scope");
    assert_eq!(e.detail.unwrap().to_string(), r#"{"box":"b"}"#);
}

fn response(records: usize, tombstone: bool, caught_up: bool) -> DiffResponse {
    let rec = |seq: u64| streams::types::RecordOut {
        seq,
        ts: 0,
        node: None,
        tag: None,
        type_: None,
        data: Value::Null,
        meta: None,
    };
    DiffResponse {
        records: (0..records as u64).map(rec).collect(),
        next_from_seq: 0,
        head_seq: 0,
        earliest_seq: 1,
        caught_up,
        tombstone: if tombstone {
            Some(Tombstone {
                gap_from: 1,
                gap_to: 2,
                reason: TombstoneReason::Cap,
                earliest_seq: 3,
                head_seq: 3,
            })
        } else {
            None
        },
        lag: 0,
    }
}

#[test]
fn only_a_read_with_nothing_to_say_is_held_back() {
    assert_eq!(long_poll(0, &response(0, false, true)), None);
    assert_eq!(long_poll(500, &response(0, false, true)), Some(500));
    assert_eq!(long_poll(99_999, &response(0, false, true)), Some(30_000));
    assert_eq!(long_poll(500, &response(1, false, true)), None);
    assert_eq!(long_poll(500, &response(0, true, true)), None);
    assert_eq!(long_poll(500, &response(0, false, false)), None);
}

#[test]
fn routes_stay_within_the_prefixes_of_a_key() {
    let p = limited(&["a", "c"], true);
    assert!(authorize_route(None, "x", "y").is_ok());
    assert!(authorize_route(Some(&p), "a1", "c1").is_ok());
    let detail = |r: streams::error::Result<()>| r.unwrap_err().detail.unwrap().to_string();
    assert_eq!(detail(authorize_route(Some(&p), "b1", "d1")), r#"{"box":"b1"}"#);
    assert_eq!(detail(authorize_route(Some(&p), "a1", "d1")), r#"{"box":"d1"}"#);
    let e = authorize_route(Some(&p), "b", "a").unwrap_err();
    assert_eq!(e.message, "api key is not allowed to route to/from this box");

    assert!(authorize_router_endpoints(None, "r", Some(("x", "y"))).is_ok());
    assert!(authorize_router_endpoints(Some(&p), "zz", None).is_ok());
    assert!(authorize_router_endpoints(Some(&p), "a", Some(("a", "c"))).is_ok());
    let all = limited(&[], false);
    assert!(authorize_router_endpoints(Some(&all), "r", Some(("x", "y"))).is_ok());
    assert_eq!(
        detail(authorize_router_endpoints(Some(&p), "r", Some(("x", "y")))),
        r#"{"box":"r"}"#
    );
    assert_eq!(
        detail(authorize_router_endpoints(Some(&p), "a", Some(("x", "y")))),
        r#"{"box":"x"}"#
    );
    let e = authorize_router_endpoints(Some(&p), "a", Some(("c", "y"))).unwrap_err();
    assert_eq!(e.code, ErrorCode::Forbidden);
    assert_eq!(e.message, "api key is not allowed to access this router's box(es)");
}

#[test]
fn health_and_readiness() {
    assert_eq!(
        health_body("1.2.3", 44).to_string(),
        r#"{"status":"ok","uptime_ms":44,"version":"1.2.3"}"#
    );
    assert_eq!(
        readiness(true, 3, Value::Null).unwrap().to_string(),
        r#"{"boxes":3,"status":"ready","wal_replay_complete":true}"#
    );
    let e = readiness(false, 3, Value::from(0.5)).unwrap_err();
    let r = e.response();
    assert_eq!(r.status, 503);
    assert_eq!(r.retry_after.as_deref(), Some("1"));
    assert_eq!(
        r.body.to_string(),
        r#"{"error":{"code":"not_ready","detail":{"replay_progress":0.5},"message":"WAL replay in progress"}}"#
    );
}

#[test]
fn metrics_in_two_forms() {
    let text = "# HELP streams_boxes Number of boxes.\n# TYPE streams_boxes gauge\nstreams_boxes 120\n";
    assert_eq!(render_prometheus(120), text);
    match metrics(None, 120) {
        Metrics::Text(t) => assert_eq!(t, text),
        Metrics::Json(v) => panic!("{v}"),
    }
    match metrics(Some("text/html, application/json"), 0) {
        Metrics::Json(v) => assert_eq!(v.to_string(), r#"{"boxes":0}"#),
        Metrics::Text(t) => panic!("{t}"),
    }
}
