//! Watch sessions, cursor ids and the stream of a session.

use serde_json::Value;
use std::sync::Arc;
use streams::http::watch::{
    bearer_from_request, check_watch, copy_cursors, create_session, decode_cursor_id,
    deliver_read, encode_session_id, open_stream, require_event_stream_accept, resume_from,
    rewind, seed_cursors,
    ReadOutcome, Session, SessionStore, StreamStep, WatchFrame, WatchStream,
};
use streams::name_map::NameMap;
use streams::types::{
    Consistency, DiffResponse, ErrorCode, NodeFilter, RecordOut, Tombstone, TombstoneReason,
    WatchBoxOptions, WatchBoxState, WatchCreateRequest,
};

fn request() -> WatchCreateRequest {
    WatchCreateRequest {
        node: None,
        boxes: NameMap::new(),
        limit: 256,
        max_batch_bytes: 262_144,
        heartbeat_ms: 15_000,
        include_meta: true,
        include_tags: false,
        include_data: true,
        consistency: Consistency::Eventual,
    }
}

fn cursors(pairs: &[(&str, u64)]) -> NameMap<u64> {
    let mut m = NameMap::new();
    for (name, seq) in pairs {
        m.insert(name.to_string(), *seq);
    }
    m
}

#[test]
fn composite_id_round_trips() {
    let session = Session {
        req: Arc::new(request()),
        cursors: cursors(&[("jobs", 5210), ("events", 88130)]),
        principal: None,
    };
    let id = encode_session_id(&session);
    let decoded = decode_cursor_id(&id).expect("decodes");
    assert_eq!(decoded.get("jobs"), Some(&5210));
    assert_eq!(decoded.get("events"), Some(&88130));
}

#[test]
fn ids_are_base64url_of_sorted_json() {
    let session = Session { req: Arc::new(request()), cursors: cursors(&[("jobs", 1)]), principal: None };
    assert_eq!(encode_session_id(&session), "eyJqb2JzIjoxfQ");
    let session = Session {
        req: Arc::new(request()),
        cursors: cursors(&[("jobs", 1), ("a", 2)]),
        principal: None,
    };
    // {"a":2,"jobs":1}
    assert_eq!(encode_session_id(&session), "eyJhIjoyLCJqb2JzIjoxfQ");
    let none = Session { req: Arc::new(request()), cursors: NameMap::new(), principal: None };
    assert_eq!(encode_session_id(&none), "e30");
}

#[test]
fn ids_that_do_not_read_are_refused() {
    assert!(decode_cursor_id("!!").is_none());
    assert!(decode_cursor_id("eyJqb2JzIjoxfQ==").is_none());
    // [1]
    assert!(decode_cursor_id("WzFd").is_none());
    assert!(decode_cursor_id("").is_none());
    assert_eq!(decode_cursor_id("e30").unwrap().len(), 0);
}

fn empty_session(principal: Option<String>) -> Session {
    Session { req: Arc::new(request()), cursors: NameMap::new(), principal }
}

#[test]
fn session_authorize_capability_and_binding() {
    let dev = empty_session(None);
    assert!(dev.authorize(None));
    assert!(dev.authorize(Some("anything")));

    let bound = empty_session(Some("s3cr3t".to_string()));
    assert!(bound.authorize(None));
    assert!(bound.authorize(Some("s3cr3t")));
    assert!(!bound.authorize(Some("wrong")));
}

#[test]
fn alloc_wid_is_prefixed_random_and_unique() {
    let a = SessionStore::alloc_wid();
    let b = SessionStore::alloc_wid();
    assert!(a.starts_with("wid_"), "wid keeps the documented prefix: {a}");
    assert_ne!(a, b, "wids must be unique/random, not monotonic");
    assert_eq!(a.len(), 26, "wid carries >=128 bits of randomness: {a}");
    let suffix = a.strip_prefix("wid_").unwrap();
    assert!(
        suffix.bytes().all(|c| c.is_ascii_alphanumeric() || c == b'-' || c == b'_'),
        "suffix is base64url: {suffix}"
    );
}

#[test]
fn a_wid_is_made_of_its_bytes() {
    assert_eq!(SessionStore::wid_of([0u8; 16]), "wid_AAAAAAAAAAAAAAAAAAAAAA");
    assert_eq!(SessionStore::wid_of([255u8; 16]), "wid______________________w");
}

#[test]
fn accept_guard_rejects_non_sse() {
    assert_eq!(
        require_event_stream_accept(Some("application/json")).unwrap_err().code,
        ErrorCode::NotAcceptable
    );
    assert!(require_event_stream_accept(Some("text/event-stream")).is_ok());
}

#[test]
fn accept_guard_tolerates_curl() {
    assert!(require_event_stream_accept(None).is_ok());
    assert!(require_event_stream_accept(Some("")).is_ok());
    assert!(require_event_stream_accept(Some("text/html, */*;q=0.1")).is_ok());
    assert!(require_event_stream_accept(Some("text/html, text/event-stream")).is_ok());
    assert!(require_event_stream_accept(Some("text/event")).is_err());
}

#[test]
fn the_header_goes_before_the_query() {
    assert_eq!(bearer_from_request(None, None), None);
    assert_eq!(bearer_from_request(Some("Bearer a "), Some("b")), Some("a".to_string()));
    assert_eq!(bearer_from_request(Some("Basic a"), Some("b")), Some("b".to_string()));
    assert_eq!(bearer_from_request(None, Some("b")), Some("b".to_string()));
}

#[test]
fn subscriptions_are_checked_and_clamped() {
    let e = check_watch(request()).unwrap_err();
    assert_eq!(e.code, ErrorCode::InvalidRequest);
    assert_eq!(e.message, "watch must name >=1 box");

    let with = |n: usize, heartbeat_ms: u64| {
        let mut req = request();
        req.heartbeat_ms = heartbeat_ms;
        for i in 0..n {
            req.boxes.insert(format!("b{i}"), WatchBoxOptions { from_seq: 0, tail: false });
        }
        check_watch(req)
    };
    assert_eq!(with(257, 1).unwrap_err().message, "watch names 257 boxes, exceeds max 256");
    assert_eq!(with(256, 1).unwrap().heartbeat_ms, 1_000);
    assert_eq!(with(1, 15_000).unwrap().heartbeat_ms, 15_000);
    assert_eq!(with(1, 99_999).unwrap().heartbeat_ms, 60_000);
}

fn states(pairs: &[(&str, u64, u64)]) -> NameMap<WatchBoxState> {
    let mut m = NameMap::new();
    for (name, from_seq, head_seq) in pairs {
        m.insert(
            name.to_string(),
            WatchBoxState { from_seq: *from_seq, head_seq: *head_seq, earliest_seq: 1 },
        );
    }
    m
}

#[test]
fn a_session_is_kept_and_found_again() {
    let mut store = SessionStore::default();
    let st = states(&[("jobs", 3, 9), ("events", 4, 4)]);
    let seeded = seed_cursors(&st);
    assert_eq!(seeded.get("jobs"), Some(&3));
    let resp = create_session(
        &mut store,
        request(),
        st,
        Some("k".to_string()),
        Value::from("fast"),
    );
    assert_eq!(resp.performance, Value::from("fast"));
    assert_eq!(resp.stream_url, format!("/v0/watch/{}", resp.wid));
    assert_eq!(resp.session_ttl_ms, 300_000);
    assert_eq!(resp.boxes.get("jobs").unwrap().head_seq, 9);

    let session = store.get(&resp.wid).expect("kept");
    assert_eq!(session.cursors.get("jobs"), Some(&3));
    assert_eq!(session.cursors.get("events"), Some(&4));
    assert_eq!(session.principal.as_deref(), Some("k"));
    assert!(store.get("wid_nope").is_none());

    let other = store.insert(empty_session(None));
    assert!(store.get(&other).is_some());
    assert_eq!(store.get(&resp.wid).unwrap().cursors.get("jobs"), Some(&3));

    store.set_cursors(&resp.wid, cursors(&[("jobs", 8)]));
    assert_eq!(store.get(&resp.wid).unwrap().principal.as_deref(), Some("k"));
    assert_eq!(store.get(&resp.wid).unwrap().cursors.get("jobs"), Some(&8));
}

#[test]
fn opening_a_stream_checks_in_order() {
    let mut store = SessionStore::new();
    let wid = store.insert(Session {
        req: Arc::new(request()),
        cursors: cursors(&[("jobs", 10)]),
        principal: Some("k".to_string()),
    });
    let code = |r: streams::error::Result<Arc<Session>>| r.err().map(|e| e.code);
    assert_eq!(
        code(open_stream(&mut store, "wid_x", Some("text/html"), None, None, None, None)),
        Some(ErrorCode::NotAcceptable)
    );
    assert_eq!(
        code(open_stream(&mut store, "wid_x", None, Some("Bearer no"), None, None, None)),
        Some(ErrorCode::NotFound)
    );
    // {"jobs":1}, by someone with another key
    let id = Some("eyJqb2JzIjoxfQ");
    assert_eq!(
        code(open_stream(&mut store, &wid, None, Some("Bearer no"), None, id, None)),
        Some(ErrorCode::Unauthorized)
    );
    assert_eq!(code(open_stream(&mut store, &wid, None, Some("Bearer k"), None, None, None)), None);
    let session = open_stream(&mut store, &wid, None, None, None, None, None).unwrap();
    assert_eq!(session.cursors.get("jobs"), Some(&10));
    let session = open_stream(&mut store, &wid, None, None, None, Some("garbage!"), None).unwrap();
    assert_eq!(session.cursors.get("jobs"), Some(&10));
    // Resuming takes the session's own cursors back, and they stay there.
    let session = open_stream(&mut store, &wid, None, None, Some("k"), id, None).unwrap();
    assert_eq!(session.cursors.get("jobs"), Some(&1));
    assert_eq!(session.req.limit, 256);
    let session = open_stream(&mut store, &wid, None, None, None, None, None).unwrap();
    assert_eq!(session.cursors.get("jobs"), Some(&1));
}

#[test]
fn the_streams_of_a_session_share_its_cursors() {
    let mut store = SessionStore::new();
    let wid = store.insert(Session {
        req: Arc::new(request()),
        cursors: cursors(&[("a", 0), ("b", 5)]),
        principal: None,
    });
    let (mut one, _) = WatchStream::open(&store.get(&wid).unwrap().cursors);
    let (mut two, _) = WatchStream::open(&store.get(&wid).unwrap().cursors);
    let frames = deliver_read(&mut store, &wid, &mut one, 0, diff(vec![rec(1)], 1, 2, None));
    assert_eq!(kinds(&frames), vec!["record"]);
    assert_eq!(decode_cursor_id(&id_of(&frames[0])).unwrap().get("b"), Some(&5));
    // The other stream reads on from there, and is told what it was not told yet.
    let session = store.get(&wid).unwrap();
    assert_eq!(two.request(&session, 0).from_seq, 1);
    let frames = deliver_read(&mut store, &wid, &mut two, 1, diff(vec![rec(2)], 2, 2, None));
    assert_eq!(kinds(&frames), vec!["record", "caught-up"]);
    assert_eq!(store.get(&wid).unwrap().cursors.get("a"), Some(&2));
    assert_eq!(store.get(&wid).unwrap().cursors.get("b"), Some(&5));
}

#[test]
fn resuming_only_goes_back() {
    let mut c = cursors(&[("a", 5), ("b", 5), ("c", 5)]);
    rewind(&mut c, &cursors(&[("a", 3), ("b", 9), ("x", 1)]));
    assert_eq!(c.get("a"), Some(&3));
    assert_eq!(c.get("b"), Some(&5));
    assert_eq!(c.get("c"), Some(&5));
    assert_eq!(c.get("x"), None);
    let copy = copy_cursors(&c);
    assert_eq!(copy.get("a"), Some(&3));
    assert_eq!(copy.len(), 3);
}

fn rec(seq: u64) -> RecordOut {
    RecordOut {
        seq,
        ts: 0,
        node: None,
        tag: None,
        type_: None,
        data: Value::from(seq),
        meta: None,
    }
}

fn diff(records: Vec<RecordOut>, next: u64, head: u64, tombstone: Option<Tombstone>) -> ReadOutcome {
    ReadOutcome::Read(DiffResponse {
        records,
        next_from_seq: next,
        head_seq: head,
        earliest_seq: 1,
        caught_up: next >= head,
        tombstone,
        lag: head.saturating_sub(next),
    })
}

fn kinds(frames: &[WatchFrame]) -> Vec<&'static str> {
    frames.iter().map(|f| f.event_name().unwrap_or("retry")).collect()
}

fn id_of(f: &WatchFrame) -> String {
    match f {
        WatchFrame::Record { id, .. }
        | WatchFrame::Tombstone { id, .. }
        | WatchFrame::CaughtUp { id, .. }
        | WatchFrame::BoxDeleted { id, .. } => id.clone(),
        WatchFrame::Retry { .. } => String::new(),
    }
}

#[test]
fn a_stream_starts_with_the_backoff_and_reads_the_boxes_in_order() {
    let (stream, first) = WatchStream::open(&cursors(&[("b", 2), ("a", 1)]));
    assert!(matches!(first, WatchFrame::Retry { retry_ms: 2_000 }));
    assert_eq!(first.event_name(), None);
    assert!(first.payload().is_none());
    assert_eq!(stream.next_step(), StreamStep::Read(0));
    assert_eq!(stream.boxes[0].name, "a");
    let session = Session {
        req: Arc::new(WatchCreateRequest {
            node: Some(NodeFilter::One("me".to_string())),
            limit: 7,
            ..request()
        }),
        cursors: cursors(&[("b", 2)]),
        principal: None,
    };
    let req = stream.request(&session, 1);
    assert_eq!((req.from_seq, req.limit, req.wait_ms), (2, 7, 0));
    assert_eq!(stream.request(&session, 0).from_seq, 0, "no cursor, from the start");
    assert!(req.include_meta && !req.include_tags);
    assert!(req.node.unwrap().matches("me"));
}

#[test]
fn records_then_caught_up_once() {
    let mut cur = cursors(&[("jobs", 0)]);
    let (mut stream, _) = WatchStream::open(&cur);
    let frames = stream.on_read(&mut cur, 0, diff(vec![rec(1), rec(2)], 2, 3, None));
    assert_eq!(kinds(&frames), vec!["record"]);
    assert_eq!(stream.next_step(), StreamStep::Read(0), "the box is not drained yet");
    match &frames[0] {
        WatchFrame::Record { box_name, from_seq, to_seq, head_seq, records, id } => {
            assert_eq!(box_name, "jobs");
            assert_eq!((*from_seq, *to_seq, *head_seq), (0, 2, 3));
            assert_eq!(records.len(), 2);
            assert_eq!(decode_cursor_id(id).unwrap().get("jobs"), Some(&2));
        }
        other => panic!("{other:?}"),
    }
    let frames = stream.on_read(&mut cur, 2, diff(vec![rec(3)], 3, 3, None));
    assert_eq!(kinds(&frames), vec!["record", "caught-up"]);
    assert_eq!(
        frames[1].payload().unwrap().to_string(),
        r#"{"box":"jobs","head_seq":3}"#
    );
    assert_eq!(stream.next_step(), StreamStep::Park);

    stream.restart();
    assert_eq!(stream.next_step(), StreamStep::Read(0));
    assert!(stream.on_read(&mut cur, 3, diff(vec![], 3, 3, None)).is_empty(), "told once");
    stream.restart();
    // Filtered records move the cursor without a word.
    assert!(stream.on_read(&mut cur, 3, diff(vec![], 5, 5, None)).is_empty());
    assert_eq!(cur.get("jobs"), Some(&5));
    stream.restart();
    let frames = stream.on_read(&mut cur, 5, diff(vec![rec(6)], 6, 6, None));
    assert_eq!(kinds(&frames), vec!["record", "caught-up"]);
}

#[test]
fn loss_is_told_first_with_its_exact_range() {
    let tomb = Tombstone {
        gap_from: 1,
        gap_to: 4,
        reason: TombstoneReason::Cap,
        earliest_seq: 5,
        head_seq: 6,
    };
    let mut cur = cursors(&[("jobs", 0)]);
    let (mut stream, _) = WatchStream::open(&cur);
    let frames = stream.on_read(&mut cur, 0, diff(vec![rec(5)], 5, 6, Some(tomb)));
    assert_eq!(kinds(&frames), vec!["tombstone", "record"]);
    assert_eq!(decode_cursor_id(&id_of(&frames[0])).unwrap().get("jobs"), Some(&4));
    assert_eq!(decode_cursor_id(&id_of(&frames[1])).unwrap().get("jobs"), Some(&5));
    assert_eq!(
        frames[0].payload().unwrap().to_string(),
        r#"{"box":"jobs","earliest_seq":5,"gap_from":1,"gap_to":4,"head_seq":6,"reason":"from_seq_too_old"}"#
    );
    // A gap that opens while streaming is told with the reason of the loss.
    let later = Tombstone { gap_from: 6, gap_to: 8, reason: TombstoneReason::Ttl, ..tomb };
    let frames = stream.on_read(&mut cur, 5, diff(vec![], 8, 8, Some(later)));
    assert_eq!(kinds(&frames), vec!["tombstone", "caught-up"]);
    match &frames[0] {
        WatchFrame::Tombstone { reason, gap_from, gap_to, .. } => {
            assert_eq!((*reason, *gap_from, *gap_to), (TombstoneReason::Ttl, 6, 8));
        }
        other => panic!("{other:?}"),
    }
    assert_eq!(cur.get("jobs"), Some(&8));
}

#[test]
fn a_box_that_is_gone_is_told_once_and_the_stream_ends_with_the_last() {
    let mut cur = cursors(&[("a", 1), ("b", 2)]);
    let (mut stream, _) = WatchStream::open(&cur);
    let frames = stream.on_read(&mut cur, 0, ReadOutcome::Missing);
    assert_eq!(kinds(&frames), vec!["box-deleted"]);
    assert_eq!(
        frames[0].payload().unwrap().to_string(),
        r#"{"box":"a","head_seq":0,"reason":"deleted"}"#
    );
    assert_eq!(stream.next_step(), StreamStep::Read(1));
    stream.on_read(&mut cur, 2, diff(vec![], 2, 2, None));
    assert_eq!(stream.next_step(), StreamStep::Park);
    stream.restart();
    assert_eq!(stream.next_step(), StreamStep::Read(1));
    stream.on_read(&mut cur, 0, ReadOutcome::Missing);
    assert_eq!(stream.next_step(), StreamStep::End);
    let (none, _) = WatchStream::open(&NameMap::new());
    assert_eq!(none.next_step(), StreamStep::End);
}

#[test]
fn resuming_from_the_last_id_goes_on_exactly_there() {
    let mut cur = cursors(&[("a", 0), ("b", 7)]);
    let (mut stream, _) = WatchStream::open(&cur);
    let frames = stream.on_read(&mut cur, 0, diff(vec![rec(1)], 1, 2, None));
    let sent = decode_cursor_id(&id_of(&frames[0])).unwrap();
    stream.on_read(&mut cur, 1, diff(vec![rec(2)], 2, 2, None));
    let mut now = copy_cursors(&cur);
    assert_eq!(now.get("a"), Some(&2));
    rewind(&mut now, &sent);
    assert_eq!(now.get("a"), Some(&1));
    assert_eq!(now.get("b"), Some(&7));
}

#[test]
fn a_watcher_resumes_by_header_or_else_by_query() {
    assert_eq!(resume_from(Some("h"), Some("q")), Some("h"));
    assert_eq!(resume_from(Some(""), Some("q")), Some("q"));
    assert_eq!(resume_from(None, Some("q")), Some("q"));
    assert_eq!(resume_from(None, Some("")), None);
    assert_eq!(resume_from(None, None), None);

    let mut store = SessionStore::new();
    let wid = store.insert(Session {
        req: Arc::new(request()),
        cursors: cursors(&[("jobs", 10)]),
        principal: None,
    });
    // {"jobs":1}
    let id = Some("eyJqb2JzIjoxfQ");
    let session = open_stream(&mut store, &wid, None, None, None, Some("x!"), id).unwrap();
    assert_eq!(session.cursors.get("jobs"), Some(&10));
    let session = open_stream(&mut store, &wid, None, None, None, None, id).unwrap();
    assert_eq!(session.cursors.get("jobs"), Some(&1));
}
