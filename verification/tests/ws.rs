//! WebSocket commands, subscriptions and delivery.

use serde_json::value::RawValue;
use serde_json::Value;
use std::sync::Arc;
use streams::auth::{Principal, Scope};
use streams::error::Error;
use streams::http::ws::{
    default_return_seqs, default_true, default_ws_limit, default_ws_max_batch_bytes, deliver,
    error_reply, finish_publish, finish_subscribe, invalid_json_reply, next_read, on_message,
    plan_command, shutting_down_notice, too_many_connections, unsubscribe, DeliveryPass,
    MessageKind, SocketAction, SubTable, WsCommand, WsDiff, WsFrame, WsOutcome, WsPlan, WsSub,
};
use streams::name_map::NameMap;
use streams::types::{
    BoxConfig, NodeFilter, Tombstone, TombstoneReason, WatchBoxOptions, WatchBoxState,
    WriteResponse,
};

fn key(read: bool, write: bool, admin: bool, prefixes: &[&str]) -> Principal {
    Principal {
        key_id: 1,
        read,
        write,
        admin,
        prefixes: prefixes.iter().map(|p| p.to_string()).collect(),
    }
}

fn subscribe(topic: Option<&str>, topics: &[(&str, u64)]) -> WsCommand {
    let mut map = NameMap::new();
    for (name, from_seq) in topics {
        map.insert(name.to_string(), WatchBoxOptions { from_seq: *from_seq, tail: false });
    }
    WsCommand::Subscribe {
        request_id: Some(Value::from("s1")),
        topic: topic.map(str::to_string),
        topics: map,
        from_seq: 9,
        tail: true,
        node: Some(NodeFilter::One("me".to_string())),
        limit: default_ws_limit(),
        max_batch_bytes: default_ws_max_batch_bytes(),
        include_data: default_true(),
        include_tags: false,
        include_meta: true,
        lenient: false,
    }
}

fn publish(topic: &str, config: Option<BoxConfig>) -> WsCommand {
    WsCommand::Publish {
        request_id: Some(Value::from(7)),
        topic: topic.to_string(),
        records: Vec::new(),
        node: None,
        idempotency_key: None,
        create: None,
        config,
        disable_backpressure: false,
        return_seqs: default_return_seqs(),
    }
}

fn reply(plan: WsPlan) -> String {
    match plan {
        WsPlan::Reply(v) => v.to_string(),
        other => panic!("{other:?}"),
    }
}

#[test]
fn the_defaults_of_a_command() {
    assert!(default_return_seqs());
    assert!(default_true());
    assert_eq!(default_ws_limit(), 1000);
    assert_eq!(default_ws_max_batch_bytes(), 262_144);
}

#[test]
fn a_ping_is_answered() {
    let p = Principal::full_access(0);
    assert_eq!(
        reply(plan_command(&p, WsCommand::Ping { request_id: None })),
        r#"{"op":"pong","request_id":null}"#
    );
    let id = Some(Value::from("x"));
    assert_eq!(
        reply(plan_command(&p, WsCommand::Ping { request_id: id })),
        r#"{"op":"pong","request_id":"x"}"#
    );
}

#[test]
fn a_subscribe_needs_the_read_scope_the_names_and_a_topic() {
    let p = key(false, true, true, &[]);
    assert_eq!(
        reply(plan_command(&p, subscribe(Some("a"), &[]))),
        r#"{"code":"forbidden","message":"api key lacks read scope","op":"error","request_id":"s1"}"#
    );
    let p = key(true, false, false, &["t:"]);
    assert_eq!(
        reply(plan_command(&p, subscribe(None, &[]))),
        r#"{"code":"invalid_request","message":"subscribe requires topic or topics","op":"error","request_id":"s1"}"#
    );
    assert_eq!(
        reply(plan_command(&p, subscribe(Some("t:a"), &[("u:b", 0)]))),
        r#"{"code":"forbidden","message":"api key is not allowed to access this topic name","op":"error","request_id":"s1"}"#
    );
    match plan_command(&p, subscribe(Some("t:a"), &[("t:b", 3)])) {
        WsPlan::Subscribe { request_id, topics, lenient, sub } => {
            assert_eq!(request_id, Some(Value::from("s1")));
            assert!(!lenient);
            let a = topics.get("t:a").unwrap();
            assert_eq!((a.from_seq, a.tail), (9, true));
            let b = topics.get("t:b").unwrap();
            assert_eq!((b.from_seq, b.tail), (3, false));
            assert_eq!(sub.limit, 1000);
            assert!(!sub.caught_up);
        }
        other => panic!("{other:?}"),
    }
    // A topic that the map has already keeps what the map says.
    match plan_command(&p, subscribe(Some("t:b"), &[("t:b", 3)])) {
        WsPlan::Subscribe { topics, .. } => {
            assert_eq!(topics.len(), 1);
            assert_eq!(topics.get("t:b").unwrap().from_seq, 3);
        }
        other => panic!("{other:?}"),
    }
}

#[test]
fn a_publish_needs_the_write_scope_and_admin_to_configure() {
    let denied = |p: &Principal, cmd: WsCommand| reply(plan_command(p, cmd));
    let error = |message: &str| {
        format!(r#"{{"code":"forbidden","message":"{message}","op":"error","request_id":7}}"#)
    };
    assert_eq!(
        denied(&key(true, false, true, &[]), publish("a", None)),
        error("api key lacks write scope")
    );
    assert_eq!(
        denied(&key(true, true, false, &[]), publish("a", Some(BoxConfig::default()))),
        error("configuring a new topic on publish requires admin scope")
    );
    assert_eq!(
        denied(&key(true, true, true, &["b"]), publish("a", None)),
        error("api key is not allowed to access this topic name")
    );
    match plan_command(&key(false, true, true, &["a"]), publish("ab", Some(BoxConfig::default()))) {
        WsPlan::Write { request_id, topic, req, return_seqs } => {
            assert_eq!(request_id, Some(Value::from(7)));
            assert_eq!(topic, "ab");
            assert!(req.config.is_some() && return_seqs);
        }
        other => panic!("{other:?}"),
    }
}

#[test]
fn full_access_holds_everything() {
    let p = Principal::full_access(3);
    assert_eq!(p.key_id, 3);
    for s in [Scope::Read, Scope::Write, Scope::Admin] {
        assert!(p.allows_scope(s));
    }
    assert!(p.allows_name("anything"));
    assert!(p.allows_name(""));
    let limited = key(true, true, true, &["a", "bc"]);
    assert!(limited.allows_name("a") && limited.allows_name("abc") && limited.allows_name("bcd"));
    assert!(!limited.allows_name("b") && !limited.allows_name(""));
}

#[test]
fn an_unsubscribe_needs_a_topic() {
    let p = key(false, false, false, &["none"]);
    let cmd = |topic: Option<&str>, topics: &[&str]| WsCommand::Unsubscribe {
        request_id: None,
        topic: topic.map(str::to_string),
        topics: topics.iter().map(|t| t.to_string()).collect(),
    };
    assert_eq!(
        reply(plan_command(&p, cmd(None, &[]))),
        r#"{"code":"invalid_request","message":"unsubscribe requires topic or topics","op":"error","request_id":null}"#
    );
    match plan_command(&p, cmd(Some("x"), &["y", "z"])) {
        WsPlan::Unsubscribe { topics, .. } => assert_eq!(topics, vec!["y", "z", "x"]),
        other => panic!("{other:?}"),
    }
}

fn template() -> WsSub {
    WsSub {
        cursor: 0,
        node: Some(NodeFilter::Many(vec!["me".to_string()])),
        limit: 10,
        max_batch_bytes: 99,
        include_data: true,
        include_tags: false,
        include_meta: true,
        caught_up: false,
    }
}

fn subscribed(pairs: &[(&str, u64)]) -> SubTable {
    let mut subs: SubTable = NameMap::new();
    let mut states = NameMap::new();
    for (name, from_seq) in pairs {
        states.insert(
            name.to_string(),
            WatchBoxState { from_seq: *from_seq, head_seq: 9, earliest_seq: 1 },
        );
    }
    finish_subscribe(&mut subs, &None, &template(), Ok(states));
    subs
}

#[test]
fn subscribing_starts_at_the_resolved_position() {
    let mut subs = subscribed(&[("a", 5), ("b", 6)]);
    assert_eq!(subs.get("a").unwrap().cursor, 5);
    assert!(subs.get("b").unwrap().node.as_ref().unwrap().matches("me"));
    let mut states = NameMap::new();
    states.insert("a".to_string(), WatchBoxState { from_seq: 1, head_seq: 2, earliest_seq: 1 });
    let v = finish_subscribe(&mut subs, &Some(Value::from("s")), &template(), Ok(states));
    assert_eq!(
        v.to_string(),
        r#"{"op":"subscribed","request_id":"s","topics":{"a":{"earliest_seq":1,"from_seq":1,"head_seq":2}}}"#
    );
    assert_eq!(subs.get("a").unwrap().cursor, 1);
    assert_eq!(subs.get("b").unwrap().cursor, 6);
    let v = finish_subscribe(&mut subs, &None, &template(), Err(Error::box_not_found("zz")));
    assert_eq!(
        v.to_string(),
        r#"{"code":"box_not_found","message":"box \"zz\" does not exist","op":"error","request_id":null}"#
    );
    assert_eq!(subs.len(), 2);
}

#[test]
fn unsubscribing_drops_the_named_ones_only() {
    let mut subs = subscribed(&[("a", 1), ("b", 2), ("c", 3)]);
    let topics = vec!["c".to_string(), "a".to_string(), "zz".to_string()];
    let v = unsubscribe(&mut subs, &Some(Value::from(1)), &topics);
    assert_eq!(
        v.to_string(),
        r#"{"op":"unsubscribed","request_id":1,"topics":["c","a","zz"]}"#
    );
    assert_eq!(subs.len(), 1);
    assert_eq!(subs.get("b").unwrap().cursor, 2);
}

#[test]
fn a_publish_is_acknowledged_or_refused() {
    let resp = |seqs: Option<Vec<u64>>| WriteResponse {
        first_seq: 1,
        last_seq: 2,
        seqs,
        head_seq: 2,
        count: 2,
        created: true,
        deduped: false,
        performance: Value::from("fast"),
    };
    assert_eq!(
        finish_publish(&Some(Value::from("p")), "t", Ok(resp(Some(vec![1, 2])))).to_string(),
        r#"{"count":2,"created":true,"deduped":false,"first_seq":1,"head_seq":2,"last_seq":2,"op":"ack","performance":"fast","request_id":"p","seqs":[1,2],"topic":"t"}"#
    );
    let v = finish_publish(&None, "t", Ok(resp(None)));
    assert_eq!(v.get("seqs"), Some(&Value::Null));
    let v = finish_publish(&None, "t", Err(Error::internal("boom")));
    assert_eq!(
        v.to_string(),
        r#"{"code":"internal","message":"boom","op":"error","request_id":null}"#
    );
}

fn raw(text: &str) -> Arc<RawValue> {
    Arc::from(RawValue::from_string(text.to_string()).unwrap())
}

fn read(records: Vec<Arc<RawValue>>, next: u64, head: u64, tombstone: Option<Tombstone>) -> WsOutcome {
    WsOutcome::Read(WsDiff {
        records,
        next_from_seq: next,
        head_seq: head,
        caught_up: next >= head,
        tombstone,
    })
}

fn ops(frames: &[WsFrame]) -> Vec<String> {
    frames
        .iter()
        .map(|f| match f.payload() {
            Some(v) => v.get("op").and_then(|o| o.as_str()).unwrap().to_string(),
            None => "record".to_string(),
        })
        .collect()
}

#[test]
fn delivery_moves_the_cursor_and_tells_once() {
    let mut subs = subscribed(&[("a", 0)]);
    let (req, bytes) = next_read(&subs, "a").unwrap();
    assert_eq!((req.from_seq, req.limit, req.wait_ms, bytes), (0, 10, 0, 99));
    assert!(next_read(&subs, "b").is_none());

    let (frames, done) = deliver(&mut subs, "a", 0, read(vec![raw("1")], 1, 2, None));
    assert_eq!(ops(&frames), vec!["record"]);
    assert!(!done);
    match &frames[0] {
        WsFrame::Record { topic, from_seq, to_seq, head_seq, records } => {
            assert_eq!(topic, "a");
            assert_eq!((*from_seq, *to_seq, *head_seq), (0, 1, 2));
            assert_eq!(records[0].get(), "1");
        }
        other => panic!("{other:?}"),
    }
    let (frames, done) = deliver(&mut subs, "a", 1, read(vec![raw("2")], 2, 2, None));
    assert_eq!(ops(&frames), vec!["record", "caught_up"]);
    assert!(done);
    assert_eq!(
        frames[1].payload().unwrap().to_string(),
        r#"{"head_seq":2,"op":"caught_up","topic":"a"}"#
    );
    assert!(subs.get("a").unwrap().caught_up);
    let (frames, done) = deliver(&mut subs, "a", 2, read(vec![], 4, 4, None));
    assert!(frames.is_empty() && done);
    assert_eq!(subs.get("a").unwrap().cursor, 4);
}

#[test]
fn a_tombstone_is_delivered_first_and_unchanged() {
    let tomb = Tombstone {
        gap_from: 1,
        gap_to: 3,
        reason: TombstoneReason::Mixed,
        earliest_seq: 4,
        head_seq: 5,
    };
    let mut subs = subscribed(&[("a", 0)]);
    let (frames, _) = deliver(&mut subs, "a", 0, read(vec![raw("4")], 4, 5, Some(tomb)));
    assert_eq!(ops(&frames), vec!["tombstone", "record"]);
    assert_eq!(
        frames[0].payload().unwrap().to_string(),
        r#"{"earliest_seq":4,"gap_from":1,"gap_to":3,"head_seq":5,"op":"tombstone","reason":"mixed","topic":"a"}"#
    );
    assert_eq!(subs.get("a").unwrap().cursor, 4);
    // Without records the cursor still goes to where the read ended.
    let (frames, done) = deliver(&mut subs, "a", 4, read(vec![], 5, 5, Some(tomb)));
    assert_eq!(ops(&frames), vec!["tombstone", "caught_up"]);
    assert!(done);
    assert_eq!(subs.get("a").unwrap().cursor, 5);
}

#[test]
fn a_topic_that_is_gone_loses_its_subscription() {
    let mut subs = subscribed(&[("a", 0), ("b", 1)]);
    let (frames, done) = deliver(&mut subs, "a", 0, WsOutcome::Missing);
    assert!(done);
    assert_eq!(
        frames[0].payload().unwrap().to_string(),
        r#"{"head_seq":0,"op":"topic_deleted","reason":"deleted","topic":"a"}"#
    );
    assert!(subs.get("a").is_none());
    assert_eq!(subs.get("b").unwrap().cursor, 1);
    // Dropped meanwhile: what was read is still sent, but nothing is kept.
    let (frames, done) = deliver(&mut subs, "a", 0, read(vec![raw("1")], 1, 1, None));
    assert_eq!(ops(&frames), vec!["record"]);
    assert!(done);
    assert!(subs.get("a").is_none());
}

#[test]
fn messages_of_a_socket() {
    assert!(matches!(on_message(MessageKind::Text), SocketAction::Command));
    assert!(matches!(on_message(MessageKind::Ping), SocketAction::Pong));
    assert!(matches!(on_message(MessageKind::Pong), SocketAction::Ignore));
    assert!(matches!(on_message(MessageKind::Close), SocketAction::Stop));
    assert!(matches!(on_message(MessageKind::Broken), SocketAction::Stop));
    match on_message(MessageKind::Binary) {
        SocketAction::Reply(v) => assert_eq!(
            v.to_string(),
            r#"{"code":"unsupported_message","message":"binary WebSocket messages are not supported by this JSON endpoint","op":"error"}"#
        ),
        other => panic!("{other:?}"),
    }
}

#[test]
fn notices_and_errors() {
    assert_eq!(
        shutting_down_notice().to_string(),
        r#"{"code":"server_shutting_down","message":"server is shutting down; reconnect","op":"error"}"#
    );
    assert_eq!(
        invalid_json_reply("EOF").to_string(),
        r#"{"code":"invalid_json","message":"invalid command JSON: EOF","op":"error","request_id":null}"#
    );
    assert_eq!(
        error_reply(&Some(Value::from(true)), "c", "m").to_string(),
        r#"{"code":"c","message":"m","op":"error","request_id":true}"#
    );
}

#[test]
fn a_pass_drains_each_topic_in_turn() {
    let mut subs = subscribed(&[("b", 3), ("a", 0), ("c", 1)]);
    let mut pass = DeliveryPass::start(&subs);
    assert_eq!(pass.topics, vec!["a", "b", "c"]);

    // A topic keeps its turn until it has nothing more.
    assert_eq!(pass.next_topic(&subs).as_deref(), Some("a"));
    let frames = pass.on_read(&mut subs, 0, read(vec![raw("1")], 1, 2, None));
    assert_eq!(ops(&frames), vec!["record"]);
    assert_eq!(pass.next_topic(&subs).as_deref(), Some("a"));
    let frames = pass.on_read(&mut subs, 1, read(vec![raw("2")], 2, 2, None));
    assert_eq!(ops(&frames), vec!["record", "caught_up"]);
    assert_eq!(subs.get("a").unwrap().cursor, 2);

    // One that was dropped meanwhile is passed over.
    unsubscribe(&mut subs, &None, &vec!["b".to_string()]);
    assert_eq!(pass.next_topic(&subs).as_deref(), Some("c"));

    // One that is gone is told of once and loses its subscription.
    let frames = pass.on_read(&mut subs, 1, WsOutcome::Missing);
    assert_eq!(ops(&frames), vec!["topic_deleted"]);
    assert_eq!(pass.next_topic(&subs), None);
    assert_eq!(pass.next_topic(&subs), None);
    assert_eq!(DeliveryPass::start(&subs).topics, vec!["a"]);
}

#[test]
fn a_pass_without_subscriptions_is_over_at_once() {
    let subs = subscribed(&[]);
    assert_eq!(DeliveryPass::start(&subs).next_topic(&subs), None);
}

#[test]
fn too_many_sockets_are_turned_away() {
    let e = too_many_connections(3);
    assert_eq!(e.code.code(), "throttled");
    assert_eq!(e.http_status(), 429);
    assert_eq!(e.message, "too many concurrent WebSocket connections");
    assert_eq!(e.retry_after_s, Some(3));
}

#[test]
fn a_pass_keeps_the_projection_it_began_with() {
    let mut subs = subscribed(&[("a", 0)]);
    let mut pass = DeliveryPass::start(&subs);
    assert_eq!(pass.next_topic(&subs).as_deref(), Some("a"));
    assert_eq!(pass.variant().idx(), 5);
    // Subscribing again in mid-pass counts from the next pass on.
    let mut states = NameMap::new();
    states.insert("a".to_string(), WatchBoxState { from_seq: 4, head_seq: 9, earliest_seq: 1 });
    let other = WsSub { include_data: false, include_tags: true, ..template() };
    finish_subscribe(&mut subs, &None, &other, Ok(states));
    assert_eq!(pass.next_topic(&subs).as_deref(), Some("a"));
    assert_eq!(pass.variant().idx(), 5);
    assert_eq!(next_read(&subs, "a").unwrap().0.from_seq, 4);
    let mut pass = DeliveryPass::start(&subs);
    assert_eq!(pass.next_topic(&subs).as_deref(), Some("a"));
    assert_eq!(pass.variant().idx(), 6);
}

#[test]
fn catching_up_again_is_told_only_after_news() {
    let mut subs = subscribed(&[("a", 0)]);
    let mut sent = Vec::new();
    for outcome in [
        read(vec![], 2, 2, None),
        read(vec![], 3, 3, None),
        read(vec![raw("4")], 4, 4, None),
        read(vec![], 4, 4, None),
        WsOutcome::Missing,
    ] {
        let from = next_read(&subs, "a").unwrap().0.from_seq;
        sent.extend(ops(&deliver(&mut subs, "a", from, outcome).0));
    }
    assert_eq!(sent, vec!["caught_up", "record", "caught_up", "topic_deleted"]);
    assert!(next_read(&subs, "a").is_none());
}
