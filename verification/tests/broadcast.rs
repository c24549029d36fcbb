//! Shared frames and the ring that keeps them.

use serde_json::Value;
use std::sync::Arc;
use streams::engine::broadcast::{BroadcastCache, FrameVariant, RING_CAP};
use streams::http::watch::{record_frame, shared_frames};
use streams::types::RecordOut;

fn object(key: &str, v: Value) -> Value {
    let mut m = serde_json::Map::new();
    m.insert(key.to_string(), v);
    Value::Object(m)
}

fn rec(seq: u64) -> RecordOut {
    RecordOut {
        seq,
        ts: 1234,
        node: Some("n1".to_string()),
        tag: Some("t".to_string()),
        type_: None,
        data: object("k", Value::from("v")),
        meta: Some(object("m", Value::from(1))),
    }
}

#[test]
fn shared_frame_is_byte_identical_to_record_frame() {
    let mut cache = BroadcastCache::new();
    let r = rec(7);
    let variant = FrameVariant::new(true, true, true);
    let shared = cache.frame(7, &r, variant);
    let expected = record_frame(&r, true).to_string();
    assert_eq!(shared.get(), expected);
    assert_eq!(
        shared.get(),
        r#"{"$node":"n1","$seq":7,"$tag":"t","$ts":1234,"data":{"k":"v"},"meta":{"m":1}}"#
    );
}

#[test]
fn second_call_returns_same_shared_arc() {
    let mut cache = BroadcastCache::new();
    let r = rec(3);
    let variant = FrameVariant::new(true, false, false);
    let a = cache.frame(3, &r, variant);
    let b = cache.frame(3, &r, variant);
    assert!(Arc::ptr_eq(&a, &b));
    let c = cache.frame(3, &r, FrameVariant::new(false, false, false));
    assert!(!Arc::ptr_eq(&a, &c));
}

#[test]
fn ring_is_bounded() {
    let mut cache = BroadcastCache::new();
    let variant = FrameVariant::new(true, true, true);
    for seq in 1..=(RING_CAP as u64 + 50) {
        let _ = cache.frame(seq, &rec(seq), variant);
    }
    let state = &cache.state;
    assert!(state.order.len() <= RING_CAP);
    assert!(state.frames.len() <= RING_CAP);
    assert!(state.order.front().map(|seq| *seq > 1).unwrap_or(false));
    assert!(!state.frames.contains_key(&1));
}

#[test]
fn the_ring_keeps_the_highest_seqs_in_order() {
    let mut cache = BroadcastCache::default();
    let variant = FrameVariant::new(true, true, true);
    for seq in (1..=(RING_CAP as u64 + 3)).rev() {
        let _ = cache.frame(seq, &rec(seq), variant);
    }
    let order: Vec<u64> = cache.state.order.iter().copied().collect();
    let expected: Vec<u64> = (4..=(RING_CAP as u64 + 3)).collect();
    assert_eq!(order, expected);
    assert!(cache.get(3, variant).is_none());
    assert!(cache.get(4, variant).is_some());
}

#[test]
fn the_first_frame_published_wins() {
    let mut cache = BroadcastCache::new();
    let variant = FrameVariant::new(true, false, true);
    let first = streams::engine::broadcast::serialize_frame(&rec(5), true);
    let second = streams::engine::broadcast::serialize_frame(&rec(6), true);
    let a = cache.insert_serialized(5, variant, first.clone());
    let b = cache.insert_serialized(5, variant, second.clone());
    assert!(Arc::ptr_eq(&a, &first));
    assert!(Arc::ptr_eq(&b, &first));
    assert!(!Arc::ptr_eq(&b, &second));
    // Another projection of the same seq has a slot of its own.
    let other = FrameVariant::new(true, true, true);
    assert!(cache.get(5, other).is_none());
    let c = cache.insert_serialized(5, other, second.clone());
    assert!(Arc::ptr_eq(&c, &second));
    assert_eq!(cache.state.order.len(), 1);
}

#[test]
fn lookups_by_the_batch_keep_their_places() {
    let mut cache = BroadcastCache::new();
    let variant = FrameVariant::new(true, true, true);
    let two = cache.frame(2, &rec(2), variant);
    let four = cache.frame(4, &rec(4), variant);
    let got = cache.get_many(&[1, 2, 3, 4], variant);
    assert!(got[0].is_none());
    assert!(Arc::ptr_eq(got[1].as_ref().unwrap(), &two));
    assert!(got[2].is_none());
    assert!(Arc::ptr_eq(got[3].as_ref().unwrap(), &four));
    assert!(cache.get_many(&[], variant).is_empty());
}

#[test]
fn every_projection_has_its_own_number() {
    let mut seen = Vec::new();
    for d in [false, true] {
        for t in [false, true] {
            for m in [false, true] {
                let v = FrameVariant::new(d, t, m);
                assert_eq!(v.include_data, d);
                assert!(v.idx() < 8);
                assert!(!seen.contains(&v.idx()));
                seen.push(v.idx());
            }
        }
    }
    assert_eq!(FrameVariant::new(true, false, true).idx(), 5);
}

#[test]
fn a_frame_leaves_out_what_is_not_there_or_not_wanted() {
    let bare = RecordOut {
        seq: 1,
        ts: -5,
        node: None,
        tag: None,
        type_: None,
        data: Value::from("payload"),
        meta: None,
    };
    assert_eq!(
        record_frame(&bare, true).to_string(),
        r#"{"$seq":1,"$ts":-5,"data":"payload"}"#
    );
    assert_eq!(record_frame(&bare, false).to_string(), r#"{"$seq":1,"$ts":-5}"#);
}

#[test]
fn sharing_changes_no_byte() {
    let mut cache = BroadcastCache::new();
    let variant = FrameVariant::new(true, true, true);
    let records: Vec<RecordOut> = (1..=5).map(rec).collect();
    let first = shared_frames(&mut cache, &records, variant);
    let again = shared_frames(&mut cache, &records, variant);
    for i in 0..records.len() {
        assert_eq!(first[i].get(), record_frame(&records[i], true).to_string());
        assert!(Arc::ptr_eq(&first[i], &again[i]));
    }
}
