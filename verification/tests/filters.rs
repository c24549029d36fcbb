//! The read pipeline.

use streams::engine::filters::{evaluate, ReadDecision};
use streams::types::NodeFilter;

#[test]
fn read_pipeline_order_ttl_then_deleted_then_node() {
    let nf = NodeFilter::One("me".to_string());

    assert_eq!(
        evaluate(Some(&nf), 1000, 5000, 1000, true, Some("me")),
        ReadDecision::Expired
    );
    assert_eq!(
        evaluate(Some(&nf), 1000, 1500, 1000, true, Some("me")),
        ReadDecision::Deleted
    );
    assert_eq!(
        evaluate(Some(&nf), 0, 1500, 1000, false, Some("me")),
        ReadDecision::NodeFiltered
    );
    assert_eq!(
        evaluate(Some(&nf), 0, 1500, 1000, false, Some("other")),
        ReadDecision::Deliver
    );
}

#[test]
fn a_record_expires_only_once_it_is_older_than_its_time() {
    assert_eq!(evaluate(None, 500, 1500, 1000, false, None), ReadDecision::Deliver);
    assert_eq!(evaluate(None, 500, 1501, 1000, false, None), ReadDecision::Expired);
    // A time to live beyond any clock never expires a record.
    assert_eq!(
        evaluate(None, u64::MAX, i64::MAX, 0, false, None),
        ReadDecision::Deliver
    );
    assert_eq!(
        evaluate(None, u64::MAX - 1, i64::MAX, i64::MIN, false, None),
        ReadDecision::Expired
    );
}

#[test]
fn a_filter_names_one_node_or_several() {
    let many = NodeFilter::Many(vec!["a".to_string(), "b".to_string()]);
    assert!(many.matches("a"));
    assert!(many.matches("b"));
    assert!(!many.matches("c"));
    assert!(!many.matches(""));
    assert!(!NodeFilter::Many(Vec::new()).matches("a"));
    let copy = many.clone();
    assert!(copy.matches("b") && !copy.matches("c"));
    // A record without a node is never filtered.
    assert_eq!(
        evaluate(Some(&many), 0, 0, 0, false, None),
        ReadDecision::Deliver
    );
}

#[test]
fn deletion_does_not_make_a_live_record_count_as_lost() {
    assert_eq!(evaluate(None, 500, 1000, 1000, true, None), ReadDecision::Deleted);
    assert_eq!(evaluate(None, 500, 9000, 1000, true, None), ReadDecision::Expired);
    assert_eq!(evaluate(None, 500, 9000, 1000, false, None), ReadDecision::Expired);
}
