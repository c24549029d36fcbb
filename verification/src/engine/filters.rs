//! The read pipeline: whether one record is delivered to one reader.

use crate::engine::box_state::is_expired;
use crate::types::NodeFilter;
use vstd::prelude::*;

verus! {

/// What becomes of a record on a read. A record that is not delivered still
/// moves the reader's cursor on.
#[derive(Debug, Clone, Copy, PartialEq, Eq, Structural)]
pub enum ReadDecision {
    /// The reader gets it.
    Deliver,
    /// Deleted for good: skipped silently, never a tombstone.
    Deleted,
    /// Written by a node the reader filters out: skipped silently.
    NodeFiltered,
    /// Older than the box's time to live: not delivered, and counted as lost.
    Expired,
}

/// The reader filters out the record's node.
pub open spec fn filtered_out(node_filter: Option<&NodeFilter>, record_node: Option<&str>) -> bool {
    match (node_filter, record_node) {
        (Some(f), Some(n)) => f.names(n@),
        _ => false,
    }
}

/// The decision on a record: expiry first, then deletion, then the node filter.
pub open spec fn decision(
    node_filter: Option<&NodeFilter>,
    ttl_ms: u64,
    now_ms: i64,
    record_ts: i64,
    deleted: bool,
    record_node: Option<&str>,
) -> ReadDecision {
    if is_expired(now_ms, record_ts, ttl_ms) {
        ReadDecision::Expired
    } else if deleted {
        ReadDecision::Deleted
    } else if filtered_out(node_filter, record_node) {
        ReadDecision::NodeFiltered
    } else {
        ReadDecision::Deliver
    }
}

/// Decides on one record.
pub fn evaluate(
    node_filter: Option<&NodeFilter>,
    ttl_ms: u64,
    now_ms: i64,
    record_ts: i64,
    deleted: bool,
    record_node: Option<&str>,
) -> (r: ReadDecision)
    ensures
        r == decision(node_filter, ttl_ms, now_ms, record_ts, deleted, record_node),
{
    if ttl_ms > 0 && now_ms as i128 - record_ts as i128 > ttl_ms as i128 {
        return ReadDecision::Expired;
    }
    if deleted {
        return ReadDecision::Deleted;
    }
    if let (Some(filter), Some(node)) = (node_filter, record_node) {
        if filter.matches(node) {
            return ReadDecision::NodeFiltered;
        }
    }
    ReadDecision::Deliver
}

/// A record is delivered exactly when it is live and its node is wanted:
/// neither expired, nor deleted, nor from a filtered node.
pub proof fn law_only_wanted_live_records_are_delivered(
    node_filter: Option<&NodeFilter>,
    ttl_ms: u64,
    now_ms: i64,
    record_ts: i64,
    deleted: bool,
    record_node: Option<&str>,
)
    ensures
        decision(node_filter, ttl_ms, now_ms, record_ts, deleted, record_node)
            == ReadDecision::Deliver <==> !is_expired(now_ms, record_ts, ttl_ms) && !deleted
            && !filtered_out(node_filter, record_node),
{
}

/// Deleting a record never makes it count as lost: what expires does so
/// whether deleted or not, and a deleted record that has not expired is
/// skipped silently.
pub proof fn law_deletion_is_never_a_loss(
    node_filter: Option<&NodeFilter>,
    ttl_ms: u64,
    now_ms: i64,
    record_ts: i64,
    record_node: Option<&str>,
)
    ensures
        decision(node_filter, ttl_ms, now_ms, record_ts, true, record_node) == ReadDecision::Expired
            <==> decision(node_filter, ttl_ms, now_ms, record_ts, false, record_node)
            == ReadDecision::Expired,
        !is_expired(now_ms, record_ts, ttl_ms) ==> decision(
            node_filter,
            ttl_ms,
            now_ms,
            record_ts,
            true,
            record_node,
        ) == ReadDecision::Deleted,
{
}

/// A record expires only by its box's own time to live, and only once it is older
/// than that; a reader misses it for its node only where it named that node.
pub proof fn law_nothing_is_withheld_without_cause(
    node_filter: Option<&NodeFilter>,
    ttl_ms: u64,
    now_ms: i64,
    record_ts: i64,
    deleted: bool,
    record_node: Option<&str>,
)
    ensures
        ({
            let d = decision(node_filter, ttl_ms, now_ms, record_ts, deleted, record_node);
            let old_enough = ttl_ms > 0 && now_ms - record_ts > ttl_ms;
            let unwanted = node_filter is Some && record_node is Some && (node_filter->0).names(
                (record_node->0)@,
            );
            &&& d == ReadDecision::Expired <==> old_enough
            &&& d == ReadDecision::Deleted <==> !old_enough && deleted
            &&& d == ReadDecision::NodeFiltered <==> !old_enough && !deleted && unwanted
            &&& d == ReadDecision::Deliver <==> !old_enough && !deleted && !unwanted
        }),
{
}

}
