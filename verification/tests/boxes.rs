//! A box: appending, retention and reading from a cursor.

use serde_json::Value;
use streams::engine::box_state::{BoxIndex, BoxState, StoredRecord, TS_NEVER};
use streams::engine::eviction::Floors;
use streams::engine::read::{diff, find_gap, retain_and_diff};
use streams::types::{
    BoxConfig, BoxType, DiffRequest, Discard, Durability, NodeFilter, TombstoneReason,
};

fn stored(ts: i64, bytes: u64, node: Option<&str>) -> StoredRecord {
    StoredRecord {
        ts,
        node: node.map(str::to_string),
        tag: Some("tag".to_string()),
        data: Value::from(ts),
        meta: Some(Value::from("m")),
        bytes,
    }
}

fn with(config: BoxConfig, n: i64) -> BoxState {
    let mut b = BoxState::new("jobs".to_string(), config, 1, 7);
    for i in 1..=n {
        b.append(vec![stored(i * 100, 10, Some("n"))], i * 100);
    }
    b
}

fn unbounded() -> BoxConfig {
    BoxConfig::default()
}

#[test]
fn the_default_config() {
    let c = BoxConfig::default();
    assert_eq!(c.box_type, BoxType::Log);
    assert_eq!((c.ttl_ms, c.cap_records, c.cap_bytes), (0, 0, 0));
    assert_eq!(c.discard, Discard::Old);
    assert!(!c.durable);
    assert_eq!(c.durability, Durability::Disk);
    assert_eq!(c.priority, None);
    assert!(c.auto_priority && c.auto_create && c.dedupe_node);
    assert_eq!(c.idempotency_window_ms, 120_000);
    assert_eq!((c.lease_ms, c.claim_jitter_ms, c.max_deliveries), (30_000, 0, 0));
    assert_eq!(c.dead_letter, None);
    assert!(!c.leases_durable);
}

#[test]
fn a_fresh_box() {
    let b = BoxState::new("jobs".to_string(), unbounded(), 1, 7);
    assert_eq!((b.head_seq(), b.earliest_seq(), b.next_seq()), (0, 1, 1));
    assert_eq!((b.count(), b.bytes(), b.epoch()), (0, 0, 7));
    assert_eq!(BoxState::read_ts(b.last_write_ms), None);
    assert_eq!(BoxState::read_ts(TS_NEVER + 1), Some(TS_NEVER + 1));
}

#[test]
fn appending_assigns_the_next_seqs_and_reads_back() {
    let mut b = with(unbounded(), 0);
    assert_eq!(b.append(vec![stored(5, 3, None), stored(6, 4, None)], 6), vec![1, 2]);
    assert_eq!(b.append(vec![], 9), Vec::<u64>::new());
    assert_eq!(b.last_write_ms, 6);
    assert_eq!(b.append(vec![stored(7, 5, None)], 7), vec![3]);
    assert_eq!((b.head_seq(), b.next_seq(), b.count(), b.bytes()), (3, 4, 3, 12));
    assert_eq!(b.index.get(2).unwrap().ts, 6);
    assert!(b.index.get(0).is_none());
    assert!(b.index.get(4).is_none());
}

#[test]
fn an_index_drains_from_the_front() {
    let mut i = BoxIndex::new(5);
    for n in 0..4 {
        i.records.push_back(stored(n, 1, None));
    }
    i.drain_front(3);
    assert_eq!(i.base_seq, 8);
    assert_eq!(i.records.len(), 1);
    i.drain_front(9);
    assert_eq!((i.base_seq, i.records.len()), (9, 0));
}

#[test]
fn floors_give_the_earliest_seq() {
    let f = Floors { evict_floor: 3, expiry_floor: 5 };
    assert_eq!(f.earliest_seq(1, 9), 6);
    assert_eq!(f.earliest_seq(8, 9), 8);
    assert_eq!(f.earliest_seq(1, 2), 3);
    assert_eq!(Floors::new().earliest_seq(1, 0), 1);
}

#[test]
fn an_unbounded_box_keeps_everything() {
    let mut b = with(unbounded(), 50);
    b.enforce_retention(i64::MAX);
    assert_eq!((b.count(), b.earliest_seq(), b.bytes()), (50, 1, 500));
    assert!(find_gap(&b, 0).is_none());
}

#[test]
fn a_record_cap_evicts_the_oldest() {
    let mut b = with(BoxConfig { cap_records: 3, ..unbounded() }, 10);
    b.enforce_retention(1_000);
    assert_eq!((b.count(), b.earliest_seq(), b.head_seq(), b.bytes()), (3, 8, 10, 30));
    assert_eq!(b.floors.evict_floor, 7);
    let t = find_gap(&b, 2).unwrap();
    assert_eq!((t.gap_from, t.gap_to, t.earliest_seq, t.head_seq), (3, 7, 8, 10));
    assert_eq!(t.reason, TombstoneReason::Cap);
    assert!(find_gap(&b, 7).is_none());
}

#[test]
fn a_byte_cap_evicts_until_it_fits() {
    let mut b = with(BoxConfig { cap_bytes: 35, ..unbounded() }, 10);
    b.enforce_retention(1_000);
    assert_eq!((b.count(), b.bytes(), b.earliest_seq()), (3, 30, 8));
    let mut b = with(BoxConfig { cap_bytes: 100, ..unbounded() }, 10);
    b.enforce_retention(1_000);
    assert_eq!(b.count(), 10);
    let mut b = with(BoxConfig { cap_bytes: 5, ..unbounded() }, 4);
    b.enforce_retention(1_000);
    assert_eq!((b.count(), b.bytes(), b.earliest_seq()), (0, 0, 5));
}

#[test]
fn age_expires_records() {
    let mut b = with(BoxConfig { ttl_ms: 250, ..unbounded() }, 10);
    b.enforce_retention(1_000);
    // 1000 - 750 is not yet too old; 1000 - 700 is.
    assert_eq!((b.earliest_seq(), b.count()), (8, 3));
    assert_eq!(find_gap(&b, 0).unwrap().reason, TombstoneReason::Ttl);
    // A time to live beyond any clock expires nothing.
    let mut b = with(BoxConfig { ttl_ms: u64::MAX, ..unbounded() }, 10);
    b.enforce_retention(i64::MAX);
    assert_eq!(b.count(), 10);
}

#[test]
fn age_and_caps_together_are_mixed() {
    let mut b = with(BoxConfig { ttl_ms: 550, cap_records: 3, ..unbounded() }, 10);
    b.enforce_retention(1_000);
    assert_eq!((b.floors.expiry_floor, b.floors.evict_floor), (4, 7));
    assert_eq!(find_gap(&b, 0).unwrap().reason, TombstoneReason::Mixed);
    assert_eq!(find_gap(&b, 5).unwrap().reason, TombstoneReason::Cap);
}

#[test]
fn retention_twice_is_retention_once() {
    let mut b = with(BoxConfig { ttl_ms: 550, cap_bytes: 45, ..unbounded() }, 10);
    b.enforce_retention(1_000);
    let once = (b.floors, b.count(), b.bytes(), b.index.base_seq);
    b.enforce_retention(1_000);
    assert_eq!(once, (b.floors, b.count(), b.bytes(), b.index.base_seq));
    let before = b.earliest_seq();
    b.enforce_retention(0);
    assert!(b.earliest_seq() >= before, "floors never sink");
}

fn from(from_seq: u64) -> DiffRequest {
    DiffRequest { from_seq, ..DiffRequest::default() }
}

fn seqs(b: &BoxState, req: &DiffRequest) -> Vec<u64> {
    diff(b, req, 1_000).records.iter().map(|r| r.seq).collect()
}

#[test]
fn reading_from_a_cursor() {
    let b = with(unbounded(), 5);
    let d = diff(&b, &from(0), 1_000);
    assert_eq!(d.records.iter().map(|r| r.seq).collect::<Vec<_>>(), vec![1, 2, 3, 4, 5]);
    assert_eq!((d.next_from_seq, d.head_seq, d.earliest_seq, d.lag), (5, 5, 1, 0));
    assert!(d.caught_up && d.tombstone.is_none());
    assert_eq!(seqs(&b, &from(3)), vec![4, 5]);
    let d = diff(&b, &from(5), 1_000);
    assert!(d.records.is_empty() && d.caught_up);
    // A cursor ahead of the head stays where it is.
    let d = diff(&b, &from(u64::MAX), 1_000);
    assert_eq!((d.next_from_seq, d.caught_up, d.lag), (u64::MAX, true, 0));
}

#[test]
fn a_limit_bounds_a_read_and_the_reader_gets_on() {
    let b = with(unbounded(), 5);
    let mut cursor = 0;
    let mut all = Vec::new();
    loop {
        let d = diff(&b, &DiffRequest { limit: 2, ..from(cursor) }, 1_000);
        all.extend(d.records.iter().map(|r| r.seq));
        if d.caught_up {
            break;
        }
        assert!(d.next_from_seq > cursor);
        cursor = d.next_from_seq;
    }
    assert_eq!(all, vec![1, 2, 3, 4, 5]);
    assert_eq!(seqs(&b, &DiffRequest { limit: 0, ..from(0) }), vec![1]);
    let d = diff(&b, &DiffRequest { limit: 2, ..from(0) }, 1_000);
    assert_eq!((d.next_from_seq, d.lag, d.caught_up), (2, 3, false));
}

#[test]
fn a_large_limit_is_clamped() {
    let mut b = with(unbounded(), 0);
    b.append((0..1_500).map(|i| stored(i, 1, None)).collect(), 0);
    let d = diff(&b, &DiffRequest { limit: u32::MAX, ..from(0) }, 0);
    assert_eq!(d.records.len(), 1_000);
    assert_eq!(d.next_from_seq, 1_000);
}

#[test]
fn a_node_does_not_get_its_own_records_back() {
    let mut b = with(unbounded(), 0);
    for (i, node) in ["me", "you", "me", "you"].iter().enumerate() {
        b.append(vec![stored(i as i64, 1, Some(node))], 0);
    }
    let req = DiffRequest { node: Some(NodeFilter::One("me".to_string())), ..from(0) };
    let d = diff(&b, &req, 1_000);
    assert_eq!(d.records.iter().map(|r| r.seq).collect::<Vec<_>>(), vec![2, 4]);
    assert_eq!(d.next_from_seq, 4);
    assert!(d.tombstone.is_none(), "filtering is silent");
    let both = vec!["me".to_string(), "you".to_string()];
    let d = diff(&b, &DiffRequest { node: Some(NodeFilter::Many(both)), ..from(0) }, 1_000);
    assert!(d.records.is_empty() && d.caught_up);
    assert_eq!(d.next_from_seq, 4);
}

#[test]
fn loss_is_never_silent() {
    let mut b = with(BoxConfig { cap_records: 4, ..unbounded() }, 10);
    b.enforce_retention(1_000);
    for cursor in 0..=10u64 {
        let d = diff(&b, &from(cursor), 1_000);
        let delivered: Vec<u64> = d.records.iter().map(|r| r.seq).collect();
        for seq in cursor + 1..=d.next_from_seq {
            let lost = d.tombstone.map(|t| t.gap_from <= seq && seq <= t.gap_to).unwrap_or(false);
            assert_eq!(lost, seq <= 6, "seq {seq} from {cursor}");
            assert_eq!(delivered.contains(&seq), seq > 6);
        }
    }
}

#[test]
fn records_are_projected() {
    let b = with(unbounded(), 1);
    let d = diff(&b, &from(0), 1_000);
    assert_eq!(d.records[0].tag, None);
    assert_eq!(d.records[0].meta, Some(Value::from("m")));
    assert_eq!(d.records[0].node.as_deref(), Some("n"));
    assert_eq!(d.records[0].data, Value::from(100));
    let req = DiffRequest { include_tags: true, include_meta: false, ..from(0) };
    let d = diff(&b, &req, 1_000);
    assert_eq!(d.records[0].tag.as_deref(), Some("tag"));
    assert_eq!(d.records[0].meta, None);
}

#[test]
fn the_default_read() {
    let d = DiffRequest::default();
    assert_eq!((d.from_seq, d.limit, d.wait_ms), (0, 256, 0));
    assert!(d.node.is_none() && !d.include_tags && d.include_meta);
}

#[test]
fn replay_delivers_again_what_a_later_read_delivers() {
    let b = with(unbounded(), 6);
    let later = seqs(&b, &from(3));
    assert_eq!(later, vec![4, 5, 6]);
    let all = seqs(&b, &from(1));
    assert_eq!(all, vec![2, 3, 4, 5, 6]);
    assert!(later.iter().all(|s| all.contains(s)));
}

#[test]
fn caps_evict_no_more_than_they_have_to() {
    let config = BoxConfig { cap_records: 2, cap_bytes: 20, ..unbounded() };
    let mut b = with(config, 4);
    b.enforce_retention(400);
    assert_eq!((b.count(), b.bytes(), b.earliest_seq()), (2, 20, 3));
    // Bytes that age has taken out do not count against the cap either.
    let config = BoxConfig { ttl_ms: 250, cap_bytes: 20, ..unbounded() };
    let mut b = with(config, 4);
    b.enforce_retention(500);
    assert_eq!((b.count(), b.bytes(), b.earliest_seq()), (2, 20, 3));
    assert_eq!(find_gap(&b, 0).unwrap().reason, TombstoneReason::Ttl);
}

#[test]
fn what_expires_before_a_read_is_told() {
    let config = BoxConfig { ttl_ms: 250, ..unbounded() };
    let mut b = with(config, 4);
    let d = retain_and_diff(&mut b, &from(0), None, 500);
    assert_eq!(d.records.iter().map(|r| r.seq).collect::<Vec<_>>(), vec![3, 4]);
    let t = d.tombstone.unwrap();
    assert_eq!((t.gap_from, t.gap_to, t.reason), (1, 2, TombstoneReason::Ttl));
    assert_eq!(b.count(), 2);
}

#[test]
fn stamps_do_not_go_back() {
    let mut b = with(unbounded(), 2);
    assert_eq!((b.stamp(150), b.stamp(200), b.stamp(201)), (200, 200, 201));
    let ts = b.stamp(150);
    b.append(vec![stored(ts, 1, None)], 150);
    let ts: Vec<i64> = b.index.records.iter().map(|r| r.ts).collect();
    assert_eq!(ts, vec![100, 200, 200]);
    assert_eq!(BoxState::new("x".to_string(), unbounded(), 1, 1).stamp(7), 7);
}

#[test]
fn a_read_is_bounded_in_bytes() {
    let mut b = with(unbounded(), 5);
    let mut read = |cursor: u64, max: u64| {
        let d = retain_and_diff(&mut b, &from(cursor), Some(max), 500);
        let seqs: Vec<u64> = d.records.iter().map(|r| r.seq).collect();
        (seqs, d.next_from_seq, d.caught_up, d.lag)
    };
    assert_eq!(read(0, 50), (vec![1, 2, 3, 4, 5], 5, true, 0));
    assert_eq!(read(0, 49), (vec![1, 2, 3, 4], 4, false, 1));
    assert_eq!(read(4, 49), (vec![5], 5, true, 0));
    // One record at least, or the reader would not get on.
    assert_eq!(read(0, 0), (vec![1], 1, false, 4));
    assert_eq!(read(5, 0), (vec![], 5, true, 0));
}

#[test]
fn an_empty_index() {
    let index = BoxIndex::default();
    assert_eq!(index.base_seq, 0);
    assert!(index.records.is_empty());
    assert!(index.get(0).is_none());
}
