//! Reading a box from a cursor.
//!
//! Whatever lies between the cursor a reader comes with and the one it leaves
//! with is accounted for: delivered, or filtered because the reader asked for
//! that, or named in a tombstone because the box lost it.

use crate::config::MAX_LIMIT;
use crate::engine::box_state::{
    is_expired, law_append_keeps_the_order, law_nothing_expired_stays,
    law_retention_keeps_the_deliverable, lemma_retained_is_well_formed, may_follow, BoxState,
    StoredRecord,
};
use crate::engine::eviction::{max_of, min_of};
use crate::engine::filters::{evaluate, ReadDecision};
use crate::types::{
    DiffRequest, DiffResponse, NodeFilter, RecordOut, Tombstone, TombstoneReason,
};
use vstd::prelude::*;

verus! {

/// A record as a reader that wants tags and meta, or does not, gets it.
pub open spec fn projected(
    seq: u64,
    rec: StoredRecord,
    include_tags: bool,
    include_meta: bool,
    out: RecordOut,
) -> bool {
    &&& out.seq == seq
    &&& out.ts == rec.ts
    &&& out.node == rec.node
    &&& out.tag == if include_tags {
        rec.tag
    } else {
        None
    }
    &&& out.type_ is None
    &&& out.data == rec.data
    &&& out.meta == if include_meta {
        rec.meta
    } else {
        None
    }
}

/// A record as a reader gets it.
pub fn record_out(seq: u64, rec: &StoredRecord, include_tags: bool, include_meta: bool) -> (r:
    RecordOut)
    ensures
        projected(seq, *rec, include_tags, include_meta, r),
{
    RecordOut {
        seq,
        ts: rec.ts,
        node: rec.node.clone(),
        tag: if include_tags {
            rec.tag.clone()
        } else {
            None
        },
        type_: None,
        data: rec.data.clone(),
        meta: if include_meta {
            rec.meta.clone()
        } else {
            None
        },
    }
}

/// A reader filters out the node of a record.
pub open spec fn node_unwanted(filter: Option<NodeFilter>, node: Option<String>) -> bool {
    match (filter, node) {
        (Some(f), Some(n)) => f.names(n@),
        _ => false,
    }
}

/// What becomes of a record of a box on a read. (A box holds no marks of
/// deletion, so none of its records counts as deleted.)
pub open spec fn fate(b: BoxState, filter: Option<NodeFilter>, now_ms: i64, seq: int) -> ReadDecision {
    let rec = b.index.at(seq as u64)->0;
    if is_expired(now_ms, rec.ts, b.config.ttl_ms) {
        ReadDecision::Expired
    } else if node_unwanted(filter, rec.node) {
        ReadDecision::NodeFiltered
    } else {
        ReadDecision::Deliver
    }
}

/// No record that is present has outlived the box's time to live.
pub open spec fn nothing_expired(b: BoxState, now_ms: i64) -> bool {
    forall|i: int|
        0 <= i < b.index.records@.len() ==> !is_expired(
            now_ms,
            (#[trigger] b.index.records@[i]).ts,
            b.config.ttl_ms,
        )
}

/// The seqs delivered when reading on from `seq` with room for `room` records,
/// and the last seq looked at.
pub open spec fn scan(
    b: BoxState,
    filter: Option<NodeFilter>,
    now_ms: i64,
    seq: int,
    room: int,
) -> (Seq<u64>, int)
    decreases b.head_seq + 1 - seq,
{
    if seq > b.head_seq || room <= 0 {
        (Seq::empty(), seq - 1)
    } else if fate(b, filter, now_ms, seq) == ReadDecision::Deliver {
        let (rest, last) = scan(b, filter, now_ms, seq + 1, room - 1);
        (seq![seq as u64] + rest, last)
    } else {
        scan(b, filter, now_ms, seq + 1, room)
    }
}

/// The first seq above a cursor that a box ever assigned.
pub open spec fn first_above(b: BoxState, from_seq: u64) -> int {
    max_of(from_seq + 1, b.seq_base as int)
}

/// The box lost records above the cursor.
pub open spec fn has_gap(b: BoxState, from_seq: u64) -> bool {
    first_above(b, from_seq) <= b.floors.lost_upto()
}

/// Why the records above a cursor were lost.
pub open spec fn gap_reason(b: BoxState, from_seq: u64) -> TombstoneReason {
    let first = first_above(b, from_seq);
    if b.floors.expiry_floor < first {
        TombstoneReason::Cap
    } else if b.floors.evict_floor < first {
        TombstoneReason::Ttl
    } else {
        TombstoneReason::Mixed
    }
}

/// The tombstone for a cursor: one exactly where the box lost records above it,
/// from the first lost to the last.
pub open spec fn tombstone_for(b: BoxState, from_seq: u64) -> Option<Tombstone> {
    if has_gap(b, from_seq) {
        Some(
            Tombstone {
                gap_from: first_above(b, from_seq) as u64,
                gap_to: b.floors.lost_upto() as u64,
                reason: gap_reason(b, from_seq),
                earliest_seq: b.earliest() as u64,
                head_seq: b.head_seq,
            },
        )
    } else {
        None
    }
}

/// Where a read from a cursor starts to look.
pub open spec fn read_start(b: BoxState, from_seq: u64) -> int {
    max_of(from_seq + 1, b.earliest())
}

/// How many records a read gives at most.
pub open spec fn room_for(limit: u32) -> int {
    min_of(max_of(limit as int, 1), MAX_LIMIT as int)
}

/// Decides on one record of a box.
fn decide(b: &BoxState, filter: &Option<NodeFilter>, now_ms: i64, rec: &StoredRecord) -> (r:
    ReadDecision)
    ensures
        r == if is_expired(now_ms, rec.ts, b.config.ttl_ms) {
            ReadDecision::Expired
        } else if node_unwanted(*filter, rec.node) {
            ReadDecision::NodeFiltered
        } else {
            ReadDecision::Deliver
        },
{
    let node = match &rec.node {
        Some(n) => Some(n.as_str()),
        None => None,
    };
    let wanted = match filter {
        Some(f) => Some(f),
        None => None,
    };
    evaluate(wanted, b.config.ttl_ms, now_ms, rec.ts, false, node)
}

/// The tombstone for a cursor.
pub fn find_gap(b: &BoxState, from_seq: u64) -> (r: Option<Tombstone>)
    ensures
        r == tombstone_for(*b, from_seq),
{
    let lost = if b.floors.evict_floor >= b.floors.expiry_floor {
        b.floors.evict_floor
    } else {
        b.floors.expiry_floor
    };
    if from_seq >= lost || b.seq_base > lost {
        return None;
    }
    let first = if from_seq + 1 >= b.seq_base {
        from_seq + 1
    } else {
        b.seq_base
    };
    let reason = if b.floors.expiry_floor < first {
        TombstoneReason::Cap
    } else if b.floors.evict_floor < first {
        TombstoneReason::Ttl
    } else {
        TombstoneReason::Mixed
    };
    Some(
        Tombstone {
            gap_from: first,
            gap_to: lost,
            reason,
            earliest_seq: b.earliest_seq(),
            head_seq: b.head_seq(),
        },
    )
}

/// What a read of a box gives: the wanted records above the cursor up to the
/// limit, the cursor to go on from, and the tombstone.
pub open spec fn is_read(b: BoxState, req: DiffRequest, now_ms: i64, r: DiffResponse) -> bool {
    let (seqs, last) = scan(
        b,
        req.node,
        now_ms,
        read_start(b, req.from_seq),
        room_for(req.limit),
    );
    &&& r.tombstone == tombstone_for(b, req.from_seq)
    &&& r.records@.len() == seqs.len()
    &&& forall|i: int|
        0 <= i < seqs.len() ==> projected(
            seqs[i],
            b.index.at(seqs[i])->0,
            req.include_tags,
            req.include_meta,
            #[trigger] r.records@[i],
        )
    &&& r.next_from_seq == last
    &&& r.head_seq == b.head_seq
    &&& r.earliest_seq == b.earliest()
    &&& r.caught_up == (r.next_from_seq >= b.head_seq)
    &&& r.lag == max_of(b.head_seq - r.next_from_seq, 0)
}

/// Reads a box from a cursor: the wanted records above it up to the limit, the
/// cursor to go on from, and a tombstone where records above it were lost. What
/// has expired must have been dropped before, as [`retain_and_diff`] does: only
/// then is it among what the tombstone names.
pub fn diff(b: &BoxState, req: &DiffRequest, now_ms: i64) -> (r: DiffResponse)
    requires
        b.wf(),
        b.seq_base >= 1,
        b.head_seq < u64::MAX,
        nothing_expired(*b, now_ms),
    ensures
        is_read(*b, *req, now_ms, r),
{
    read_upto(b, req, req.limit, now_ms)
}

/// Reads a box as [`diff`] does, with another limit.
fn read_upto(b: &BoxState, req: &DiffRequest, limit: u32, now_ms: i64) -> (r: DiffResponse)
    requires
        b.wf(),
        b.seq_base >= 1,
        b.head_seq < u64::MAX,
    ensures
        is_read(*b, (DiffRequest { limit, ..*req }), now_ms, r),
{
    let head = b.head_seq();
    let earliest = b.earliest_seq();
    let ghost start = read_start(*b, req.from_seq);
    let ghost full = room_for(limit);
    let room: usize = if limit < 1 {
        1
    } else if limit > MAX_LIMIT {
        MAX_LIMIT as usize
    } else {
        limit as usize
    };
    let mut records: Vec<RecordOut> = Vec::new();
    let mut last: u64 = if req.from_seq >= earliest {
        req.from_seq
    } else {
        earliest - 1
    };
    let ghost goal = scan(*b, req.node, now_ms, start, full);
    let ghost mut done: Seq<u64> = Seq::empty();
    assert(goal.0 =~= done + scan(*b, req.node, now_ms, last + 1, full).0);
    while last < head && records.len() < room
        invariant
            b.wf(),
            b.seq_base >= 1,
            head == b.head_seq,
            head < u64::MAX,
            earliest == b.earliest(),
            earliest <= last + 1,
            room == full,
            goal == scan(*b, req.node, now_ms, start, full),
            goal.0 == done + scan(*b, req.node, now_ms, last + 1, full - records@.len()).0,
            goal.1 == scan(*b, req.node, now_ms, last + 1, full - records@.len()).1,
            records@.len() == done.len(),
            records@.len() <= room,
            forall|i: int|
                0 <= i < done.len() ==> projected(
                    done[i],
                    b.index.at(done[i])->0,
                    req.include_tags,
                    req.include_meta,
                    #[trigger] records@[i],
                ),
        decreases head - last,
    {
        let seq = last + 1;
        if let Some(rec) = b.index.get(seq) {
            let ghost before = scan(*b, req.node, now_ms, seq as int, full - records@.len());
            if decide(b, &req.node, now_ms, rec) == ReadDecision::Deliver {
                let out = record_out(seq, rec, req.include_tags, req.include_meta);
                records.push(out);
                proof {
                    let rest = scan(*b, req.node, now_ms, seq + 1, full - records@.len());
                    assert(before == (seq![seq] + rest.0, rest.1));
                    assert(done + (seq![seq] + rest.0) =~= done.push(seq) + rest.0);
                    done = done.push(seq);
                }
            }
        }
        last = seq;
    }
    proof {
        let end = scan(*b, req.node, now_ms, last + 1, full - records@.len());
        assert(end == (Seq::<u64>::empty(), last as int));
        assert(done + Seq::<u64>::empty() =~= done);
    }
    DiffResponse {
        records,
        next_from_seq: last,
        head_seq: head,
        earliest_seq: earliest,
        caught_up: last >= head,
        tombstone: find_gap(b, req.from_seq),
        lag: if head > last {
            head - last
        } else {
            0
        },
    }
}

/// How many of some records a batch of `max_bytes` holds, when `held` of them, of
/// `total` bytes, are in it: as many as fit, but one at least, so that a reader
/// gets on.
pub open spec fn fitting(b: BoxState, seqs: Seq<u64>, max_bytes: u64, held: int, total: int) -> int
    decreases seqs.len() - held,
{
    if held >= seqs.len() {
        held
    } else {
        let with_next = total + (b.index.at(seqs[held])->0).bytes;
        if held > 0 && with_next > max_bytes {
            held
        } else {
            fitting(b, seqs, max_bytes, held + 1, with_next)
        }
    }
}

/// The limit of a read that is bounded in bytes: the one asked for where all that
/// it gives fits, else as many records as do.
pub open spec fn limit_within(
    b: BoxState,
    req: DiffRequest,
    max_bytes: Option<u64>,
    now_ms: i64,
) -> u32 {
    let seqs = scan(
        b,
        req.node,
        now_ms,
        read_start(b, req.from_seq),
        room_for(req.limit),
    ).0;
    match max_bytes {
        Some(max) if fitting(b, seqs, max, 0, 0) < seqs.len() => fitting(b, seqs, max, 0, 0) as u32,
        _ => req.limit,
    }
}

/// How many of the records that were read a batch holds.
fn count_fitting(b: &BoxState, records: &Vec<RecordOut>, max_bytes: u64, seqs: Ghost<Seq<u64>>) -> (r:
    usize)
    requires
        records@.len() == seqs@.len(),
        records@.len() <= MAX_LIMIT,
        forall|i: int| 0 <= i < seqs@.len() ==> (#[trigger] records@[i]).seq == seqs@[i],
        forall|i: int| 0 <= i < seqs@.len() ==> b.index.at(#[trigger] seqs@[i]) is Some,
    ensures
        r == fitting(*b, seqs@, max_bytes, 0, 0),
        r <= records@.len(),
        records@.len() > 0 ==> r > 0,
{
    let mut held: usize = 0;
    let mut total: u128 = 0;
    while held < records.len()
        invariant
            held <= records@.len() <= MAX_LIMIT,
            records@.len() == seqs@.len(),
            forall|i: int| 0 <= i < seqs@.len() ==> (#[trigger] records@[i]).seq == seqs@[i],
            forall|i: int| 0 <= i < seqs@.len() ==> b.index.at(#[trigger] seqs@[i]) is Some,
            total <= held * u64::MAX,
            fitting(*b, seqs@, max_bytes, 0, 0) == fitting(
                *b,
                seqs@,
                max_bytes,
                held as int,
                total as int,
            ),
        decreases records@.len() - held,
    {
        assert(b.index.at(seqs@[held as int]) is Some);
        let bytes = match b.index.get(records[held].seq) {
            Some(rec) => rec.bytes,
            None => 0,
        };
        let with_next = total + bytes as u128;
        if held > 0 && with_next > max_bytes as u128 {
            return held;
        }
        total = with_next;
        held += 1;
    }
    held
}

/// Reads a box once retention has run at the same instant, so that what has
/// expired by then is dropped, and told of. Where `max_bytes` is given, the read
/// is that of as many records as are within it.
pub fn retain_and_diff(
    b: &mut BoxState,
    req: &DiffRequest,
    max_bytes: Option<u64>,
    now_ms: i64,
) -> (r: DiffResponse)
    requires
        old(b).wf(),
        old(b).seq_base >= 1,
        old(b).head_seq < u64::MAX,
        old(b).ts_ordered(),
    ensures
        final(b).wf(),
        final(b).ts_ordered(),
        old(b).retained_at(now_ms, *final(b)),
        nothing_expired(*final(b), now_ms),
        is_read(
            *final(b),
            (DiffRequest { limit: limit_within(*final(b), *req, max_bytes, now_ms), ..*req }),
            now_ms,
            r,
        ),
{
    b.enforce_retention(now_ms);
    proof {
        law_nothing_expired_stays(*old(b), now_ms, *b);
    }
    let d = diff(b, req, now_ms);
    if let Some(max) = max_bytes {
        let ghost start = read_start(*b, req.from_seq);
        let ghost seqs = scan(*b, req.node, now_ms, start, room_for(req.limit)).0;
        proof {
            lemma_scan(*b, req.node, now_ms, start, room_for(req.limit));
            assert forall|i: int| 0 <= i < seqs.len() implies (#[trigger] d.records@[i]).seq
                == seqs[i] by {}
            assert forall|i: int| 0 <= i < seqs.len() implies b.index.at(
                #[trigger] seqs[i],
            ) is Some by {
                assert(start <= seqs[i]);
            }
        }
        let n = count_fitting(b, &d.records, max, Ghost(seqs));
        if n < d.records.len() {
            return read_upto(b, req, n as u32, now_ms);
        }
    }
    d
}

/// A read that is bounded in bytes is one with a limit of its own, and what it
/// gives is within the bound, unless it is a single record.
pub proof fn law_batches_are_within_bounds(
    b: BoxState,
    req: DiffRequest,
    max_bytes: u64,
    now_ms: i64,
)
    requires
        b.wf(),
        b.head_seq < u64::MAX,
        b.seq_base >= 1,
    ensures
        ({
            let start = read_start(b, req.from_seq);
            let all = scan(b, req.node, now_ms, start, room_for(req.limit)).0;
            let limit = limit_within(b, req, Some(max_bytes), now_ms);
            let seqs = scan(b, req.node, now_ms, start, room_for(limit)).0;
            &&& seqs == all.take(seqs.len() as int)
            &&& seqs.len() <= 1 || seqs_bytes(b, seqs) <= max_bytes
        }),
{
    let start = read_start(b, req.from_seq);
    let room = room_for(req.limit);
    let all = scan(b, req.node, now_ms, start, room).0;
    lemma_scan(b, req.node, now_ms, start, room);
    assert(all.take(0).len() == 0);
    lemma_fitting(b, all, max_bytes, 0);
    let k = fitting(b, all, max_bytes, 0, 0);
    if k < all.len() {
        lemma_scan_less(b, req.node, now_ms, start, room, k);
    } else {
        assert(all.take(all.len() as int) =~= all);
    }
}

/// The total size of some records of a box.
pub open spec fn seqs_bytes(b: BoxState, seqs: Seq<u64>) -> int
    decreases seqs.len(),
{
    if seqs.len() == 0 {
        0
    } else {
        seqs_bytes(b, seqs.drop_last()) + (b.index.at(seqs.last())->0).bytes
    }
}

/// What fits does.
proof fn lemma_fitting(b: BoxState, seqs: Seq<u64>, max_bytes: u64, held: int)
    requires
        0 <= held <= seqs.len(),
        held <= 1 || seqs_bytes(b, seqs.take(held)) <= max_bytes,
    ensures
        ({
            let k = fitting(b, seqs, max_bytes, held, seqs_bytes(b, seqs.take(held)));
            &&& held <= k <= seqs.len()
            &&& k <= 1 || seqs_bytes(b, seqs.take(k)) <= max_bytes
            &&& held == 0 && seqs.len() > 0 ==> k > 0
        }),
    decreases seqs.len() - held,
{
    if held < seqs.len() {
        assert(seqs.take(held + 1).drop_last() =~= seqs.take(held));
        let with_next = seqs_bytes(b, seqs.take(held + 1));
        if !(held > 0 && with_next > max_bytes) {
            lemma_fitting(b, seqs, max_bytes, held + 1);
        }
    }
}

/// A scan with less room delivers the first of what one with more room does.
proof fn lemma_scan_less(
    b: BoxState,
    filter: Option<NodeFilter>,
    now_ms: i64,
    seq: int,
    room: int,
    less: int,
)
    requires
        0 <= less <= scan(b, filter, now_ms, seq, room).0.len(),
    ensures
        scan(b, filter, now_ms, seq, less).0 == scan(b, filter, now_ms, seq, room).0.take(less),
    decreases b.head_seq + 1 - seq,
{
    let all = scan(b, filter, now_ms, seq, room).0;
    if less == 0 || seq > b.head_seq || room <= 0 {
        assert(all.take(less) =~= Seq::<u64>::empty());
    } else if fate(b, filter, now_ms, seq) == ReadDecision::Deliver {
        let rest = scan(b, filter, now_ms, seq + 1, room - 1).0;
        lemma_scan_less(b, filter, now_ms, seq + 1, room - 1, less - 1);
        assert(all.take(less) =~= seq![seq as u64] + rest.take(less - 1));
    } else {
        lemma_scan_less(b, filter, now_ms, seq + 1, room, less);
    }
}

/// What a scan delivers: in ascending order exactly the records between its
/// start and its end that are to be delivered; and it stops only at the head or
/// when the room is used up.
proof fn lemma_scan(b: BoxState, filter: Option<NodeFilter>, now_ms: i64, seq: int, room: int)
    requires
        0 < seq,
        b.head_seq < u64::MAX,
        room >= 0,
    ensures
        ({
            let (seqs, last) = scan(b, filter, now_ms, seq, room);
            &&& seq - 1 <= last <= max_of(b.head_seq as int, seq - 1)
            &&& seqs.len() <= room
            &&& last < b.head_seq ==> seqs.len() == room
            &&& forall|i: int| 0 <= i < seqs.len() ==> seq <= #[trigger] seqs[i] <= last
            &&& forall|i: int, j: int| 0 <= i < j < seqs.len() ==> seqs[i] < seqs[j]
            &&& forall|s: int|
                seq <= s <= last ==> (seqs.contains(s as u64) <==> #[trigger] fate(
                    b,
                    filter,
                    now_ms,
                    s,
                ) == ReadDecision::Deliver)
        }),
    decreases b.head_seq + 1 - seq,
{
    let (seqs, last) = scan(b, filter, now_ms, seq, room);
    if seq > b.head_seq || room <= 0 {
    } else if fate(b, filter, now_ms, seq) == ReadDecision::Deliver {
        lemma_scan(b, filter, now_ms, seq + 1, room - 1);
        let (rest, _) = scan(b, filter, now_ms, seq + 1, room - 1);
        assert(seqs[0] == seq);
        assert forall|i: int| 0 < i < seqs.len() implies seqs[i] == rest[i - 1] by {}
        assert forall|s: int| seq <= s <= last implies (seqs.contains(s as u64) <==> #[trigger] fate(
            b,
            filter,
            now_ms,
            s,
        ) == ReadDecision::Deliver) by {
            if s == seq {
                assert(seqs[0] == s as u64);
            } else {
                if seqs.contains(s as u64) {
                    let i = seqs.index_of(s as u64);
                    assert(seqs[i] == s as u64);
                    assert(rest[i - 1] == s as u64);
                }
                if rest.contains(s as u64) {
                    let i = rest.index_of(s as u64);
                    assert(seqs[i + 1] == s as u64);
                }
            }
        }
    } else {
        lemma_scan(b, filter, now_ms, seq + 1, room);
        let (rest, _) = scan(b, filter, now_ms, seq + 1, room);
        if rest.contains(seq as u64) {
            let i = rest.index_of(seq as u64);
            assert(rest[i] == seq as u64);
        }
    }
}

/// A seq lies in the gap that a tombstone names.
pub open spec fn in_gap(t: Option<Tombstone>, seq: int) -> bool {
    t matches Some(g) && g.gap_from <= seq <= g.gap_to
}

/// Loss is never silent. Of the seqs between the cursor a reader comes with and
/// the one it leaves with, each is named in the tombstone because the box lost
/// it, or was delivered, or was written by a node the reader filters out; and
/// no more than one of these. The box must have dropped what has expired, as
/// retention does.
pub proof fn law_no_silent_loss(
    b: BoxState,
    filter: Option<NodeFilter>,
    now_ms: i64,
    from_seq: u64,
    limit: u32,
    seq: int,
)
    requires
        b.wf(),
        b.seq_base >= 1,
        b.head_seq < u64::MAX,
        nothing_expired(b, now_ms),
        ({
            let (_, next) = scan(b, filter, now_ms, read_start(b, from_seq), room_for(limit));
            first_above(b, from_seq) <= seq <= next
        }),
    ensures
        ({
            let (seqs, _) = scan(b, filter, now_ms, read_start(b, from_seq), room_for(limit));
            let lost = in_gap(tombstone_for(b, from_seq), seq);
            let delivered = seqs.contains(seq as u64);
            let unwanted = b.earliest() <= seq && b.index.at(seq as u64) is Some && node_unwanted(
                filter,
                (b.index.at(seq as u64)->0).node,
            );
            &&& lost || delivered || unwanted
            &&& !(lost && delivered)
            &&& !(lost && unwanted)
            &&& !(delivered && unwanted)
        }),
{
    let start = read_start(b, from_seq);
    let (seqs, next) = scan(b, filter, now_ms, start, room_for(limit));
    lemma_scan(b, filter, now_ms, start, room_for(limit));
    if seqs.contains(seq as u64) {
        let i = seqs.index_of(seq as u64);
        assert(seqs[i] == seq as u64);
    }
    if start <= seq {
        assert(b.index.at(seq as u64) == Some(b.index.records@[seq - b.index.base_seq]));
        assert(seqs.contains(seq as u64) <==> fate(b, filter, now_ms, seq) == ReadDecision::Deliver);
    }
}

/// What a tombstone names is what the box lost: a seq above the cursor is in
/// the gap exactly when it was assigned and lies below the first deliverable
/// one. So a reader's filter never causes a tombstone.
pub proof fn law_tombstones_name_exactly_the_lost(b: BoxState, from_seq: u64, seq: int)
    requires
        b.wf(),
        b.head_seq < u64::MAX,
        from_seq < seq <= b.head_seq,
    ensures
        in_gap(tombstone_for(b, from_seq), seq) <==> b.seq_base <= seq <= b.floors.lost_upto(),
        in_gap(tombstone_for(b, from_seq), seq) ==> seq < b.earliest(),
{
}

/// A reader gets on: a read that does not catch up delivers something and moves
/// the cursor, and the cursor never moves back.
pub proof fn law_reads_get_on(
    b: BoxState,
    filter: Option<NodeFilter>,
    now_ms: i64,
    from_seq: u64,
    limit: u32,
)
    requires
        b.wf(),
        b.head_seq < u64::MAX,
        b.seq_base >= 1,
    ensures
        ({
            let (seqs, next) = scan(b, filter, now_ms, read_start(b, from_seq), room_for(limit));
            &&& from_seq <= next
            &&& next < b.head_seq ==> seqs.len() > 0 && from_seq < next
        }),
{
    let start = read_start(b, from_seq);
    lemma_scan(b, filter, now_ms, start, room_for(limit));
    let (seqs, next) = scan(b, filter, now_ms, start, room_for(limit));
    assert(seqs.len() > 0 ==> start <= seqs[0] <= next);
}

/// Records come in the order of their seqs, all above the cursor the reader
/// came with and none above the one it leaves with: reading on from there
/// repeats nothing.
pub proof fn law_reads_are_in_order(
    b: BoxState,
    filter: Option<NodeFilter>,
    now_ms: i64,
    from_seq: u64,
    limit: u32,
)
    requires
        b.wf(),
        b.head_seq < u64::MAX,
        b.seq_base >= 1,
    ensures
        ({
            let (seqs, next) = scan(b, filter, now_ms, read_start(b, from_seq), room_for(limit));
            &&& forall|i: int, j: int| 0 <= i < j < seqs.len() ==> seqs[i] < seqs[j]
            &&& forall|i: int| 0 <= i < seqs.len() ==> from_seq < #[trigger] seqs[i] <= next
        }),
{
    lemma_scan(b, filter, now_ms, read_start(b, from_seq), room_for(limit));
}

/// A node does not get its own records back: no record that is delivered was
/// written by a node the reader filters out, nor has it outlived its time.
pub proof fn law_no_echo(
    b: BoxState,
    filter: Option<NodeFilter>,
    now_ms: i64,
    from_seq: u64,
    limit: u32,
    i: int,
)
    requires
        b.wf(),
        b.head_seq < u64::MAX,
        b.seq_base >= 1,
        0 <= i < scan(b, filter, now_ms, read_start(b, from_seq), room_for(limit)).0.len(),
    ensures
        ({
            let seq = scan(b, filter, now_ms, read_start(b, from_seq), room_for(limit)).0[i];
            &&& b.index.at(seq) is Some
            &&& !node_unwanted(filter, (b.index.at(seq)->0).node)
            &&& !is_expired(now_ms, (b.index.at(seq)->0).ts, b.config.ttl_ms)
        }),
{
    let start = read_start(b, from_seq);
    let (seqs, last) = scan(b, filter, now_ms, start, room_for(limit));
    lemma_scan(b, filter, now_ms, start, room_for(limit));
    let seq = seqs[i];
    assert(start <= seq <= last);
    assert(seqs.contains(seq as int as u64) <==> fate(b, filter, now_ms, seq as int)
        == ReadDecision::Deliver);
}

/// Replay is reading from an earlier cursor: a read that catches up from there
/// delivers again whatever a read from a later cursor delivers.
pub proof fn law_replay_repeats(
    b: BoxState,
    filter: Option<NodeFilter>,
    now_ms: i64,
    earlier: u64,
    later: u64,
    limit: u32,
    i: int,
)
    requires
        b.wf(),
        b.head_seq < u64::MAX,
        b.seq_base >= 1,
        earlier <= later,
        scan(b, filter, now_ms, read_start(b, earlier), room_for(limit)).1 >= b.head_seq,
        0 <= i < scan(b, filter, now_ms, read_start(b, later), room_for(limit)).0.len(),
    ensures
        scan(b, filter, now_ms, read_start(b, earlier), room_for(limit)).0.contains(
            scan(b, filter, now_ms, read_start(b, later), room_for(limit)).0[i],
        ),
{
    let (all, end) = scan(b, filter, now_ms, read_start(b, earlier), room_for(limit));
    let (some, last) = scan(b, filter, now_ms, read_start(b, later), room_for(limit));
    lemma_scan(b, filter, now_ms, read_start(b, earlier), room_for(limit));
    lemma_scan(b, filter, now_ms, read_start(b, later), room_for(limit));
    let seq = some[i];
    assert(read_start(b, later) <= seq <= last);
    assert(some.contains(seq as int as u64) <==> fate(b, filter, now_ms, seq as int)
        == ReadDecision::Deliver);
    assert(all.contains(seq as int as u64) <==> fate(b, filter, now_ms, seq as int)
        == ReadDecision::Deliver);
}

/// Once retention has run, what a read looks at has not expired, so that
/// nothing is skipped for its age.
pub proof fn law_retention_clears_the_way(before: BoxState, now_ms: i64, after: BoxState)
    requires
        before.wf(),
        before.ts_ordered(),
        before.head_seq < u64::MAX,
        before.retained_at(now_ms, after),
    ensures
        nothing_expired(after, now_ms),
{
    law_nothing_expired_stays(before, now_ms, after);
}

/// From the append to the read nothing is lost silently: of records that are
/// appended to a box, and of those it held, each seq between the cursor a reader
/// comes with and the one it leaves with is delivered, or named in the
/// tombstone, or written by a node the reader filters out, however much
/// retention took out in between.
pub proof fn law_appended_is_never_lost_silently(
    before: BoxState,
    records: Seq<StoredRecord>,
    written_ms: i64,
    appended: BoxState,
    now_ms: i64,
    retained: BoxState,
    filter: Option<NodeFilter>,
    from_seq: u64,
    limit: u32,
    seq: int,
)
    requires
        before.wf(),
        before.ts_ordered(),
        before.seq_base >= 1,
        before.head_seq + records.len() < u64::MAX,
        may_follow(before, records),
        before.appended(records, written_ms, appended),
        appended.retained_at(now_ms, retained),
        ({
            let (_, next) = scan(
                retained,
                filter,
                now_ms,
                read_start(retained, from_seq),
                room_for(limit),
            );
            first_above(retained, from_seq) <= seq <= next
        }),
    ensures
        ({
            let (seqs, _) = scan(
                retained,
                filter,
                now_ms,
                read_start(retained, from_seq),
                room_for(limit),
            );
            let lost = in_gap(tombstone_for(retained, from_seq), seq);
            let delivered = seqs.contains(seq as u64) && retained.index.at(seq as u64)
                == appended.index.at(seq as u64);
            let unwanted = retained.earliest() <= seq && appended.index.at(seq as u64) is Some
                && node_unwanted(filter, (appended.index.at(seq as u64)->0).node);
            &&& lost || delivered || unwanted
            &&& !(lost && delivered)
            &&& !(lost && unwanted)
            &&& !(delivered && unwanted)
        }),
{
    law_append_keeps_the_order(before, records, written_ms, appended);
    assert(appended.wf());
    law_nothing_expired_stays(appended, now_ms, retained);
    law_retention_keeps_the_deliverable(appended, now_ms, retained);
    lemma_retained_is_well_formed(appended, now_ms, retained);
    let start = read_start(retained, from_seq);
    lemma_scan(retained, filter, now_ms, start, room_for(limit));
    law_no_silent_loss(retained, filter, now_ms, from_seq, limit, seq);
    if retained.earliest() <= seq <= retained.head_seq {
        assert(retained.index.at(seq as u64) == appended.index.at(seq as u64));
    }
}

/// A response leaves nothing out. Every seq that the box assigned between the
/// cursor a reader came with and the one it is told to go on from is in the
/// tombstone's range, or is the seq of one of the records, or holds a record of a
/// node that the request filters out; and no more than one of these. It is in the
/// range exactly when it lies at or below a floor. So a reader that is told it has
/// caught up was told of every seq up to the head.
pub proof fn law_a_response_leaves_nothing_out(
    b: BoxState,
    req: DiffRequest,
    now_ms: i64,
    r: DiffResponse,
    seq: u64,
)
    requires
        b.wf(),
        b.seq_base >= 1,
        b.head_seq < u64::MAX,
        nothing_expired(b, now_ms),
        is_read(b, req, now_ms, r),
        req.from_seq < seq,
        b.seq_base <= seq <= b.head_seq,
        seq <= r.next_from_seq || r.caught_up,
    ensures
        ({
            let lost = r.tombstone matches Some(t) && t.gap_from <= seq <= t.gap_to;
            let delivered = exists|i: int|
                0 <= i < r.records@.len() && (#[trigger] r.records@[i]).seq == seq;
            let unwanted = seq >= b.index.base_seq && match (
                req.node,
                b.index.records@[seq - b.index.base_seq].node,
            ) {
                (Some(f), Some(n)) => f.names(n@),
                _ => false,
            };
            &&& lost <==> seq <= b.floors.evict_floor || seq <= b.floors.expiry_floor
            &&& lost || delivered || unwanted
            &&& !(lost && delivered)
            &&& !(delivered && unwanted)
        }),
{
    let start = read_start(b, req.from_seq);
    let room = room_for(req.limit);
    let (seqs, last) = scan(b, req.node, now_ms, start, room);
    lemma_scan(b, req.node, now_ms, start, room);
    law_no_silent_loss(b, req.node, now_ms, req.from_seq, req.limit, seq as int);
    if seqs.contains(seq) {
        let i = seqs.index_of(seq);
        assert(seqs[i] == seq);
        assert(r.records@[i].seq == seq);
    }
    if exists|i: int| 0 <= i < r.records@.len() && (#[trigger] r.records@[i]).seq == seq {
        let i = choose|i: int| 0 <= i < r.records@.len() && (#[trigger] r.records@[i]).seq == seq;
        assert(projected(
            seqs[i],
            b.index.at(seqs[i])->0,
            req.include_tags,
            req.include_meta,
            r.records@[i],
        ));
        assert(seqs[i] == seq);
        assert(seqs.contains(seq));
    }
}

/// What a response holds is the box's own: each record is the one stored under its
/// seq, projected as asked; they come in the order of their seqs, all above the
/// cursor, none above the next, none lost and none filtered out.
pub proof fn law_a_response_gives_what_is_stored(
    b: BoxState,
    req: DiffRequest,
    now_ms: i64,
    r: DiffResponse,
    i: int,
)
    requires
        b.wf(),
        b.seq_base >= 1,
        b.head_seq < u64::MAX,
        is_read(b, req, now_ms, r),
        0 <= i < r.records@.len(),
    ensures
        ({
            let out = r.records@[i];
            let rec = b.index.records@[out.seq - b.index.base_seq];
            &&& req.from_seq < out.seq <= r.next_from_seq
            &&& out.seq <= b.head_seq
            &&& i > 0 ==> r.records@[i - 1].seq < out.seq
            &&& out.seq > b.floors.evict_floor
            &&& out.seq > b.floors.expiry_floor
            &&& b.index.base_seq <= out.seq < b.index.base_seq + b.index.records@.len()
            &&& out.ts == rec.ts
            &&& out.node == rec.node
            &&& out.data == rec.data
            &&& req.include_tags ==> out.tag == rec.tag
            &&& !req.include_tags ==> out.tag is None
            &&& req.include_meta ==> out.meta == rec.meta
            &&& !req.include_meta ==> out.meta is None
            &&& out.type_ is None
            &&& match (req.node, rec.node) {
                (Some(f), Some(n)) => !f.names(n@),
                _ => true,
            }
            &&& b.config.ttl_ms > 0 ==> now_ms - rec.ts <= b.config.ttl_ms
        }),
{
    let start = read_start(b, req.from_seq);
    let room = room_for(req.limit);
    let (seqs, last) = scan(b, req.node, now_ms, start, room);
    lemma_scan(b, req.node, now_ms, start, room);
    assert(projected(
        seqs[i],
        b.index.at(seqs[i])->0,
        req.include_tags,
        req.include_meta,
        r.records@[i],
    ));
    if i > 0 {
        assert(projected(
            seqs[i - 1],
            b.index.at(seqs[i - 1])->0,
            req.include_tags,
            req.include_meta,
            r.records@[i - 1],
        ));
    }
    law_no_echo(b, req.node, now_ms, req.from_seq, req.limit, i);
}

/// A response says how far it got. The cursor never goes back, nor past the head;
/// a reader has caught up exactly when nothing above the next cursor is left, and
/// the lag is what is left. A response stops short of the head only when it is
/// full, and then right at its last record. It is never longer than asked for, nor
/// than the largest limit, but a limit of none counts as one.
pub proof fn law_a_response_says_how_far_it_got(
    b: BoxState,
    req: DiffRequest,
    now_ms: i64,
    r: DiffResponse,
)
    requires
        b.wf(),
        b.seq_base >= 1,
        b.head_seq < u64::MAX,
        is_read(b, req, now_ms, r),
    ensures
        r.head_seq == b.head_seq,
        req.from_seq <= r.next_from_seq,
        r.next_from_seq <= b.head_seq || r.next_from_seq == req.from_seq,
        r.caught_up <==> r.next_from_seq >= b.head_seq,
        r.caught_up ==> r.lag == 0,
        !r.caught_up ==> r.next_from_seq + r.lag == b.head_seq,
        r.records@.len() <= req.limit || r.records@.len() <= 1,
        r.records@.len() <= 1000,
        !r.caught_up ==> r.records@.len() > 0 && r.records@.last().seq == r.next_from_seq,
        !r.caught_up ==> r.records@.len() >= req.limit || r.records@.len() == 1000,
        r.earliest_seq > b.floors.evict_floor,
        r.earliest_seq > b.floors.expiry_floor,
        b.seq_base <= r.earliest_seq <= b.head_seq + 1,
        r.earliest_seq == b.seq_base || r.earliest_seq == b.floors.evict_floor + 1
            || r.earliest_seq == b.floors.expiry_floor + 1,
{
    let start = read_start(b, req.from_seq);
    let room = room_for(req.limit);
    let (seqs, last) = scan(b, req.node, now_ms, start, room);
    lemma_scan(b, req.node, now_ms, start, room);
    if last < b.head_seq {
        lemma_scan_stops_at_the_last(b, req.node, now_ms, start, room);
        let k = seqs.len() - 1;
        assert(projected(
            seqs[k],
            b.index.at(seqs[k])->0,
            req.include_tags,
            req.include_meta,
            r.records@[k],
        ));
    }
}

/// A scan that stops short of the head stops at the last record that it delivers.
proof fn lemma_scan_stops_at_the_last(
    b: BoxState,
    filter: Option<NodeFilter>,
    now_ms: i64,
    seq: int,
    room: int,
)
    requires
        0 < seq,
        b.head_seq < u64::MAX,
        room > 0,
        scan(b, filter, now_ms, seq, room).1 < b.head_seq,
    ensures
        scan(b, filter, now_ms, seq, room).0.len() > 0,
        scan(b, filter, now_ms, seq, room).0.last() == scan(b, filter, now_ms, seq, room).1,
    decreases b.head_seq + 1 - seq,
{
    if seq <= b.head_seq {
        if fate(b, filter, now_ms, seq) == ReadDecision::Deliver {
            if room > 1 {
                lemma_scan_stops_at_the_last(b, filter, now_ms, seq + 1, room - 1);
                let rest = scan(b, filter, now_ms, seq + 1, room - 1).0;
                assert((seq![seq as u64] + rest).last() == rest.last());
            } else {
                assert(scan(b, filter, now_ms, seq + 1, 0) == (Seq::<u64>::empty(), seq));
                assert((seq![seq as u64] + Seq::<u64>::empty()).last() == seq);
            }
        } else {
            lemma_scan_stops_at_the_last(b, filter, now_ms, seq + 1, room);
        }
    }
}

/// A tombstone says exactly what was lost above the cursor, and why: its range is
/// that of the seqs above the cursor that the box assigned and lost, whole; only a
/// cap took them where none of them expired, only age where none was evicted, and
/// else both. Without such seqs there is no tombstone.
pub proof fn law_a_tombstone_says_what_and_why(
    b: BoxState,
    req: DiffRequest,
    now_ms: i64,
    r: DiffResponse,
)
    requires
        b.wf(),
        b.seq_base >= 1,
        b.head_seq < u64::MAX,
        is_read(b, req, now_ms, r),
    ensures
        match r.tombstone {
            Some(t) => {
                let evicted = b.floors.evict_floor >= t.gap_from;
                let expired = b.floors.expiry_floor >= t.gap_from;
                &&& req.from_seq < t.gap_from <= t.gap_to <= b.head_seq
                &&& t.gap_from == req.from_seq + 1 || t.gap_from == b.seq_base
                &&& t.gap_from >= b.seq_base
                &&& t.gap_to == b.floors.evict_floor || t.gap_to == b.floors.expiry_floor
                &&& t.gap_to >= b.floors.evict_floor
                &&& t.gap_to >= b.floors.expiry_floor
                &&& t.reason == TombstoneReason::Cap <==> evicted && !expired
                &&& t.reason == TombstoneReason::Ttl <==> expired && !evicted
                &&& t.reason == TombstoneReason::Mixed <==> evicted && expired
                &&& t.earliest_seq == r.earliest_seq
                &&& t.head_seq == b.head_seq
                &&& t.gap_to < r.earliest_seq
            },
            None => {
                let lost = |floor: u64| req.from_seq < floor && b.seq_base <= floor;
                !lost(b.floors.evict_floor) && !lost(b.floors.expiry_floor)
            },
        },
{
}

/// Reading on joins up. Whoever reads a box, and then again from where the first
/// response says to go on, was told of every seq from the first cursor to the last,
/// whatever was appended or lost in between: each was delivered, named as lost, or
/// written by a filtered node when it was read.
pub proof fn law_reading_on_joins_up(
    b: BoxState,
    req: DiffRequest,
    now_ms: i64,
    r: DiffResponse,
    later: BoxState,
    next: DiffRequest,
    later_ms: i64,
    r2: DiffResponse,
    seq: u64,
)
    requires
        b.wf() && later.wf(),
        b.seq_base >= 1 && later.seq_base >= 1,
        b.head_seq < u64::MAX && later.head_seq < u64::MAX,
        nothing_expired(b, now_ms) && nothing_expired(later, later_ms),
        is_read(b, req, now_ms, r),
        is_read(later, next, later_ms, r2),
        next.from_seq == r.next_from_seq,
        req.from_seq < seq <= r2.next_from_seq,
        b.seq_base <= seq && later.seq_base <= seq,
    ensures
        ({
            let told = |x: DiffResponse| -> bool
                {
                    ||| x.tombstone matches Some(t) && t.gap_from <= seq <= t.gap_to
                    ||| exists|i: int| 0 <= i < x.records@.len() && (#[trigger] x.records@[i]).seq == seq
                };
            let unwanted = |x: BoxState, q: DiffRequest| -> bool
                {
                    seq >= x.index.base_seq && match (
                        q.node,
                        x.index.records@[seq - x.index.base_seq].node,
                    ) {
                        (Some(f), Some(n)) => f.names(n@),
                        _ => false,
                    }
                };
            if seq <= r.next_from_seq {
                told(r) || unwanted(b, req)
            } else {
                told(r2) || unwanted(later, next)
            }
        }),
{
    law_a_response_says_how_far_it_got(b, req, now_ms, r);
    law_a_response_says_how_far_it_got(later, next, later_ms, r2);
    if seq <= r.next_from_seq {
        law_a_response_leaves_nothing_out(b, req, now_ms, r, seq);
    } else {
        law_a_response_leaves_nothing_out(later, next, later_ms, r2, seq);
    }
}

/// A read that is bounded in bytes gives the first of what it would give without
/// the bound: at least one record where there is any; else no more than fit, and
/// no fewer either, since with the next one the bound is passed.
pub proof fn law_a_bounded_response_is_as_long_as_fits(
    b: BoxState,
    req: DiffRequest,
    max_bytes: u64,
    now_ms: i64,
    full: DiffResponse,
    r: DiffResponse,
)
    requires
        b.wf(),
        b.seq_base >= 1,
        b.head_seq < u64::MAX,
        is_read(b, req, now_ms, full),
        is_read(
            b,
            (DiffRequest { limit: limit_within(b, req, Some(max_bytes), now_ms), ..req }),
            now_ms,
            r,
        ),
    ensures
        r.records@.len() <= full.records@.len(),
        full.records@.len() > 0 ==> r.records@.len() > 0,
        forall|i: int|
            0 <= i < r.records@.len() ==> (#[trigger] r.records@[i]).seq == full.records@[i].seq,
        r.records@.len() <= 1 || response_bytes(b, r.records@) <= max_bytes,
        r.records@.len() < full.records@.len() ==> response_bytes(
            b,
            full.records@.take(r.records@.len() as int + 1),
        ) > max_bytes,
        r.records@.len() == full.records@.len() ==> r.next_from_seq == full.next_from_seq,
{
    let start = read_start(b, req.from_seq);
    let room = room_for(req.limit);
    let all = scan(b, req.node, now_ms, start, room).0;
    let limit = limit_within(b, req, Some(max_bytes), now_ms);
    let seqs = scan(b, req.node, now_ms, start, room_for(limit)).0;
    lemma_scan(b, req.node, now_ms, start, room);
    assert(all.take(0).len() == 0);
    lemma_fitting(b, all, max_bytes, 0);
    lemma_fitting_is_most(b, all, max_bytes, 0);
    law_batches_are_within_bounds(b, req, max_bytes, now_ms);
    let k = fitting(b, all, max_bytes, 0, 0);
    if k < all.len() {
        lemma_scan_less(b, req.node, now_ms, start, room, k);
        assert(seqs == all.take(k));
    } else {
        assert(seqs == all);
    }
    assert forall|i: int| 0 <= i < r.records@.len() implies (#[trigger] r.records@[i]).seq
        == full.records@[i].seq by {
        assert(projected(
            all[i],
            b.index.at(all[i])->0,
            req.include_tags,
            req.include_meta,
            full.records@[i],
        ));
        assert(seqs[i] == all[i]);
    }
    assert forall|i: int| 0 <= i < full.records@.len() implies (#[trigger] full.records@[i]).seq
        == all[i] by {}
    lemma_response_bytes(b, full.records@, all, r.records@.len() as int);
    if r.records@.len() < full.records@.len() {
        lemma_response_bytes(b, full.records@, all, r.records@.len() as int + 1);
    }
    lemma_response_bytes(b, r.records@, seqs, r.records@.len() as int);
    assert(r.records@.take(r.records@.len() as int) =~= r.records@);
    assert(seqs.take(seqs.len() as int) =~= seqs);
}

/// The accounted size of the records of a response, as the box stores them.
pub open spec fn response_bytes(b: BoxState, records: Seq<RecordOut>) -> int
    decreases records.len(),
{
    if records.len() == 0 {
        0
    } else {
        response_bytes(b, records.drop_last()) + b.index.records@[records.last().seq
            - b.index.base_seq].bytes
    }
}

proof fn lemma_response_bytes(b: BoxState, records: Seq<RecordOut>, seqs: Seq<u64>, n: int)
    requires
        records.len() == seqs.len(),
        0 <= n <= seqs.len(),
        forall|i: int| 0 <= i < seqs.len() ==> (#[trigger] records[i]).seq == seqs[i],
        forall|i: int| 0 <= i < seqs.len() ==> b.index.at(#[trigger] seqs[i]) is Some,
    ensures
        response_bytes(b, records.take(n)) == seqs_bytes(b, seqs.take(n)),
    decreases n,
{
    if n > 0 {
        lemma_response_bytes(b, records, seqs, n - 1);
        assert(records.take(n).drop_last() =~= records.take(n - 1));
        assert(seqs.take(n).drop_last() =~= seqs.take(n - 1));
        assert(records[n - 1].seq == seqs[n - 1]);
        assert(b.index.at(seqs[n - 1]) is Some);
    }
}

/// With one more than fits the bound is passed.
proof fn lemma_fitting_is_most(b: BoxState, seqs: Seq<u64>, max_bytes: u64, held: int)
    requires
        0 <= held <= seqs.len(),
    ensures
        ({
            let k = fitting(b, seqs, max_bytes, held, seqs_bytes(b, seqs.take(held)));
            held <= k && (k < seqs.len() ==> seqs_bytes(b, seqs.take(k + 1)) > max_bytes)
        }),
    decreases seqs.len() - held,
{
    if held < seqs.len() {
        assert(seqs.take(held + 1).drop_last() =~= seqs.take(held));
        let with_next = seqs_bytes(b, seqs.take(held + 1));
        if !(held > 0 && with_next > max_bytes) {
            lemma_fitting_is_most(b, seqs, max_bytes, held + 1);
        }
    }
}

/// A gap is named for every cursor that lies below it, and for no other: from the first
/// seq above the cursor that the box assigned to the higher floor, with its cause.
pub proof fn law_gaps_are_named_from_below(b: BoxState, from_seq: u64)
    ensures
        match tombstone_for(b, from_seq) {
            Some(t) => {
                let evicted = t.gap_from <= b.floors.evict_floor;
                let expired = t.gap_from <= b.floors.expiry_floor;
                &&& from_seq < t.gap_from <= t.gap_to
                &&& b.seq_base <= t.gap_from
                &&& t.gap_from == from_seq + 1 || t.gap_from == b.seq_base
                &&& evicted || expired
                &&& b.floors.evict_floor <= t.gap_to && b.floors.expiry_floor <= t.gap_to
                &&& t.gap_to == b.floors.evict_floor || t.gap_to == b.floors.expiry_floor
                &&& t.reason == TombstoneReason::Cap <==> !expired
                &&& t.reason == TombstoneReason::Ttl <==> !evicted
                &&& t.reason == TombstoneReason::Mixed <==> evicted && expired
                &&& t.head_seq == b.head_seq
            },
            None => {
                &&& b.floors.evict_floor <= from_seq || b.floors.evict_floor < b.seq_base
                &&& b.floors.expiry_floor <= from_seq || b.floors.expiry_floor < b.seq_base
            },
        },
{
}

/// A read without a bound in bytes has the limit that was asked for.
pub proof fn law_no_bound_changes_no_limit(b: BoxState, req: DiffRequest, now_ms: i64)
    ensures
        limit_within(b, req, None, now_ms) == req.limit,
{
}

}
