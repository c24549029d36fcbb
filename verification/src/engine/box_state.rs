//! Per-box in-memory state: the base+offset [`BoxIndex`], the watermarks, the
//! retained payload bytes and the recency clocks.

use crate::engine::eviction::{max_of, min_of, Floors};
use crate::types::BoxConfig;
use serde_json::Value;
use std::collections::VecDeque;
use vstd::hash_map::StringHashMap;
use vstd::prelude::*;

verus! {

/// A remembered idempotent write: the seqs it assigned and when it landed, so
/// a retry within `idempotency_window_ms` returns the original seqs.
#[derive(Debug, Clone)]
pub struct DedupeEntry {
    pub seqs: Vec<u64>,
    pub head_seq: u64,
    pub created_ms: i64,
}

/// One stored record.
#[derive(Debug, Clone)]
pub struct StoredRecord {
    pub ts: i64,
    pub node: Option<String>,
    pub tag: Option<String>,
    pub data: Value,
    pub meta: Option<Value>,
    /// Accounted payload size (`data` + `meta` + framing estimate).
    pub bytes: u64,
}

/// The total of the accounted sizes of some records.
pub open spec fn bytes_sum(records: Seq<StoredRecord>) -> int
    decreases records.len(),
{
    if records.len() == 0 {
        0
    } else {
        bytes_sum(records.drop_last()) + records.last().bytes
    }
}

/// A record stamped `ts` has outlived `ttl_ms` at `now_ms`.
pub open spec fn is_expired(now_ms: i64, ts: i64, ttl_ms: u64) -> bool {
    ttl_ms > 0 && now_ms - ts > ttl_ms
}

/// How many records at the front have expired, up to the first that has not.
pub open spec fn expired_run(records: Seq<StoredRecord>, now_ms: i64, ttl_ms: u64) -> nat
    decreases records.len(),
{
    if records.len() > 0 && is_expired(now_ms, records[0].ts, ttl_ms) {
        1 + expired_run(records.skip(1), now_ms, ttl_ms)
    } else {
        0
    }
}

/// The end of the shortest run of records from position `from` whose sizes
/// total at least `need`; the end of the records when they do not suffice.
pub open spec fn cover_end(records: Seq<StoredRecord>, from: int, need: int) -> int
    decreases records.len() - from,
{
    if need <= 0 || from >= records.len() {
        from
    } else {
        cover_end(records, from + 1, need - records[from].bytes)
    }
}

/// The seq-to-record index: a contiguous deque offset by `base_seq`. Position
/// `i` corresponds to seq `base_seq + i`.
#[derive(Debug)]
pub struct BoxIndex {
    /// Seq of `records[0]`; the earliest physically present seq.
    pub base_seq: u64,
    pub records: VecDeque<StoredRecord>,
}

impl BoxIndex {
    /// The record physically present under `seq`.
    pub open spec fn at(self, seq: u64) -> Option<StoredRecord> {
        if self.base_seq <= seq < self.base_seq + self.records@.len() {
            Some(self.records@[seq - self.base_seq])
        } else {
            None
        }
    }

    pub fn new(base_seq: u64) -> (r: Self)
        ensures
            r.base_seq == base_seq,
            r.records@.len() == 0,
    {
        BoxIndex { base_seq, records: VecDeque::new() }
    }

    /// Lookup a record by seq, if physically present.
    pub fn get(&self, seq: u64) -> (r: Option<&StoredRecord>)
        ensures
            r is Some == self.at(seq) is Some,
            r matches Some(rec) ==> *rec == self.at(seq)->0,
    {
        if seq < self.base_seq {
            return None;
        }
        let offset = seq - self.base_seq;
        if offset >= self.records.len() as u64 {
            return None;
        }
        Some(&self.records[offset as usize])
    }

    /// Drop the oldest `n` records (all of them if there are fewer), advancing
    /// `base_seq` by as many.
    pub fn drain_front(&mut self, n: usize)
        requires
            old(self).base_seq + min_of(n as int, old(self).records@.len() as int) <= u64::MAX,
        ensures
            ({
                let k = min_of(n as int, old(self).records@.len() as int);
                &&& final(self).base_seq == old(self).base_seq + k
                &&& final(self).records@ == old(self).records@.skip(k)
            }),
    {
        let len = self.records.len();
        let k: usize = if n < len { n } else { len };
        let rest = self.records.split_off(k);
        assert(rest@ =~= old(self).records@.skip(k as int));
        self.records = rest;
        self.base_seq = self.base_seq + k as u64;
    }
}

impl Default for BoxIndex {
    fn default() -> (r: Self)
        ensures
            r.base_seq == 0,
            r.records@.len() == 0,
    {
        BoxIndex::new(0)
    }
}

/// Sentinel for a recency clock that has never fired.
pub const TS_NEVER: i64 = i64::MIN;

/// The in-memory state of one box.
pub struct BoxState {
    /// The box name (also the identity).
    pub name: String,
    /// Live config.
    pub config: BoxConfig,
    /// The seq-to-record index.
    pub index: BoxIndex,
    /// Eviction/expiry floors driving `earliest_seq`.
    pub floors: Floors,
    /// Idempotency key to assigned seqs.
    pub dedupe: StringHashMap<DedupeEntry>,
    /// Highest assigned seq (`0` for a fresh empty box).
    pub head_seq: u64,
    /// First seq this box instance will ever assign.
    pub seq_base: u64,
    /// Bumped on create; detects delete and recreate.
    pub epoch: u64,
    /// Retained payload bytes.
    pub bytes_retained: u64,
    /// Recency clocks (ms; [`TS_NEVER`] until they fire).
    pub last_write_ms: i64,
    pub last_read_ms: i64,
    pub last_consumed_ms: i64,
}

impl BoxState {
    /// Positions and seqs agree: the index ends at the head, starts no earlier
    /// than the first seq of the box and no later than the first deliverable
    /// seq, and no floor is above the head. (A box whose `seq_base` is `0`
    /// still assigns `1` first, so there the positions run one behind.)
    pub open spec fn wf(self) -> bool {
        &&& self.index.base_seq + self.index.records@.len() == self.head_seq + if self.seq_base
            == 0 {
            0int
        } else {
            1int
        }
        &&& self.seq_base <= self.index.base_seq
        &&& self.index.base_seq <= self.earliest()
        &&& self.floors.lost_upto() <= self.head_seq
    }

    /// `bytes_retained` is the total size of the records present.
    pub open spec fn bytes_exact(self) -> bool {
        self.bytes_retained == bytes_sum(self.index.records@)
    }

    /// Timestamps do not decrease with the seq.
    pub open spec fn ts_ordered(self) -> bool {
        forall|i: int, j: int|
            0 <= i <= j < self.index.records@.len() ==> self.index.records@[i].ts
                <= self.index.records@[j].ts
    }

    /// The first deliverable seq.
    pub open spec fn earliest(self) -> int {
        self.floors.earliest(self.seq_base, self.head_seq)
    }

    /// The number of deliverable seqs.
    pub open spec fn live_count(self) -> int {
        if self.head_seq == 0 || self.earliest() > self.head_seq {
            0
        } else {
            self.head_seq - self.earliest() + 1
        }
    }

    /// The expiry floor after the records expired at `now_ms` are counted out.
    pub open spec fn expiry_floor_at(self, now_ms: i64) -> int {
        let run = expired_run(self.index.records@, now_ms, self.config.ttl_ms);
        if run > 0 {
            max_of(self.floors.expiry_floor as int, self.index.base_seq + run - 1)
        } else {
            self.floors.expiry_floor as int
        }
    }

    /// The eviction floor that the record cap alone asks for.
    pub open spec fn record_cap_floor(self) -> int {
        let cap = self.config.cap_records;
        if cap > 0 && self.head_seq > cap {
            max_of(self.floors.evict_floor as int, self.head_seq - cap)
        } else {
            self.floors.evict_floor as int
        }
    }

    /// The position of the first record that neither the record cap nor age takes
    /// out at `now_ms`.
    pub open spec fn first_kept_at(self, now_ms: i64) -> int {
        let gone = max_of(self.record_cap_floor(), self.expiry_floor_at(now_ms));
        min_of(max_of(gone + 1 - self.index.base_seq, 0), self.index.records@.len() as int)
    }

    /// The eviction floor at `now_ms`: what the record cap asks for, then the
    /// oldest of the records that are left until their total is within the byte
    /// cap.
    pub open spec fn evict_floor_at(self, now_ms: i64) -> int {
        let by_records = self.record_cap_floor();
        let cap = self.config.cap_bytes;
        let first = self.first_kept_at(now_ms);
        let kept = bytes_sum(self.index.records@.skip(first));
        if cap > 0 && kept > cap {
            let end = cover_end(self.index.records@, first, kept - cap);
            max_of(by_records, self.index.base_seq + end - 1)
        } else {
            by_records
        }
    }

    /// The floors at `now_ms`.
    pub open spec fn floors_at(self, now_ms: i64) -> Floors {
        Floors {
            evict_floor: self.evict_floor_at(now_ms) as u64,
            expiry_floor: self.expiry_floor_at(now_ms) as u64,
        }
    }

    /// How many records at the front fall below the floors of `now_ms`.
    pub open spec fn dropped_at(self, now_ms: i64) -> int {
        let earliest = self.floors_at(now_ms).earliest(self.seq_base, self.head_seq);
        min_of(max_of(earliest - self.index.base_seq, 0), self.index.records@.len() as int)
    }

    /// What appending `records` at `now_ms` makes of a box.
    pub open spec fn appended(
        self,
        records: Seq<StoredRecord>,
        now_ms: i64,
        after: BoxState,
    ) -> bool {
        if records.len() == 0 {
            after == self
        } else {
            &&& after == BoxState {
                index: after.index,
                head_seq: (self.head_seq + records.len()) as u64,
                bytes_retained: after.bytes_retained,
                last_write_ms: now_ms,
                ..self
            }
            &&& after.index.base_seq == self.index.base_seq
            &&& after.index.records@ == self.index.records@ + records
            &&& after.bytes_retained == (self.bytes_retained + min_of(
                bytes_sum(records),
                u64::MAX as int,
            )) % 0x1_0000_0000_0000_0000
        }
    }

    /// What retention makes of a box at `now_ms`.
    pub open spec fn retained_at(self, now_ms: i64, after: BoxState) -> bool {
        if self.head_seq == 0 {
            after == self
        } else {
            let dropped = self.dropped_at(now_ms);
            &&& after == BoxState {
                floors: self.floors_at(now_ms),
                index: after.index,
                bytes_retained: after.bytes_retained,
                ..self
            }
            &&& after.index.base_seq == self.index.base_seq + dropped
            &&& after.index.records@ == self.index.records@.skip(dropped)
            &&& after.bytes_retained == max_of(
                0,
                self.bytes_retained - bytes_sum(self.index.records@.take(dropped)),
            )
        }
    }

    /// Create a fresh box with the given config and epoch.
    pub fn new(name: String, config: BoxConfig, seq_base: u64, epoch: u64) -> (r: Self)
        ensures
            r.wf(),
            r.bytes_exact(),
            r.ts_ordered(),
            r.name == name,
            r.config == config,
            r.index.base_seq == seq_base,
            r.index.records@.len() == 0,
            r.floors == (Floors { evict_floor: 0, expiry_floor: 0 }),
            r.dedupe@ == Map::<Seq<char>, DedupeEntry>::empty(),
            r.head_seq == max_of(seq_base - 1, 0),
            r.seq_base == seq_base,
            r.epoch == epoch,
            r.bytes_retained == 0,
            r.last_write_ms == TS_NEVER,
            r.last_read_ms == TS_NEVER,
            r.last_consumed_ms == TS_NEVER,
    {
        BoxState {
            name,
            config,
            index: BoxIndex::new(seq_base),
            floors: Floors::new(),
            dedupe: StringHashMap::new(),
            head_seq: seq_base.saturating_sub(1),
            seq_base,
            epoch,
            bytes_retained: 0,
            last_write_ms: TS_NEVER,
            last_read_ms: TS_NEVER,
            last_consumed_ms: TS_NEVER,
        }
    }

    pub fn head_seq(&self) -> (r: u64)
        ensures
            r == self.head_seq,
    {
        self.head_seq
    }

    pub fn epoch(&self) -> (r: u64)
        ensures
            r == self.epoch,
    {
        self.epoch
    }

    /// Next seq an append will receive (`head_seq + 1`).
    pub fn next_seq(&self) -> (r: u64)
        ensures
            r == min_of(self.head_seq + 1, u64::MAX as int),
    {
        self.head_seq().saturating_add(1)
    }

    /// Logical earliest retained, deliverable seq. For an empty box this is
    /// `head_seq + 1`.
    pub fn earliest_seq(&self) -> (r: u64)
        ensures
            r == self.earliest(),
    {
        self.floors.earliest_seq(self.seq_base, self.head_seq())
    }

    /// Read a recency clock, mapping the sentinel to `None`.
    pub fn read_ts(value: i64) -> (r: Option<i64>)
        ensures
            r == if value == TS_NEVER {
                None
            } else {
                Some(value)
            },
    {
        if value == TS_NEVER {
            None
        } else {
            Some(value)
        }
    }

    /// The time a record is stamped with at `now_ms`: no earlier than the last
    /// record's, so that a clock that goes back does not upset the order.
    pub open spec fn stamp_at(self, now_ms: i64) -> i64 {
        if self.index.records@.len() > 0 && self.index.records@.last().ts > now_ms {
            self.index.records@.last().ts
        } else {
            now_ms
        }
    }

    /// The time to stamp a record with that is appended at `now_ms`.
    pub fn stamp(&self, now_ms: i64) -> (r: i64)
        ensures
            r == self.stamp_at(now_ms),
    {
        let len = self.index.records.len();
        if len > 0 && self.index.records[len - 1].ts > now_ms {
            self.index.records[len - 1].ts
        } else {
            now_ms
        }
    }

    /// Append `records` with seqs assigned in order, contiguous from
    /// `head_seq + 1`. Returns the assigned seqs. The caller has already
    /// validated and (for [`crate::types::Discard::Reject`]) admitted them, and
    /// wakes the readers that wait for the box.
    pub fn append(&mut self, records: Vec<StoredRecord>, now_ms: i64) -> (seqs: Vec<u64>)
        requires
            old(self).wf(),
            old(self).head_seq + records@.len() <= u64::MAX,
        ensures
            final(self).wf(),
            seqs@ == Seq::new(records@.len(), |i: int| (old(self).head_seq + 1 + i) as u64),
            old(self).appended(records@, now_ms, *final(self)),
    {
        let n = records.len();
        if n == 0 {
            assert(Seq::<u64>::empty() =~= Seq::new(
                0,
                |i: int| (old(self).head_seq + 1 + i) as u64,
            ));
            return Vec::new();
        }
        let start = self.head_seq() + 1;
        let new_head = self.head_seq() + n as u64;
        let mut added_bytes: u64 = 0;
        let mut seqs: Vec<u64> = Vec::new();
        let ghost all = records@;
        let ghost before = *self;
        for rec in it: records
            invariant
                it.seq() == all,
                n == all.len(),
                start == before.head_seq + 1,
                before.head_seq + n <= u64::MAX,
                *self == (BoxState { index: self.index, ..before }),
                self.index.base_seq == before.index.base_seq,
                self.index.records@ == before.index.records@ + all.take(it.index() as int),
                added_bytes == min_of(bytes_sum(all.take(it.index() as int)), u64::MAX as int),
                seqs@ == Seq::new(it.index() as nat, |i: int| (before.head_seq + 1 + i) as u64),
        {
            let ghost i = it.index() as int;
            assert(all.take(i + 1) =~= all.take(i).push(all[i]));
            assert(all.take(i + 1).drop_last() =~= all.take(i));
            added_bytes = added_bytes.saturating_add(rec.bytes);
            let ghost recs = self.index.records@;
            self.index.records.push_back(rec);
            seqs.push(start + seqs.len() as u64);
            assert(self.index.records@ =~= before.index.records@ + all.take(i + 1));
            assert(seqs@ =~= Seq::new((i + 1) as nat, |i: int| (before.head_seq + 1 + i) as u64));
        }
        assert(all.take(all.len() as int) =~= all);
        self.head_seq = new_head;
        self.bytes_retained = self.bytes_retained.wrapping_add(added_bytes);
        self.last_write_ms = now_ms;
        seqs
    }

    /// How many of the front records have expired at `now_ms`.
    fn count_expired(&self, now_ms: i64) -> (n: usize)
        ensures
            n == expired_run(self.index.records@, now_ms, self.config.ttl_ms),
    {
        let ttl_ms = self.config.ttl_ms;
        let ghost recs = self.index.records@;
        let mut n: usize = 0;
        assert(recs.skip(0) =~= recs);
        while n < self.index.records.len() && ttl_ms > 0 && now_ms as i128
            - self.index.records[n].ts as i128 > ttl_ms as i128
            invariant
                n <= recs.len(),
                recs == self.index.records@,
                ttl_ms == self.config.ttl_ms,
                expired_run(recs, now_ms, ttl_ms) == n + expired_run(
                    recs.skip(n as int),
                    now_ms,
                    ttl_ms,
                ),
            decreases recs.len() - n,
        {
            assert(recs.skip(n as int)[0] == recs[n as int]);
            assert(recs.skip(n as int).skip(1) =~= recs.skip(n + 1));
            n += 1;
        }
        assert(n < recs.len() ==> recs.skip(n as int)[0] == recs[n as int]);
        n
    }

    /// Where the run of records from position `from` that covers `need` bytes
    /// ends.
    fn find_cover(&self, from: usize, need: u128) -> (end: usize)
        requires
            from <= self.index.records@.len(),
        ensures
            end == cover_end(self.index.records@, from as int, need as int),
            from <= end <= self.index.records@.len(),
    {
        let mut over = need;
        let mut end = from;
        while end < self.index.records.len() && over > 0
            invariant
                from <= end <= self.index.records@.len(),
                cover_end(self.index.records@, from as int, need as int) == cover_end(
                    self.index.records@,
                    end as int,
                    over as int,
                ),
            decreases self.index.records@.len() - end,
        {
            proof {
                reveal_with_fuel(cover_end, 2);
            }
            over = over.saturating_sub(self.index.records[end].bytes as u128);
            end += 1;
        }
        end
    }

    /// The total size of the records from position `from` on.
    fn bytes_from(&self, from: usize) -> (total: u128)
        requires
            from <= self.index.records@.len(),
        ensures
            total == bytes_sum(self.index.records@.skip(from as int)),
    {
        let ghost recs = self.index.records@;
        let len = self.index.records.len();
        let mut total: u128 = 0;
        let mut i: usize = from;
        assert(recs.subrange(from as int, from as int).len() == 0);
        while i < len
            invariant
                from <= i <= len,
                len == recs.len(),
                recs == self.index.records@,
                total == bytes_sum(recs.subrange(from as int, i as int)),
                total <= i * u64::MAX,
            decreases len - i,
        {
            assert(recs.subrange(from as int, i + 1).drop_last() =~= recs.subrange(
                from as int,
                i as int,
            ));
            assert(i * u64::MAX <= usize::MAX * u64::MAX);
            total = total + self.index.records[i].bytes as u128;
            i += 1;
        }
        assert(recs.subrange(from as int, i as int) =~= recs.skip(from as int));
        total
    }

    /// The total size of the `n` oldest records, as far as `u64` reaches.
    fn front_bytes(&self, n: usize) -> (total: u64)
        requires
            n <= self.index.records@.len(),
        ensures
            total == min_of(bytes_sum(self.index.records@.take(n as int)), u64::MAX as int),
    {
        let ghost recs = self.index.records@;
        let mut total: u64 = 0;
        for i in 0..n
            invariant
                n <= recs.len(),
                recs == self.index.records@,
                total == min_of(bytes_sum(recs.take(i as int)), u64::MAX as int),
        {
            assert(recs.take(i + 1).drop_last() =~= recs.take(i as int));
            total = total.saturating_add(self.index.records[i].bytes);
        }
        total
    }

    /// The expiry floor that the timestamps ask for at `now_ms`. Timestamps
    /// are non-decreasing in seq, so what has expired is a prefix.
    fn next_expiry_floor(&self, now_ms: i64) -> (floor: u64)
        requires
            self.wf(),
        ensures
            floor == self.expiry_floor_at(now_ms),
            floor <= self.head_seq,
    {
        let expired = self.count_expired(now_ms);
        proof {
            lemma_expired_run(self.index.records@, now_ms, self.config.ttl_ms);
        }
        if expired > 0 {
            let upto = self.index.base_seq + (expired as u64 - 1);
            if upto > self.floors.expiry_floor {
                return upto;
            }
        }
        self.floors.expiry_floor
    }

    /// The eviction floor that the caps ask for, once `expiry_floor` is known.
    fn next_evict_floor(&self, now_ms: i64, expiry_floor: u64) -> (floor: u64)
        requires
            self.wf(),
            expiry_floor == self.expiry_floor_at(now_ms),
        ensures
            floor == self.evict_floor_at(now_ms),
            floor <= self.head_seq,
    {
        let head = self.head_seq();
        let base = self.index.base_seq;
        let len = self.index.records.len();
        let cap_records = self.config.cap_records;
        let cap_bytes = self.config.cap_bytes;

        // Cap on records: keep at most `cap_records`.
        let mut floor = self.floors.evict_floor;
        if cap_records > 0 && head > cap_records && head - cap_records > floor {
            floor = head - cap_records;
        }
        assert(floor == self.record_cap_floor());

        // Cap on bytes: of the records that are left, evict the oldest until the
        // rest is within the cap.
        if cap_bytes > 0 {
            let gone = if floor >= expiry_floor {
                floor
            } else {
                expiry_floor
            };
            let first: usize = if gone < base {
                0
            } else if gone - base >= len as u64 {
                len
            } else {
                (gone - base) as usize + 1
            };
            let kept = self.bytes_from(first);
            if kept > cap_bytes as u128 {
                let end = self.find_cover(first, kept - cap_bytes as u128);
                proof {
                    assert(self.index.records@.skip(first as int).len() > 0);
                    reveal_with_fuel(cover_end, 2);
                    lemma_cover(self.index.records@, first + 1, 0);
                    lemma_cover(
                        self.index.records@,
                        first + 1,
                        kept - cap_bytes - self.index.records@[first as int].bytes,
                    );
                }
                let evict_to = base + (end as u64 - 1);
                if evict_to > floor {
                    floor = evict_to;
                }
            }
        }
        floor
    }

    /// Recompute eviction/expiry floors against caps and TTL at `now_ms`, drain
    /// the index front, and update retained bytes.
    ///
    /// Safe to call on both the write and read paths. After it runs, the
    /// physically-present records equal the logically-retained set.
    pub fn enforce_retention(&mut self, now_ms: i64)
        requires
            old(self).wf(),
        ensures
            final(self).wf(),
            old(self).retained_at(now_ms, *final(self)),
    {
        let head = self.head_seq();
        if head == 0 {
            return;
        }
        let expiry_floor = self.next_expiry_floor(now_ms);
        let evict_floor = self.next_evict_floor(now_ms, expiry_floor);
        proof {
            lemma_floors_bounded(*self, now_ms);
        }
        self.floors = Floors { evict_floor, expiry_floor };

        // Drain what fell below the floors.
        let base = self.index.base_seq;
        let len = self.index.records.len();
        let earliest = self.floors.earliest_seq(self.seq_base, head);
        let drop_n: usize = if earliest <= base {
            0
        } else if earliest - base >= len as u64 {
            len
        } else {
            (earliest - base) as usize
        };
        assert(drop_n == old(self).dropped_at(now_ms));
        let freed = self.front_bytes(drop_n);
        self.index.drain_front(drop_n);
        self.bytes_retained = self.bytes_retained.saturating_sub(freed);
    }

    /// Current retained record count.
    pub fn count(&self) -> (r: u64)
        ensures
            r == self.live_count(),
    {
        let head = self.head_seq();
        let earliest = self.earliest_seq();
        if head == 0 || earliest > head {
            0
        } else {
            head - earliest + 1
        }
    }

    /// Current retained payload bytes.
    pub fn bytes(&self) -> (r: u64)
        ensures
            r == self.bytes_retained,
    {
        self.bytes_retained
    }
}

/// The size of some records is the size of a prefix and of the rest.
proof fn lemma_bytes_split(records: Seq<StoredRecord>, k: int)
    requires
        0 <= k <= records.len(),
    ensures
        bytes_sum(records) == bytes_sum(records.take(k)) + bytes_sum(records.skip(k)),
        bytes_sum(records.take(k)) >= 0,
        bytes_sum(records.skip(k)) >= 0,
    decreases records.len(),
{
    if records.len() == 0 {
        assert(records.take(k) =~= records);
        assert(records.skip(k) =~= records);
    } else if k == records.len() {
        lemma_bytes_split(records.drop_last(), k - 1);
        assert(records.drop_last().take(k - 1) =~= records.drop_last());
        assert(records.drop_last().skip(k - 1).len() == 0);
        assert(records.take(k) =~= records);
        assert(records.skip(k).len() == 0);
    } else {
        lemma_bytes_split(records.drop_last(), k);
        assert(records.drop_last().take(k) =~= records.take(k));
        assert(records.drop_last().skip(k) =~= records.skip(k).drop_last());
        assert(records.skip(k).last() == records.last());
    }
}

/// A longer prefix is at least as large.
proof fn lemma_bytes_monotone(records: Seq<StoredRecord>, i: int, j: int)
    requires
        0 <= i <= j <= records.len(),
    ensures
        bytes_sum(records.take(i)) <= bytes_sum(records.take(j)),
{
    lemma_bytes_split(records.take(j), i);
    assert(records.take(j).take(i) =~= records.take(i));
}

/// A covering run covers, unless it runs to the end.
proof fn lemma_cover(records: Seq<StoredRecord>, from: int, need: int)
    requires
        0 <= from <= records.len(),
    ensures
        ({
            let end = cover_end(records, from, need);
            &&& from <= end <= records.len()
            &&& end < records.len() ==> bytes_sum(records.take(end)) - bytes_sum(
                records.take(from),
            ) >= need
        }),
    decreases records.len() - from,
{
    if need > 0 && from < records.len() {
        lemma_cover(records, from + 1, need - records[from].bytes);
        assert(records.take(from + 1).drop_last() =~= records.take(from));
    }
}

/// A covering run is no longer than it has to be: short of its end the need is
/// not covered yet.
proof fn lemma_cover_is_shortest(records: Seq<StoredRecord>, from: int, need: int, p: int)
    requires
        0 <= from <= p < cover_end(records, from, need),
        p < records.len(),
    ensures
        bytes_sum(records.take(p)) - bytes_sum(records.take(from)) < need,
    decreases p - from,
{
    if from < p {
        lemma_cover_is_shortest(records, from + 1, need - records[from].bytes, p);
        assert(records.take(from + 1).drop_last() =~= records.take(from));
    }
}

/// The first record after the expired run has not expired.
proof fn lemma_expired_run(records: Seq<StoredRecord>, now_ms: i64, ttl_ms: u64)
    ensures
        ({
            let run = expired_run(records, now_ms, ttl_ms);
            &&& run <= records.len()
            &&& forall|i: int| 0 <= i < run ==> is_expired(now_ms, (#[trigger] records[i]).ts, ttl_ms)
            &&& run < records.len() ==> !is_expired(now_ms, records[run as int].ts, ttl_ms)
        }),
    decreases records.len(),
{
    if records.len() > 0 && is_expired(now_ms, records[0].ts, ttl_ms) {
        let rest = records.skip(1);
        lemma_expired_run(rest, now_ms, ttl_ms);
        let run = expired_run(records, now_ms, ttl_ms);
        assert forall|i: int| 0 <= i < run implies is_expired(
            now_ms,
            (#[trigger] records[i]).ts,
            ttl_ms,
        ) by {
            if i > 0 {
                assert(records[i] == rest[i - 1]);
            }
        }
        if run < records.len() {
            assert(records[run as int] == rest[run - 1]);
        }
    }
}

/// A read gives back what a write wrote: after an append, each assigned seq
/// holds its record, and every earlier seq holds what it held before.
pub proof fn law_append_reads_back(
    before: BoxState,
    records: Seq<StoredRecord>,
    now_ms: i64,
    after: BoxState,
)
    requires
        before.wf(),
        before.seq_base >= 1,
        before.head_seq + records.len() <= u64::MAX,
        before.appended(records, now_ms, after),
    ensures
        forall|i: int|
            0 <= i < records.len() ==> after.index.at((before.head_seq + 1 + i) as u64) == Some(
                #[trigger] records[i],
            ),
        forall|seq: u64|
            seq <= before.head_seq ==> #[trigger] after.index.at(seq) == before.index.at(seq),
{
}

/// Retention loses nothing silently: the records present afterwards are
/// exactly those from the first deliverable seq to the head, each unchanged,
/// and whatever is gone lies below the first deliverable seq.
pub proof fn law_retention_keeps_the_deliverable(before: BoxState, now_ms: i64, after: BoxState)
    requires
        before.wf(),
        before.seq_base >= 1,
        before.head_seq < u64::MAX,
        before.retained_at(now_ms, after),
    ensures
        after.head_seq == before.head_seq,
        forall|seq: u64|
            after.earliest() <= seq <= after.head_seq ==> {
                &&& (#[trigger] after.index.at(seq)) is Some
                &&& after.index.at(seq) == before.index.at(seq)
            },
        forall|seq: u64|
            seq < after.earliest() || seq > after.head_seq ==> (#[trigger] after.index.at(
                seq,
            )) is None,
{
    lemma_floors_bounded(before, now_ms);
}

/// The floors of `now_ms` stay within the head and do not sink.
proof fn lemma_floors_bounded(before: BoxState, now_ms: i64)
    requires
        before.wf(),
    ensures
        before.floors.expiry_floor <= before.expiry_floor_at(now_ms) <= before.head_seq,
        before.floors.evict_floor <= before.evict_floor_at(now_ms) <= before.head_seq,
        before.record_cap_floor() <= before.evict_floor_at(now_ms),
{
    let recs = before.index.records@;
    lemma_expired_run(recs, now_ms, before.config.ttl_ms);
    let first = before.first_kept_at(now_ms);
    lemma_cover(recs, first, bytes_sum(recs.skip(first)) - before.config.cap_bytes);
}

/// Retention keeps a box well-formed.
pub proof fn lemma_retained_is_well_formed(before: BoxState, now_ms: i64, after: BoxState)
    requires
        before.wf(),
        before.retained_at(now_ms, after),
    ensures
        after.wf(),
{
    lemma_floors_bounded(before, now_ms);
}

/// Floors never sink, so the first deliverable seq never moves back: a reader
/// told of a gap is never told of a smaller one.
pub proof fn law_floors_only_rise(before: BoxState, now_ms: i64, after: BoxState)
    requires
        before.wf(),
        before.retained_at(now_ms, after),
    ensures
        before.floors.evict_floor <= after.floors.evict_floor,
        before.floors.expiry_floor <= after.floors.expiry_floor,
        before.earliest() <= after.earliest(),
{
    lemma_floors_bounded(before, now_ms);
}

/// Under a record cap, at most that many records stay.
pub proof fn law_record_cap_holds(before: BoxState, now_ms: i64, after: BoxState)
    requires
        before.wf(),
        before.retained_at(now_ms, after),
        before.config.cap_records > 0,
    ensures
        after.live_count() <= before.config.cap_records,
{
    lemma_floors_bounded(before, now_ms);
}

/// Under a byte cap, at most that many bytes of records stay.
proof fn lemma_byte_cap(before: BoxState, now_ms: i64, after: BoxState)
    requires
        before.wf(),
        before.head_seq < u64::MAX,
        before.retained_at(now_ms, after),
        before.config.cap_bytes > 0,
    ensures
        bytes_sum(after.index.records@) <= before.config.cap_bytes,
{
    let recs = before.index.records@;
    if before.head_seq > 0 {
        let dropped = before.dropped_at(now_ms);
        let first = before.first_kept_at(now_ms);
        let cap = before.config.cap_bytes;
        let kept = bytes_sum(recs.skip(first));
        lemma_floors_bounded(before, now_ms);
        lemma_bytes_split(recs, dropped);
        lemma_bytes_split(recs, first);
        assert(dropped >= first);
        lemma_bytes_monotone(recs, first, dropped);
        if kept > cap {
            lemma_cover(recs, first, kept - cap);
            let end = cover_end(recs, first, kept - cap);
            assert(dropped >= end);
            lemma_bytes_monotone(recs, end, dropped);
            lemma_bytes_split(recs, end);
            if end == recs.len() {
                assert(recs.skip(dropped).len() == 0);
            }
        }
    } else {
        assert(recs.len() == 0);
    }
}

/// Byte accounting stays exact, and under a byte cap at most that many bytes
/// stay.
pub proof fn law_byte_cap_holds(before: BoxState, now_ms: i64, after: BoxState)
    requires
        before.wf(),
        before.bytes_exact(),
        before.head_seq < u64::MAX,
        before.retained_at(now_ms, after),
    ensures
        after.bytes_exact(),
        before.config.cap_bytes > 0 ==> after.bytes_retained <= before.config.cap_bytes,
{
    if before.head_seq > 0 {
        lemma_bytes_split(before.index.records@, before.dropped_at(now_ms));
    }
    if before.config.cap_bytes > 0 {
        lemma_byte_cap(before, now_ms, after);
    }
}

/// No record is evicted that both caps allow to stay: where retention takes out a
/// deliverable record that has not expired, it and the newer ones are more
/// records than the record cap allows, or more bytes than the byte cap does.
pub proof fn law_nothing_is_evicted_needlessly(
    before: BoxState,
    now_ms: i64,
    after: BoxState,
    seq: int,
)
    requires
        before.wf(),
        before.seq_base >= 1,
        before.head_seq < u64::MAX,
        before.retained_at(now_ms, after),
        before.earliest() <= seq <= before.head_seq,
        seq < after.earliest(),
        seq > after.floors.expiry_floor,
    ensures
        ({
            let newer = before.index.records@.skip(seq - before.index.base_seq);
            ||| before.config.cap_records > 0 && newer.len() > before.config.cap_records
            ||| before.config.cap_bytes > 0 && bytes_sum(newer) > before.config.cap_bytes
        }),
{
    let recs = before.index.records@;
    let p = seq - before.index.base_seq;
    lemma_floors_bounded(before, now_ms);
    if seq > before.record_cap_floor() {
        let first = before.first_kept_at(now_ms);
        let need = bytes_sum(recs.skip(first)) - before.config.cap_bytes;
        lemma_cover(recs, first, need);
        lemma_cover_is_shortest(recs, first, need, p);
        lemma_bytes_split(recs, first);
        lemma_bytes_split(recs, p);
    }
}

/// Appending keeps the byte accounting exact as long as the total fits.
pub proof fn law_append_accounts_bytes(
    before: BoxState,
    records: Seq<StoredRecord>,
    now_ms: i64,
    after: BoxState,
)
    requires
        before.wf(),
        before.bytes_exact(),
        before.bytes_retained + bytes_sum(records) <= u64::MAX,
        before.appended(records, now_ms, after),
    ensures
        after.bytes_exact(),
{
    if records.len() > 0 {
        let all = after.index.records@;
        let k = before.index.records@.len() as int;
        lemma_bytes_split(all, k);
        lemma_bytes_split(records, 0);
        lemma_bytes_split(before.index.records@, 0);
        assert(all.take(k) =~= before.index.records@);
        assert(all.skip(k) =~= records);
        assert(records.take(0).len() == 0);
        assert(records.skip(0) =~= records);
    }
}

/// Some records could follow those of a box in the order of their timestamps:
/// they are in order among themselves, and none is older than the box's last.
pub open spec fn may_follow(b: BoxState, records: Seq<StoredRecord>) -> bool {
    &&& forall|i: int, j: int| 0 <= i <= j < records.len() ==> records[i].ts <= records[j].ts
    &&& b.index.records@.len() > 0 && records.len() > 0 ==> b.index.records@.last().ts
        <= records[0].ts
}

/// Appending keeps the timestamps in order, as long as the records that are
/// appended could follow; those stamped with the box's own stamp could.
pub proof fn law_append_keeps_the_order(
    before: BoxState,
    records: Seq<StoredRecord>,
    now_ms: i64,
    after: BoxState,
)
    requires
        before.ts_ordered(),
        before.appended(records, now_ms, after),
    ensures
        (forall|i: int| 0 <= i < records.len() ==> (#[trigger] records[i]).ts == before.stamp_at(now_ms))
            ==> may_follow(before, records),
        may_follow(before, records) ==> after.ts_ordered(),
{
    if may_follow(before, records) && records.len() > 0 {
        let n = before.index.records@.len();
        let all = after.index.records@;
        assert forall|i: int, j: int| 0 <= i <= j < all.len() implies all[i].ts <= all[j].ts by {
            if j < n {
                assert(before.index.records@[i].ts <= before.index.records@[j].ts);
            } else if i >= n {
                assert(records[i - n].ts <= records[j - n].ts);
            } else {
                assert(before.index.records@[i].ts <= before.index.records@[n - 1].ts);
                assert(records[0].ts <= records[j - n].ts);
            }
        }
    }
}

/// With timestamps in order, no expired record stays.
pub proof fn law_nothing_expired_stays(before: BoxState, now_ms: i64, after: BoxState)
    requires
        before.wf(),
        before.ts_ordered(),
        before.head_seq < u64::MAX,
        before.retained_at(now_ms, after),
    ensures
        after.ts_ordered(),
        forall|i: int|
            0 <= i < after.index.records@.len() ==> !is_expired(
                now_ms,
                (#[trigger] after.index.records@[i]).ts,
                after.config.ttl_ms,
            ),
{
    let recs = before.index.records@;
    lemma_expired_run(recs, now_ms, before.config.ttl_ms);
    lemma_floors_bounded(before, now_ms);
    if before.head_seq > 0 {
        let dropped = before.dropped_at(now_ms);
        let run = expired_run(recs, now_ms, before.config.ttl_ms);
        assert(dropped >= run);
        assert forall|i: int, j: int|
            0 <= i <= j < after.index.records@.len() implies after.index.records@[i].ts
            <= after.index.records@[j].ts by {
            assert(after.index.records@[i] == recs[dropped + i]);
            assert(after.index.records@[j] == recs[dropped + j]);
        }
        assert forall|i: int| 0 <= i < after.index.records@.len() implies !is_expired(
            now_ms,
            (#[trigger] after.index.records@[i]).ts,
            after.config.ttl_ms,
        ) by {
            assert(after.index.records@[i] == recs[dropped + i]);
            assert(recs[run as int].ts <= recs[dropped + i].ts);
        }
    }
}

/// Retention is idempotent: enforcing it again at the same instant changes
/// nothing.
pub proof fn law_retention_is_idempotent(
    before: BoxState,
    now_ms: i64,
    once: BoxState,
    twice: BoxState,
)
    requires
        before.wf(),
        before.ts_ordered(),
        before.head_seq < u64::MAX,
        before.retained_at(now_ms, once),
        once.retained_at(now_ms, twice),
    ensures
        twice.floors == once.floors,
        twice.index.base_seq == once.index.base_seq,
        twice.index.records@ == once.index.records@,
        twice.bytes_retained == once.bytes_retained,
        twice == (BoxState { index: twice.index, ..once }),
{
    if before.head_seq > 0 {
        law_nothing_expired_stays(before, now_ms, once);
        if before.config.cap_bytes > 0 {
            lemma_byte_cap(before, now_ms, once);
        }
        lemma_floors_bounded(before, now_ms);
        lemma_expired_run(once.index.records@, now_ms, once.config.ttl_ms);
        let run = expired_run(once.index.records@, now_ms, once.config.ttl_ms);
        assert(run == 0) by {
            if run > 0 {
                assert(is_expired(now_ms, once.index.records@[0].ts, once.config.ttl_ms));
            }
        }
        assert(once.first_kept_at(now_ms) == 0);
        assert(once.index.records@.skip(0) =~= once.index.records@);
        assert(once.floors_at(now_ms) == once.floors);
        assert(once.dropped_at(now_ms) == 0);
        assert(once.index.records@.take(0).len() == 0);
    }
}

/// Without a TTL and without caps nothing is ever lost: a box that lost
/// nothing keeps every record.
pub proof fn law_unbounded_box_loses_nothing(before: BoxState, now_ms: i64, after: BoxState)
    requires
        before.wf(),
        before.config.ttl_ms == 0,
        before.config.cap_records == 0,
        before.config.cap_bytes == 0,
        before.floors.lost_upto() == 0,
        before.retained_at(now_ms, after),
    ensures
        after.floors == before.floors,
        before.seq_base >= 1 ==> after.index.records@ == before.index.records@,
        before.seq_base >= 1 ==> after.earliest() == before.seq_base,
{
    let recs = before.index.records@;
    lemma_expired_run(recs, now_ms, 0);
    if before.head_seq > 0 {
        assert(before.floors_at(now_ms) == before.floors);
        assert(recs.skip(0) =~= recs);
    }
}

/// Sizes add up, record by record.
pub proof fn law_sizes_add_up(records: Seq<StoredRecord>, more: StoredRecord)
    ensures
        bytes_sum(records.push(more)) == bytes_sum(records) + more.bytes,
        bytes_sum(records.take(0)) == 0,
{
    assert(records.push(more).drop_last() =~= records);
}

/// The record under a seq is the one as far from the first as the seq is from the
/// first seq; a seq outside the records has none.
pub proof fn law_seqs_are_positions(index: BoxIndex, seq: u64)
    ensures
        index.at(seq) is Some <==> seq >= index.base_seq && seq - index.base_seq
            < index.records@.len(),
        index.at(seq) matches Some(rec) ==> rec == index.records@[seq - index.base_seq],
{
}

/// Nothing goes before its time, and nothing stays past it. A record that
/// retention counts as expired is older than the box's time to live; one that it
/// counts as evicted is, with the newer ones, more than a cap allows. What is beyond
/// the record cap is evicted, and what is too old, with all that is older, expires.
/// And what is not counted as either stays, as it was.
pub proof fn law_nothing_goes_before_its_time(
    before: BoxState,
    now_ms: i64,
    after: BoxState,
    seq: u64,
)
    requires
        before.wf(),
        before.head_seq < u64::MAX,
        before.retained_at(now_ms, after),
        before.index.base_seq <= seq < before.index.base_seq + before.index.records@.len(),
    ensures
        ({
            let p = seq - before.index.base_seq;
            let rec = before.index.records@[p];
            let ttl = before.config.ttl_ms;
            let newer = before.index.records@.skip(p);
            &&& before.floors.expiry_floor < seq <= after.floors.expiry_floor ==> ttl > 0 && now_ms
                - rec.ts > ttl
            &&& before.floors.evict_floor < seq <= after.floors.evict_floor ==> {
                ||| before.config.cap_records > 0 && before.head_seq - seq
                    >= before.config.cap_records
                ||| before.config.cap_bytes > 0 && bytes_sum(newer) > before.config.cap_bytes
            }
            &&& before.head_seq > 0 && before.config.cap_records > 0 && before.head_seq - seq
                >= before.config.cap_records ==> seq <= after.floors.evict_floor
            &&& before.head_seq > 0 && ttl > 0 && (forall|i: int|
                0 <= i <= p ==> now_ms - (#[trigger] before.index.records@[i]).ts > ttl) ==> seq
                <= after.floors.expiry_floor
            &&& before.seq_base >= 1 && seq > after.floors.expiry_floor && seq
                > after.floors.evict_floor ==> {
                &&& after.index.base_seq <= seq
                &&& seq - after.index.base_seq < after.index.records@.len()
                &&& after.index.records@[seq - after.index.base_seq] == rec
            }
        }),
{
    let recs = before.index.records@;
    let p = seq - before.index.base_seq;
    let ttl = before.config.ttl_ms;
    lemma_floors_bounded(before, now_ms);
    lemma_expired_run(recs, now_ms, ttl);
    if ttl > 0 && (forall|i: int| 0 <= i <= p ==> now_ms - (#[trigger] recs[i]).ts > ttl) {
        assert(expired_run(recs, now_ms, ttl) > p) by {
            let run = expired_run(recs, now_ms, ttl) as int;
            if run <= p {
                assert(now_ms - recs[run].ts > ttl);
            }
        }
    }
    if before.head_seq > 0 {
        let first = before.first_kept_at(now_ms);
        let kept = bytes_sum(recs.skip(first));
        let need = kept - before.config.cap_bytes;
        lemma_cover(recs, first, need);
        lemma_bytes_split(recs, first);
        lemma_bytes_split(recs, p);
        if p < first {
            lemma_bytes_monotone(recs, p, first);
        } else if p < cover_end(recs, first, need) {
            lemma_cover_is_shortest(recs, first, need, p);
        }
    }
}

/// What retention leaves is within the box's limits: no more records than the
/// record cap, no more bytes than the byte cap, and, with timestamps in order,
/// none older than the time to live. The records left are those from the first
/// deliverable seq to the head, and they are what is counted.
pub proof fn law_what_stays_is_within_limits(before: BoxState, now_ms: i64, after: BoxState, i: int)
    requires
        before.wf(),
        before.seq_base >= 1,
        before.head_seq < u64::MAX,
        before.ts_ordered(),
        before.retained_at(now_ms, after),
        0 <= i < after.index.records@.len(),
    ensures
        before.config.cap_records > 0 ==> after.index.records@.len() <= before.config.cap_records,
        before.config.cap_bytes > 0 ==> bytes_sum(after.index.records@) <= before.config.cap_bytes,
        before.config.ttl_ms > 0 ==> now_ms - after.index.records@[i].ts <= before.config.ttl_ms,
        after.index.base_seq + i > after.floors.evict_floor,
        after.index.base_seq + i > after.floors.expiry_floor,
        after.index.base_seq == after.earliest(),
        after.index.base_seq + after.index.records@.len() == after.head_seq + 1,
        after.live_count() == after.index.records@.len(),
{
    lemma_floors_bounded(before, now_ms);
    law_nothing_expired_stays(before, now_ms, after);
    if before.config.cap_bytes > 0 {
        lemma_byte_cap(before, now_ms, after);
    }
}

/// Retention touches nothing but the floors, the index and the byte count, and
/// moves no floor without a limit that asks for it.
pub proof fn law_retention_touches_nothing_else(before: BoxState, now_ms: i64, after: BoxState)
    requires
        before.wf(),
        before.retained_at(now_ms, after),
    ensures
        after.name == before.name,
        after.config == before.config,
        after.dedupe == before.dedupe,
        after.head_seq == before.head_seq,
        after.seq_base == before.seq_base,
        after.epoch == before.epoch,
        after.last_write_ms == before.last_write_ms,
        after.last_read_ms == before.last_read_ms,
        after.last_consumed_ms == before.last_consumed_ms,
        before.config.ttl_ms == 0 ==> after.floors.expiry_floor == before.floors.expiry_floor,
        before.config.cap_records == 0 && before.config.cap_bytes == 0 ==> after.floors.evict_floor
            == before.floors.evict_floor,
{
    lemma_expired_run(before.index.records@, now_ms, before.config.ttl_ms);
}

/// An append adds its records behind those that are there, in their order, takes
/// the seqs right above the head, and touches nothing but the head, the byte count
/// and the time of the last write. An append of nothing changes nothing.
pub proof fn law_an_append_adds_at_the_end(
    before: BoxState,
    records: Seq<StoredRecord>,
    now_ms: i64,
    after: BoxState,
    i: int,
)
    requires
        before.wf(),
        before.head_seq + records.len() <= u64::MAX,
        before.appended(records, now_ms, after),
    ensures
        after.name == before.name,
        after.config == before.config,
        after.dedupe == before.dedupe,
        after.floors == before.floors,
        after.seq_base == before.seq_base,
        after.epoch == before.epoch,
        after.last_read_ms == before.last_read_ms,
        after.last_consumed_ms == before.last_consumed_ms,
        after.index.base_seq == before.index.base_seq,
        after.head_seq == before.head_seq + records.len(),
        after.last_write_ms == if records.len() > 0 {
            now_ms
        } else {
            before.last_write_ms
        },
        records.len() == 0 ==> after.bytes_retained == before.bytes_retained,
        before.bytes_retained + bytes_sum(records) <= u64::MAX ==> after.bytes_retained
            == before.bytes_retained + bytes_sum(records),
        after.index.records@.len() == before.index.records@.len() + records.len(),
        0 <= i < before.index.records@.len() ==> after.index.records@[i]
            == before.index.records@[i],
        0 <= i < records.len() ==> after.index.records@[before.index.records@.len() + i]
            == records[i],
{
    lemma_bytes_split(records, 0);
    lemma_bytes_split(records, records.len() as int);
    assert(records.take(records.len() as int) =~= records);
}

/// A stamp is the time it is made at, or the last record's where that is later.
pub proof fn law_stamps_keep_up(b: BoxState, now_ms: i64)
    ensures
        b.stamp_at(now_ms) >= now_ms,
        b.index.records@.len() > 0 ==> b.stamp_at(now_ms) >= b.index.records@.last().ts,
        b.stamp_at(now_ms) == now_ms || (b.index.records@.len() > 0 && b.stamp_at(now_ms)
            == b.index.records@.last().ts),
{
}

/// What is counted is what can still be read: the seqs that the box assigned and that
/// lie above both floors, up to the head.
pub proof fn law_what_can_be_read_is_counted(b: BoxState, seq: u64)
    requires
        b.wf(),
        b.seq_base >= 1,
        b.head_seq < u64::MAX,
        b.seq_base <= seq <= b.head_seq,
    ensures
        0 <= b.live_count() <= b.head_seq + 1 - b.seq_base,
        b.head_seq - seq < b.live_count() <==> seq > b.floors.evict_floor && seq
            > b.floors.expiry_floor,
{
}

}
