//! Shared record frames for broadcast fan-out.
//!
//! When many watchers tail one box, each record's frame is serialized once and
//! the text is shared by all of them. The frames of the most recent seqs are
//! kept in a bounded ring; a watcher that lags behind it serializes again,
//! which is slower but gives the same text.

use crate::http::watch::{frame_members, record_frame};
use crate::json::{raw_of, raw_text, raw_text_of, Json};
use crate::types::RecordOut;
use serde_json::value::RawValue;
use std::collections::{HashMap, VecDeque};
use std::sync::Arc;
use vstd::prelude::*;
use vstd::std_specs::hash::*;

verus! {

/// How many seqs the ring keeps.
pub const RING_CAP: usize = 1024;

/// How many ways there are to project a record.
pub const N_VARIANTS: usize = 8;

/// What a watcher wants of a record. Each combination has frames of its own.
#[derive(Debug, Clone, Copy)]
pub struct FrameVariant {
    pub include_data: bool,
    pub bits: u8,
}

/// One bit for a flag.
pub open spec fn bit(b: bool) -> int {
    if b {
        1
    } else {
        0
    }
}

impl FrameVariant {
    /// The flags are packed as `new` packs them.
    pub open spec fn wf(self) -> bool {
        self.bits < N_VARIANTS && (self.bits % 2 == 1) == self.include_data
    }

    /// Packs the three flags into a number below [`N_VARIANTS`].
    pub fn new(include_data: bool, include_tags: bool, include_meta: bool) -> (r: Self)
        ensures
            r.wf(),
            r.is_for(include_data, include_tags, include_meta),
    {
        let data: u8 = if include_data {
            1
        } else {
            0
        };
        let tags: u8 = if include_tags {
            2
        } else {
            0
        };
        let meta: u8 = if include_meta {
            4
        } else {
            0
        };
        FrameVariant { include_data, bits: data + tags + meta }
    }

    /// Packed from the three flags.
    pub open spec fn is_for(self, include_data: bool, include_tags: bool, include_meta: bool) -> bool {
        &&& self.include_data == include_data
        &&& self.bits == bit(include_data) + 2 * bit(include_tags) + 4 * bit(include_meta)
    }

    /// The slot of this variant.
    pub fn idx(self) -> (r: usize)
        ensures
            r == self.bits,
    {
        self.bits as usize
    }
}

/// The ring: the seqs in ascending order, and for each seq the frames
/// serialized so far, one slot for each variant.
pub struct CacheState {
    pub order: VecDeque<u64>,
    pub frames: HashMap<u64, Vec<Option<Arc<RawValue>>>>,
}

/// How many seqs of an ascending sequence lie below `seq`.
pub open spec fn rank(order: Seq<u64>, seq: u64) -> nat
    decreases order.len(),
{
    if order.len() > 0 && order[0] < seq {
        1 + rank(order.skip(1), seq)
    } else {
        0
    }
}

/// An ascending sequence with `seq` in its place.
pub open spec fn with_seq(order: Seq<u64>, seq: u64) -> Seq<u64> {
    order.insert(rank(order, seq) as int, seq)
}

/// The last [`RING_CAP`] entries.
pub open spec fn bounded(order: Seq<u64>) -> Seq<u64> {
    if order.len() > RING_CAP {
        order.skip(order.len() - RING_CAP)
    } else {
        order
    }
}

impl CacheState {
    /// The seqs ascend, there are at most [`RING_CAP`] of them, and they are
    /// the seqs that have frames.
    pub open spec fn wf(self) -> bool {
        &&& self.order@.len() <= RING_CAP
        &&& forall|i: int, j: int| 0 <= i < j < self.order@.len() ==> self.order@[i] < self.order@[j]
        &&& forall|seq: u64| self.order@.contains(seq) <==> #[trigger] self.frames@.contains_key(seq)
        &&& forall|seq: u64| #[trigger]
            self.frames@.contains_key(seq) ==> self.frames@[seq]@.len() == N_VARIANTS
    }

    /// The frame kept for a seq in a slot.
    pub open spec fn lookup(self, seq: u64, slot: int) -> Option<Arc<RawValue>> {
        if self.frames@.contains_key(seq) {
            self.frames@[seq]@[slot]
        } else {
            None
        }
    }

    /// The seqs after a frame for `seq` was published: as before where the seq
    /// is there already, else with it in its place, and the lowest dropped
    /// where there are too many.
    pub open spec fn order_after(self, seq: u64) -> Seq<u64> {
        if self.order@.contains(seq) {
            self.order@
        } else {
            bounded(with_seq(self.order@, seq))
        }
    }

    /// What is kept for a seq in a slot after a frame was published for
    /// another: the first frame published stays, and nothing is kept of seqs
    /// that were dropped.
    pub open spec fn lookup_after(
        self,
        seq: u64,
        slot: int,
        frame: Arc<RawValue>,
        other: u64,
        other_slot: int,
    ) -> Option<Arc<RawValue>> {
        if !self.order_after(seq).contains(other) {
            None
        } else if other == seq && other_slot == slot && self.lookup(seq, slot) is None {
            Some(frame)
        } else {
            self.lookup(other, other_slot)
        }
    }
}

/// The rank splits an ascending sequence into the seqs below and the others.
proof fn lemma_rank(order: Seq<u64>, seq: u64)
    ensures
        rank(order, seq) <= order.len(),
        forall|i: int| 0 <= i < rank(order, seq) ==> order[i] < seq,
        rank(order, seq) < order.len() ==> order[rank(order, seq) as int] >= seq,
    decreases order.len(),
{
    if order.len() > 0 && order[0] < seq {
        let rest = order.skip(1);
        lemma_rank(rest, seq);
        assert forall|i: int| 0 <= i < rank(order, seq) implies order[i] < seq by {
            if i > 0 {
                assert(rest[i - 1] == order[i]);
            }
        }
    }
}

/// Ascending, without repetition.
pub open spec fn ascending(order: Seq<u64>) -> bool {
    forall|i: int, j: int| 0 <= i < j < order.len() ==> order[i] < order[j]
}

/// The place of `seq` in an ascending queue, by binary search.
fn find_rank(order: &VecDeque<u64>, seq: u64) -> (r: usize)
    requires
        ascending(order@),
    ensures
        r == rank(order@, seq),
        r <= order@.len(),
{
    let mut lo: usize = 0;
    let mut hi: usize = order.len();
    while lo < hi
        invariant
            lo <= hi <= order@.len(),
            ascending(order@),
            forall|i: int| 0 <= i < lo ==> order@[i] < seq,
            forall|i: int| hi <= i < order@.len() ==> order@[i] >= seq,
        decreases hi - lo,
    {
        let mid = lo + (hi - lo) / 2;
        if order[mid] < seq {
            lo = mid + 1;
        } else {
            hi = mid;
        }
    }
    proof {
        let k = rank(order@, seq) as int;
        lemma_rank(order@, seq);
        assert(k < lo ==> order@[k] >= seq);
        assert(lo < k ==> order@[lo as int] < seq);
    }
    lo
}

/// A new seq keeps an ascending sequence ascending.
proof fn lemma_with_seq(order: Seq<u64>, seq: u64)
    requires
        ascending(order),
        !order.contains(seq),
    ensures
        ascending(with_seq(order, seq)),
        forall|s: u64| #[trigger] with_seq(order, seq).contains(s) <==> s == seq || order.contains(s),
{
    let k = rank(order, seq) as int;
    lemma_rank(order, seq);
    let after = with_seq(order, seq);
    assert forall|i: int| 0 <= i < after.len() implies #[trigger] after[i] == if i < k {
        order[i]
    } else if i == k {
        seq
    } else {
        order[i - 1]
    } by {}
    assert forall|s: u64| s == seq || order.contains(s) implies after.contains(s) by {
        if s == seq {
            assert(after[k] == seq);
        } else {
            let i = order.index_of(s);
            assert(order[i] == s);
            assert(after[if i < k {
                i
            } else {
                i + 1
            }] == s);
        }
    }
    assert forall|i: int, j: int| 0 <= i < j < after.len() implies after[i] < after[j] by {
        assert(k < order.len() ==> order[k] != seq);
        if i == k {
            assert(after[j] == order[j - 1]);
        } else if j == k {
            assert(after[i] == order[i]);
        }
    }
}

impl CacheState {
    /// Publishes a frame for a seq in a slot; an earlier frame stays.
    fn publish(&mut self, seq: u64, slot: usize, frame: Arc<RawValue>)
        requires
            old(self).wf(),
            slot < N_VARIANTS,
        ensures
            final(self).wf(),
            published(*old(self), *final(self), seq, slot as int, frame),
    {
        broadcast use group_hash_axioms;

        match self.frames.remove(&seq) {
            Some(variants) => {
                let mut variants = variants;
                if variants[slot].is_none() {
                    variants[slot] = Some(frame);
                }
                self.frames.insert(seq, variants);
                proof {
                    assert(old(self).order@.contains(seq));
                    assert forall|s: u64, k: int| 0 <= k < N_VARIANTS implies #[trigger] self.lookup(
                        s,
                        k,
                    ) == old(self).lookup_after(seq, slot as int, frame, s, k) by {
                        assert(old(self).order@.contains(s) <==> old(self).frames@.contains_key(s));
                        assert(self.frames@.contains_key(s) <==> old(self).frames@.contains_key(s));
                    }
                    assert(self.wf());
                }
            },
            None => {
                assert(!old(self).order@.contains(seq));
                let mut variants: Vec<Option<Arc<RawValue>>> = Vec::new();
                let mut i: usize = 0;
                while i < N_VARIANTS
                    invariant
                        i <= N_VARIANTS,
                        slot < N_VARIANTS,
                        variants@.len() == i,
                        forall|k: int|
                            0 <= k < i ==> #[trigger] variants@[k] == if k == slot {
                                Some(frame)
                            } else {
                                None
                            },
                    decreases N_VARIANTS - i,
                {
                    if i == slot {
                        variants.push(Some(frame.clone()));
                    } else {
                        variants.push(None);
                    }
                    i += 1;
                }
                let pos = find_rank(&self.order, seq);
                proof {
                    lemma_with_seq(self.order@, seq);
                }
                self.order.insert(pos, seq);
                self.frames.insert(seq, variants);
                let ghost full = self.order@;
                if self.order.len() > RING_CAP {
                    if let Some(lowest) = self.order.pop_front() {
                        self.frames.remove(&lowest);
                    }
                    assert(self.order@ =~= full.skip(1));
                    assert forall|s: u64| self.order@.contains(s) <==> full.contains(s) && s
                        != full[0] by {
                        if full.contains(s) && s != full[0] {
                            let i = full.index_of(s);
                            assert(full[i] == s);
                            assert(self.order@[i - 1] == s);
                        }
                        if self.order@.contains(s) {
                            let i = self.order@.index_of(s);
                            assert(full[i + 1] == s);
                        }
                    }
                }
                proof {
                    assert(self.order@ =~= old(self).order_after(seq));
                    assert forall|s: u64| self.order@.contains(s)
                        <==> #[trigger] self.frames@.contains_key(s) by {
                        assert(old(self).order@.contains(s) <==> old(self).frames@.contains_key(s));
                        assert(full.contains(s) <==> s == seq || old(self).order@.contains(s));
                    }
                    assert(self.wf());
                    assert forall|s: u64, k: int| 0 <= k < N_VARIANTS implies #[trigger] self.lookup(
                        s,
                        k,
                    ) == old(self).lookup_after(seq, slot as int, frame, s, k) by {
                        assert(old(self).order@.contains(s) <==> old(self).frames@.contains_key(s));
                        assert(full.contains(s) <==> s == seq || old(self).order@.contains(s));
                    }
                }
            },
        }
    }
}

/// What publishing a frame for a seq in a slot makes of the ring.
pub open spec fn published(
    before: CacheState,
    after: CacheState,
    seq: u64,
    slot: int,
    frame: Arc<RawValue>,
) -> bool {
    &&& after.order@ == before.order_after(seq)
    &&& forall|s: u64, k: int|
        0 <= k < N_VARIANTS ==> #[trigger] after.lookup(s, k) == before.lookup_after(
            seq,
            slot,
            frame,
            s,
            k,
        )
}

/// What asking for the frame of a record gives, and what it leaves in the ring:
/// the frame kept, and nothing changes, or else the record's own, which is then
/// kept.
pub open spec fn framed(
    before: CacheState,
    after: CacheState,
    seq: u64,
    rec: RecordOut,
    variant: FrameVariant,
    frame: Arc<RawValue>,
) -> bool {
    match before.lookup(seq, variant.bits as int) {
        Some(kept) => frame == kept && after == before,
        None => {
            &&& raw_text(&*frame) == frame_text(rec, variant.include_data)
            &&& published(before, after, seq, variant.bits as int, frame)
        },
    }
}

/// The ring of shared frames of one box.
pub struct BroadcastCache {
    pub state: CacheState,
}

impl BroadcastCache {
    /// A ring without frames.
    pub fn new() -> (r: Self)
        ensures
            r.state.wf(),
            r.state.order@.len() == 0,
            forall|seq: u64, slot: int| #[trigger] r.state.lookup(seq, slot) is None,
    {
        broadcast use group_hash_axioms;

        BroadcastCache { state: CacheState { order: VecDeque::new(), frames: HashMap::new() } }
    }

    /// The frame of a record for a variant: the one kept, or else the record's
    /// own, which is then kept.
    pub fn frame(&mut self, seq: u64, rec: &RecordOut, variant: FrameVariant) -> (r: Arc<RawValue>)
        requires
            old(self).state.wf(),
            variant.wf(),
        ensures
            final(self).state.wf(),
            framed(old(self).state, final(self).state, seq, *rec, variant, r),
    {
        if let Some(kept) = self.get(seq, variant) {
            return kept;
        }
        let fresh = serialize_frame(rec, variant.include_data);
        self.insert_serialized(seq, variant, fresh)
    }

    /// The frame kept for a seq and a variant.
    pub fn get(&self, seq: u64, variant: FrameVariant) -> (r: Option<Arc<RawValue>>)
        requires
            self.state.wf(),
            variant.wf(),
        ensures
            r == self.state.lookup(seq, variant.bits as int),
    {
        broadcast use group_hash_axioms;

        let slot = variant.idx();
        match self.state.frames.get(&seq) {
            Some(variants) => match &variants[slot] {
                Some(frame) => Some(frame.clone()),
                None => None,
            },
            None => None,
        }
    }

    /// The frames kept for several seqs, each at the place of its seq.
    pub fn get_many(&self, seqs: &[u64], variant: FrameVariant) -> (r: Vec<Option<Arc<RawValue>>>)
        requires
            self.state.wf(),
            variant.wf(),
        ensures
            r@.len() == seqs@.len(),
            forall|i: int|
                0 <= i < seqs@.len() ==> #[trigger] r@[i] == self.state.lookup(
                    seqs@[i],
                    variant.bits as int,
                ),
    {
        let mut out: Vec<Option<Arc<RawValue>>> = Vec::new();
        let mut i: usize = 0;
        while i < seqs.len()
            invariant
                i <= seqs@.len(),
                self.state.wf(),
                variant.wf(),
                out@.len() == i,
                forall|j: int|
                    0 <= j < i ==> #[trigger] out@[j] == self.state.lookup(
                        seqs@[j],
                        variant.bits as int,
                    ),
            decreases seqs@.len() - i,
        {
            out.push(self.get(seqs[i], variant));
            i += 1;
        }
        out
    }

    /// Keeps a frame that was serialized for a seq and a variant, unless one is
    /// kept already; gives back the one that is kept.
    pub fn insert_serialized(&mut self, seq: u64, variant: FrameVariant, frame: Arc<RawValue>) -> (r:
        Arc<RawValue>)
        requires
            old(self).state.wf(),
            variant.wf(),
        ensures
            final(self).state.wf(),
            r == match old(self).state.lookup(seq, variant.bits as int) {
                Some(kept) => kept,
                None => frame,
            },
            published(old(self).state, final(self).state, seq, variant.bits as int, frame),
    {
        let slot = variant.idx();
        let kept = self.get(seq, variant);
        self.state.publish(seq, slot, frame.clone());
        match kept {
            Some(first) => first,
            None => frame,
        }
    }
}

impl Default for BroadcastCache {
    fn default() -> (r: Self)
        ensures
            r.state.wf(),
            r.state.order@.len() == 0,
            forall|seq: u64, slot: int| #[trigger] r.state.lookup(seq, slot) is None,
    {
        BroadcastCache::new()
    }
}

/// The text of a record's frame.
pub open spec fn frame_text(rec: RecordOut, include_data: bool) -> Seq<char> {
    raw_text_of(Json::Object(frame_members(rec, include_data)))
}

/// Serializes a record's frame once.
pub fn serialize_frame(rec: &RecordOut, include_data: bool) -> (r: Arc<RawValue>)
    ensures
        raw_text(&*r) == frame_text(*rec, include_data),
{
    let val = record_frame(rec, include_data);
    raw_of(&val)
}

/// Each projection has a slot of its own: two variants have the same slot exactly
/// when they were made of the same flags, and every slot is below
/// [`N_VARIANTS`].
pub proof fn law_each_projection_has_its_slot(
    a: FrameVariant,
    data_a: bool,
    tags_a: bool,
    meta_a: bool,
    b: FrameVariant,
    data_b: bool,
    tags_b: bool,
    meta_b: bool,
)
    requires
        a.is_for(data_a, tags_a, meta_a),
        b.is_for(data_b, tags_b, meta_b),
    ensures
        a.bits < N_VARIANTS,
        a.bits == b.bits <==> data_a == data_b && tags_a == tags_b && meta_a == meta_b,
{
}

/// A frame is serialized once and shared: as long as its seq stays in the ring,
/// whatever else is published meanwhile, asking for the frame again gives the
/// same one, for whatever record is asked; and asking for another projection
/// that has none yet gives that projection's own text.
pub proof fn law_a_frame_is_shared(
    first: CacheState,
    states: Seq<CacheState>,
    published_at: Seq<(u64, int, Arc<RawValue>)>,
    last: CacheState,
    seq: u64,
    rec: RecordOut,
    variant: FrameVariant,
    frame: Arc<RawValue>,
    again: RecordOut,
    other: FrameVariant,
    got: Arc<RawValue>,
)
    requires
        first.wf(),
        variant.wf(),
        other.wf(),
        framed(first, states[0], seq, rec, variant, frame),
        states.len() == published_at.len() + 1,
        forall|k: int|
            0 <= k < published_at.len() ==> #[trigger] published(
                states[k],
                states[k + 1],
                published_at[k].0,
                published_at[k].1,
                published_at[k].2,
            ),
        forall|k: int| 0 <= k < states.len() ==> (#[trigger] states[k]).order@.contains(seq),
        framed(states.last(), last, seq, again, other, got),
    ensures
        other.bits == variant.bits ==> got == frame && last == states.last(),
        states.last().lookup(seq, other.bits as int) is None ==> raw_text(&*got) == frame_text(
            again,
            other.include_data,
        ),
{
    let slot = variant.bits as int;
    assert(states[0].order@.contains(seq));
    assert(states[0].lookup(seq, slot) == Some(frame)) by {
        if first.lookup(seq, slot) is None {
            assert(states[0].order@ == first.order_after(seq));
        }
    }
    lemma_frame_stays(states, published_at, seq, slot, frame);
}

/// A frame stays through what is published, as long as its seq does.
proof fn lemma_frame_stays(
    states: Seq<CacheState>,
    published_at: Seq<(u64, int, Arc<RawValue>)>,
    seq: u64,
    slot: int,
    frame: Arc<RawValue>,
)
    requires
        0 <= slot < N_VARIANTS,
        states.len() == published_at.len() + 1,
        forall|k: int|
            0 <= k < published_at.len() ==> #[trigger] published(
                states[k],
                states[k + 1],
                published_at[k].0,
                published_at[k].1,
                published_at[k].2,
            ),
        forall|k: int| 0 <= k < states.len() ==> (#[trigger] states[k]).order@.contains(seq),
        states[0].lookup(seq, slot) == Some(frame),
    ensures
        states.last().lookup(seq, slot) == Some(frame),
    decreases published_at.len(),
{
    if published_at.len() > 0 {
        let n = published_at.len() - 1;
        assert forall|k: int| 0 <= k < n implies #[trigger] published(
            states.drop_last()[k],
            states.drop_last()[k + 1],
            published_at.drop_last()[k].0,
            published_at.drop_last()[k].1,
            published_at.drop_last()[k].2,
        ) by {
            assert(published(
                states[k],
                states[k + 1],
                published_at[k].0,
                published_at[k].1,
                published_at[k].2,
            ));
        }
        lemma_frame_stays(states.drop_last(), published_at.drop_last(), seq, slot, frame);
        assert(published(
            states[n],
            states[n + 1],
            published_at[n].0,
            published_at[n].1,
            published_at[n].2,
        ));
        assert(states[n + 1].order@.contains(seq));
    }
}

/// A frame, once kept, is what every watcher of the same projection gets as
/// long as its seq stays in the ring: publishing another frame changes nothing
/// for it.
pub proof fn law_first_frame_wins(
    state: CacheState,
    seq: u64,
    slot: int,
    frame: Arc<RawValue>,
    other: Arc<RawValue>,
)
    requires
        state.wf(),
        0 <= slot < N_VARIANTS,
        state.lookup(seq, slot) == Some(frame),
    ensures
        state.order_after(seq) == state.order@,
        state.lookup_after(seq, slot, other, seq, slot) == Some(frame),
{
    assert(state.frames@.contains_key(seq));
}

/// The projections are kept apart: a frame published for one does not show up
/// in another, nor under another seq.
pub proof fn law_variants_are_independent(
    state: CacheState,
    seq: u64,
    slot: int,
    frame: Arc<RawValue>,
    other: u64,
    other_slot: int,
)
    requires
        state.wf(),
        other != seq || other_slot != slot,
    ensures
        state.lookup_after(seq, slot, frame, other, other_slot) is Some ==> state.lookup_after(
            seq,
            slot,
            frame,
            other,
            other_slot,
        ) == state.lookup(other, other_slot),
{
}

/// Publishing adds its seq to the ring. A ring that is full gives up its lowest
/// seq for it, which is the new one itself where that lies below all others. So
/// the ring stays bounded and in ascending order, and the frames of all other
/// seqs that stay are as they were.
pub proof fn law_ring_drops_the_lowest(
    before: CacheState,
    after: CacheState,
    seq: u64,
    slot: int,
    frame: Arc<RawValue>,
)
    requires
        before.wf(),
        published(before, after, seq, slot, frame),
    ensures
        after.order@.len() <= RING_CAP,
        ascending(after.order@),
        before.order@.contains(seq) ==> after.order@ == before.order@,
        !before.order@.contains(seq) && before.order@.len() < RING_CAP ==> forall|s: u64| #[trigger]
            after.order@.contains(s) <==> s == seq || before.order@.contains(s),
        !before.order@.contains(seq) && before.order@.len() == RING_CAP ==> ({
            let lowest = if seq < before.order@[0] {
                seq
            } else {
                before.order@[0]
            };
            forall|s: u64| #[trigger]
                after.order@.contains(s) <==> (s == seq || before.order@.contains(s)) && s != lowest
        }),
        forall|s: u64, k: int|
            0 <= k < N_VARIANTS && s != seq && after.order@.contains(s) ==> #[trigger] after.lookup(
                s,
                k,
            ) == before.lookup(s, k),
{
    if !before.order@.contains(seq) {
        lemma_rank(before.order@, seq);
        lemma_with_seq(before.order@, seq);
        let full = with_seq(before.order@, seq);
        if before.order@.len() == RING_CAP {
            assert(after.order@ =~= full.skip(1));
            assert(before.order@.contains(before.order@[0]));
            let lowest = full[0];
            assert(lowest == if seq < before.order@[0] {
                seq
            } else {
                before.order@[0]
            });
            assert forall|s: u64| #[trigger] full.skip(1).contains(s) <==> full.contains(s) && s
                != lowest by {
                if full.contains(s) && s != lowest {
                    let i = full.index_of(s);
                    assert(full[i] == s);
                    assert(full.skip(1)[i - 1] == s);
                }
                if full.skip(1).contains(s) {
                    let i = full.skip(1).index_of(s);
                    assert(full.skip(1)[i] == s);
                    assert(full[i + 1] == s);
                }
            }
        }
    }
}

/// Every frame kept is the one that its slot's projection of the record is
/// serialized to; `shown` gives that projection.
pub open spec fn coherent(state: CacheState, shown: spec_fn(u64, int) -> RecordOut) -> bool {
    forall|s: u64, k: int|
        0 <= k < N_VARIANTS ==> match #[trigger] state.lookup(s, k) {
            Some(kept) => raw_text(&*kept) == frame_text(shown(s, k), k % 2 == 1),
            None => true,
        }
}

/// Serializing once and sharing changes no byte of what a watcher reads: where
/// every frame kept is the one its record would be serialized to, that holds
/// still after a fresh frame was published.
pub proof fn law_sharing_changes_no_text(
    state: CacheState,
    shown: spec_fn(u64, int) -> RecordOut,
    seq: u64,
    slot: int,
    fresh: Arc<RawValue>,
)
    requires
        state.wf(),
        0 <= slot < N_VARIANTS,
        raw_text(&*fresh) == frame_text(shown(seq, slot), slot % 2 == 1),
        coherent(state, shown),
    ensures
        forall|s: u64, k: int|
            0 <= k < N_VARIANTS ==> match #[trigger] state.lookup_after(seq, slot, fresh, s, k) {
                Some(kept) => raw_text(&*kept) == frame_text(shown(s, k), k % 2 == 1),
                None => true,
            },
{
    assert forall|s: u64, k: int| 0 <= k < N_VARIANTS implies match #[trigger] state.lookup_after(
        seq,
        slot,
        fresh,
        s,
        k,
    ) {
        Some(kept) => raw_text(&*kept) == frame_text(shown(s, k), k % 2 == 1),
        None => true,
    } by {
        assert(match state.lookup(s, k) {
            Some(kept) => raw_text(&*kept) == frame_text(shown(s, k), k % 2 == 1),
            None => true,
        });
    }
}

/// What is published can be had: while its seq is in the ring, its slot holds the
/// frame that was there first, or else the one that was published; the other slots
/// of the seq hold what they held; and nothing is kept of a seq that is not in the
/// ring.
pub proof fn law_what_is_published_can_be_had(
    before: CacheState,
    after: CacheState,
    seq: u64,
    slot: int,
    frame: Arc<RawValue>,
    other: u64,
    k: int,
)
    requires
        before.wf(),
        published(before, after, seq, slot, frame),
        0 <= slot < N_VARIANTS,
        0 <= k < N_VARIANTS,
    ensures
        after.order@.contains(seq) && before.lookup(seq, slot) is Some ==> after.lookup(seq, slot)
            == before.lookup(seq, slot),
        after.order@.contains(seq) && before.lookup(seq, slot) is None ==> after.lookup(seq, slot)
            == Some(frame),
        after.order@.contains(seq) && k != slot ==> after.lookup(seq, k) == before.lookup(seq, k),
        !after.order@.contains(other) ==> after.lookup(other, k) is None,
{
}

/// The ring keeps the frames of so many seqs at most, each in a slot for every
/// projection; and what it has for a seq and a slot is what stands there.
pub proof fn law_the_ring_is_bounded(state: CacheState, seq: u64, slot: int)
    requires
        state.wf(),
    ensures
        state.order@.len() <= 1024,
        state.frames@.contains_key(seq) ==> state.frames@[seq]@.len() == 8,
        state.frames@.contains_key(seq) ==> state.lookup(seq, slot) == state.frames@[seq]@[slot],
        !state.frames@.contains_key(seq) ==> state.lookup(seq, slot) is None,
{
}

/// A frame is handed out as kept, without touching the ring; only a record without
/// one is serialized, and then in the projection that was asked for.
pub proof fn law_a_frame_is_made_at_most_once(
    before: CacheState,
    after: CacheState,
    seq: u64,
    rec: RecordOut,
    variant: FrameVariant,
    frame: Arc<RawValue>,
)
    requires
        before.wf(),
        variant.wf(),
        framed(before, after, seq, rec, variant, frame),
    ensures
        before.lookup(seq, variant.bits as int) is Some ==> after == before && before.lookup(
            seq,
            variant.bits as int,
        ) == Some(frame),
        before.lookup(seq, variant.bits as int) is None ==> raw_text(&*frame) == raw_text_of(
            Json::Object(frame_members(rec, variant.include_data)),
        ),
        before.lookup(seq, variant.bits as int) is None && after.order@.contains(seq)
            ==> after.lookup(seq, variant.bits as int) == Some(frame),
{
}

}
