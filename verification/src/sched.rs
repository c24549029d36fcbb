//! The priority scheduler: how urgent a box is, and in which order dirty boxes
//! are served.

use crate::clock::Clock;
use crate::config::{
    AGE_CAP_MS, AGE_MS_PER_POINT, AUTO_FLOOR_MS, AUTO_MAX, HALF_LIFE_MS, PRIORITY_MAX, PRIORITY_MIN,
};
use crate::decay::{
    kept, kept_over, law_kept_falls, law_kept_is_accurate, lemma_kept_bounded, lemma_pow_base, SCALE,
};
use crate::text::str_eq;
use std::collections::VecDeque;
use vstd::arithmetic::mul::*;
use vstd::arithmetic::power::*;
use vstd::prelude::*;

verus! {

/// Scheduling bands by effective priority.
#[derive(Debug, Clone, Copy, PartialEq, Eq, Structural)]
pub enum Band {
    /// `>= 750`, weight 8.
    B4,
    /// `500..=749`, weight 4.
    B3,
    /// `250..=499`, weight 2.
    B2,
    /// `0..=249`, weight 1.
    B1,
    /// `< 0`, weight 1 (explicitly deprioritized).
    B0,
}

impl Band {
    /// The band of an effective priority.
    pub open spec fn spec_of(eff_priority: int) -> Band {
        if eff_priority >= 750 {
            Band::B4
        } else if eff_priority >= 500 {
            Band::B3
        } else if eff_priority >= 250 {
            Band::B2
        } else if eff_priority >= 0 {
            Band::B1
        } else {
            Band::B0
        }
    }

    /// The band of an effective priority.
    pub fn of(eff_priority: i64) -> (r: Band)
        ensures
            r == Band::spec_of(eff_priority as int),
    {
        if eff_priority >= 750 {
            Band::B4
        } else if eff_priority >= 500 {
            Band::B3
        } else if eff_priority >= 250 {
            Band::B2
        } else if eff_priority >= 0 {
            Band::B1
        } else {
            Band::B0
        }
    }

    /// The rank of the band, the top band highest.
    pub open spec fn level(self) -> int {
        match self {
            Band::B4 => 4,
            Band::B3 => 3,
            Band::B2 => 2,
            Band::B1 => 1,
            Band::B0 => 0,
        }
    }

    /// The share of service the band gets.
    pub open spec fn spec_weight(self) -> u32 {
        match self {
            Band::B4 => 8,
            Band::B3 => 4,
            Band::B2 => 2,
            Band::B1 => 1,
            Band::B0 => 1,
        }
    }

    /// The share of service the band gets.
    pub fn weight(self) -> (r: u32)
        ensures
            r == self.spec_weight(),
    {
        match self {
            Band::B4 => 8,
            Band::B3 => 4,
            Band::B2 => 2,
            Band::B1 | Band::B0 => 1,
        }
    }

    /// The queue of this band.
    pub fn queue_mut(self, ready: &mut ReadySet) -> (r: &mut VecDeque<String>)
        ensures
            *r == old(ready).queue(self),
            *final(ready) == old(ready).with_queue(self, *final(r)),
    {
        match self {
            Band::B4 => &mut ready.b4,
            Band::B3 => &mut ready.b3,
            Band::B2 => &mut ready.b2,
            Band::B1 => &mut ready.b1,
            Band::B0 => &mut ready.b0,
        }
    }
}

/// Recency bonus in tenths of a point of a box last consumed `idle`
/// milliseconds ago: [`AUTO_MAX`] at first, halved every half-life, nothing
/// from [`AUTO_FLOOR_MS`] on. Fractions of a tenth are dropped.
pub open spec fn recency_tenths(idle: int) -> int {
    if idle >= AUTO_FLOOR_MS {
        0
    } else {
        decayed_tenths(idle)
    }
}

/// The recency bonus in tenths before the floor applies.
pub open spec fn decayed_tenths(idle: int) -> int
    decreases idle,
{
    if idle < HALF_LIFE_MS {
        10 * AUTO_MAX * kept(idle as nat) / SCALE as int
    } else {
        decayed_tenths(idle - HALF_LIFE_MS) / 2
    }
}

/// Milliseconds from `then` to `now`; none where `then` lies ahead.
pub open spec fn elapsed(now: i64, then: i64) -> int {
    if now >= then {
        now - then
    } else {
        0
    }
}

/// A manual priority held to its documented range.
pub open spec fn clamped_priority(p: i32) -> int {
    if p < PRIORITY_MIN {
        PRIORITY_MIN as int
    } else if p > PRIORITY_MAX {
        PRIORITY_MAX as int
    } else {
        p as int
    }
}

/// The effective priority in tenths of a point: the manual priority, or the
/// recency bonus where there is none and auto priority is on; plus what
/// waiting has earned.
pub open spec fn priority_tenths(
    now_ms: i64,
    manual: Option<i32>,
    auto_priority: bool,
    last_consumed_ms: Option<i64>,
    enqueued_ms: Option<i64>,
) -> int {
    let base = match manual {
        Some(p) => 10 * clamped_priority(p),
        None => match last_consumed_ms {
            Some(last) if auto_priority => recency_tenths(elapsed(now_ms, last)),
            _ => 0,
        },
    };
    let age = match enqueued_ms {
        Some(enq) => aged_tenths(elapsed(now_ms, enq)),
        None => 0,
    };
    base + age
}

/// What `waited` milliseconds in the queue earn, in tenths of a point.
pub open spec fn aged_tenths(waited: int) -> int {
    10 * (if waited >= AGE_CAP_MS {
        AGE_CAP_MS as int
    } else {
        waited
    }) / AGE_MS_PER_POINT as int
}

/// Tenths rounded to whole points, halves away from zero.
pub open spec fn rounded(tenths: int) -> int {
    if tenths >= 0 {
        (tenths + 5) / 10
    } else {
        -((5 - tenths) / 10)
    }
}

/// Computes [`decayed_tenths`].
fn decay_recency(idle: u64) -> (r: u64)
    ensures
        r == decayed_tenths(idle as int),
        r <= 5000,
    decreases idle,
{
    if idle < HALF_LIFE_MS {
        proof {
            lemma_kept_bounded(idle as nat);
        }
        let k = kept_over(idle);
        assert(5000 * k / 0x4000_0000_0000_0000 <= 5000);
        ((10 * AUTO_MAX as u128) * k as u128 / SCALE as u128) as u64
    } else {
        decay_recency(idle - HALF_LIFE_MS) / 2
    }
}

/// The effective priority of a box at the time `now_ms`. `manual` is the
/// configured priority; `last_consumed_ms` drives the recency bonus and
/// `enqueued_ms` the aging.
pub fn effective_priority_at(
    now_ms: i64,
    manual: Option<i32>,
    auto_priority: bool,
    last_consumed_ms: Option<i64>,
    enqueued_ms: Option<i64>,
) -> (r: i64)
    ensures
        r == rounded(
            priority_tenths(now_ms, manual, auto_priority, last_consumed_ms, enqueued_ms),
        ),
{
    let base: i64 = match manual {
        Some(p) => {
            let clamped = if p < PRIORITY_MIN {
                PRIORITY_MIN
            } else if p > PRIORITY_MAX {
                PRIORITY_MAX
            } else {
                p
            };
            10 * clamped as i64
        },
        None => match last_consumed_ms {
            Some(last) if auto_priority => {
                let idle: i128 = if now_ms >= last {
                    now_ms as i128 - last as i128
                } else {
                    0
                };
                if idle >= AUTO_FLOOR_MS as i128 {
                    0
                } else {
                    decay_recency(idle as u64) as i64
                }
            },
            _ => 0,
        },
    };
    let age: i64 = match enqueued_ms {
        Some(enq) => {
            let waited: i128 = if now_ms >= enq {
                now_ms as i128 - enq as i128
            } else {
                0
            };
            let counted: i128 = if waited >= AGE_CAP_MS as i128 {
                AGE_CAP_MS as i128
            } else {
                waited
            };
            10 * counted as i64 / AGE_MS_PER_POINT as i64
        },
        None => 0,
    };
    let tenths = base + age;
    if tenths >= 0 {
        (tenths + 5) / 10
    } else {
        -((5 - tenths) / 10)
    }
}

/// The dirty boxes, first come first served within a band.
pub struct ReadySet {
    pub b4: VecDeque<String>,
    pub b3: VecDeque<String>,
    pub b2: VecDeque<String>,
    pub b1: VecDeque<String>,
    pub b0: VecDeque<String>,
}

impl ReadySet {
    /// The queue of a band.
    pub open spec fn queue(self, band: Band) -> VecDeque<String> {
        match band {
            Band::B4 => self.b4,
            Band::B3 => self.b3,
            Band::B2 => self.b2,
            Band::B1 => self.b1,
            Band::B0 => self.b0,
        }
    }

    /// The set with one band's queue replaced.
    pub open spec fn with_queue(self, band: Band, q: VecDeque<String>) -> ReadySet {
        match band {
            Band::B4 => ReadySet { b4: q, ..self },
            Band::B3 => ReadySet { b3: q, ..self },
            Band::B2 => ReadySet { b2: q, ..self },
            Band::B1 => ReadySet { b1: q, ..self },
            Band::B0 => ReadySet { b0: q, ..self },
        }
    }
}

/// The names in a queue, front first.
pub open spec fn names(q: VecDeque<String>) -> Seq<Seq<char>> {
    q@.map_values(|s: String| s@)
}

impl ReadySet {
    /// The names in the queue of a band, front first.
    pub open spec fn names_in(self, band: Band) -> Seq<Seq<char>> {
        names(self.queue(band))
    }

    /// The names in the order they are served: band by band from the top,
    /// first come first served within a band.
    pub open spec fn served(self) -> Seq<Seq<char>> {
        self.names_in(Band::B4) + self.names_in(Band::B3) + self.names_in(Band::B2)
            + self.names_in(Band::B1) + self.names_in(Band::B0)
    }

    /// No box is in the set twice.
    pub open spec fn distinct(self) -> bool {
        self.served().no_duplicates()
    }

    /// No box is dirty.
    pub open spec fn is_clear(self) -> bool {
        forall|band: Band| (#[trigger] self.names_in(band)).len() == 0
    }

    /// A set without dirty boxes.
    pub fn new() -> (r: Self)
        ensures
            r.is_clear(),
    {
        ReadySet {
            b4: VecDeque::new(),
            b3: VecDeque::new(),
            b2: VecDeque::new(),
            b1: VecDeque::new(),
            b0: VecDeque::new(),
        }
    }
}

/// What marking a box at a priority makes of the set: nothing changes where the
/// box is in it already, in whichever band; else the box goes last in the band
/// of the priority.
pub open spec fn marked(
    before: ReadySet,
    after: ReadySet,
    name: Seq<char>,
    eff_priority: int,
) -> bool {
    forall|band: Band| #[trigger]
        after.names_in(band) == if !before.served().contains(name) && band == Band::spec_of(
            eff_priority,
        ) {
            before.names_in(band).push(name)
        } else {
            before.names_in(band)
        }
}

impl ReadySet {
    /// Whether a box is in the set.
    pub fn holds(&self, name: &str) -> (r: bool)
        ensures
            r == self.served().contains(name@),
    {
        proof {
            lemma_served(*self, name@);
        }
        let r = holds(&self.b4, name) || holds(&self.b3, name) || holds(&self.b2, name) || holds(
            &self.b1,
            name,
        ) || holds(&self.b0, name);
        proof {
            assert(self.names_in(Band::B4) == names(self.b4));
            assert(self.names_in(Band::B3) == names(self.b3));
            assert(self.names_in(Band::B2) == names(self.b2));
            assert(self.names_in(Band::B1) == names(self.b1));
            assert(self.names_in(Band::B0) == names(self.b0));
        }
        r
    }
}

/// Whether a queue holds a name.
fn holds(q: &VecDeque<String>, name: &str) -> (r: bool)
    ensures
        r == names(*q).contains(name@),
{
    let mut i: usize = 0;
    while i < q.len()
        invariant
            i <= q@.len(),
            forall|j: int| 0 <= j < i ==> names(*q)[j] != name@,
        decreases q@.len() - i,
    {
        if str_eq(q[i].as_str(), name) {
            assert(names(*q)[i as int] == name@);
            return true;
        }
        i += 1;
    }
    false
}

/// Moves all names of a queue behind those of `out`.
fn drain_into(q: &mut VecDeque<String>, out: &mut Vec<String>)
    ensures
        names(*final(q)).len() == 0,
        final(out)@.map_values(|s: String| s@) == old(out)@.map_values(|s: String| s@) + names(
            *old(q),
        ),
{
    loop
        invariant
            q@.len() <= old(q)@.len(),
            q@ == old(q)@.skip(old(q)@.len() - q@.len()),
            out@ == old(out)@ + old(q)@.take(old(q)@.len() - q@.len()),
        ensures
            q@.len() == 0,
            out@ == old(out)@ + old(q)@,
        decreases q@.len(),
    {
        match q.pop_front() {
            Some(name) => {
                out.push(name);
            },
            None => {
                assert(old(q)@.take(old(q)@.len() as int) =~= old(q)@);
                break;
            },
        }
    }
}

/// `f` has been called on the name.
pub open spec fn was_called<F: Fn(&str)>(f: F, name: Seq<char>) -> bool {
    exists|s: &str| s@ == name && #[trigger] call_ensures(f, (s,), ())
}

/// The scheduler: a clock and the set of dirty boxes.
pub struct Scheduler<C: Clock> {
    pub clock: C,
    pub ready: ReadySet,
}

impl<C: Clock> Scheduler<C> {
    /// A scheduler on a clock, without dirty boxes.
    pub fn new(clock: C) -> (r: Self)
        ensures
            r.clock == clock,
            r.ready.is_clear(),
            r.ready.distinct(),
    {
        Scheduler { clock, ready: ReadySet::new() }
    }

    /// The effective priority of a box at the time the clock shows.
    pub fn effective_priority(
        &self,
        manual: Option<i32>,
        auto_priority: bool,
        last_consumed_ms: Option<i64>,
        enqueued_ms: Option<i64>,
    ) -> (r: i64)
        ensures
            exists|now: i64| #[trigger]
                self.clock.may_show(now) && r == rounded(
                    priority_tenths(now, manual, auto_priority, last_consumed_ms, enqueued_ms),
                ),
    {
        let now = self.clock.now_ms();
        effective_priority_at(now, manual, auto_priority, last_consumed_ms, enqueued_ms)
    }

    /// Marks a box dirty at an effective priority: puts it last in its band,
    /// unless it is dirty already, in whichever band.
    pub fn mark_dirty(&mut self, name: &str, eff_priority: i64)
        ensures
            final(self).clock == old(self).clock,
            marked(old(self).ready, final(self).ready, name@, eff_priority as int),
            old(self).ready.distinct() ==> final(self).ready.distinct(),
    {
        proof {
            lemma_served(self.ready, name@);
        }
        if self.ready.holds(name) {
            return;
        }
        let band = Band::of(eff_priority);
        let q = band.queue_mut(&mut self.ready);
        let ghost before = names(*q);
        q.push_back(name.to_string());
        assert(names(*q) =~= before.push(name@));
        proof {
            let was = old(self).ready;
            let after = self.ready;
            assert forall|b: Band| #[trigger] after.names_in(b) == if b == band {
                was.names_in(b).push(name@)
            } else {
                was.names_in(b)
            } by {}
            if was.distinct() {
                lemma_marking_keeps_distinct(was, after, name@, eff_priority as int);
            }
        }
    }

    /// Marks a box dirty unless its own flag says it is dirty already, and sets
    /// the flag.
    pub fn mark_dirty_fast(&mut self, name: &str, eff_priority: i64, already_dirty: &mut bool)
        ensures
            *final(already_dirty),
            final(self).clock == old(self).clock,
            if *old(already_dirty) {
                final(self).ready == old(self).ready
            } else {
                marked(old(self).ready, final(self).ready, name@, eff_priority as int)
            },
            old(self).ready.distinct() ==> final(self).ready.distinct(),
    {
        if *already_dirty {
            return;
        }
        *already_dirty = true;
        self.mark_dirty(name, eff_priority);
    }

    /// Drains the dirty boxes in the order they are served, and calls `clear`
    /// on each, so that its dirty flag can be reset.
    pub fn drain_order_clearing<F: Fn(&str)>(&mut self, clear: F) -> (out: Vec<String>)
        requires
            forall|s: &str|
                old(self).ready.served().contains(s@) ==> #[trigger] call_requires(clear, (s,)),
        ensures
            final(self).clock == old(self).clock,
            final(self).ready.is_clear(),
            final(self).ready.distinct(),
            out@.map_values(|s: String| s@) == old(self).ready.served(),
            forall|i: int| 0 <= i < out@.len() ==> was_called(clear, (#[trigger] out@[i])@),
    {
        let out = self.drain_order();
        let ghost served = out@.map_values(|s: String| s@);
        let mut i: usize = 0;
        while i < out.len()
            invariant
                i <= out@.len(),
                served == out@.map_values(|s: String| s@),
                forall|s: &str| served.contains(s@) ==> #[trigger] call_requires(clear, (s,)),
                forall|j: int| 0 <= j < i ==> was_called(clear, (#[trigger] out@[j])@),
            decreases out@.len() - i,
        {
            let name = out[i].as_str();
            assert(served[i as int] == name@);
            clear(name);
            assert(was_called(clear, name@));
            i += 1;
        }
        out
    }

    /// Sets a box's last-consumed time to the time the clock shows, so that its
    /// recency bonus starts anew.
    pub fn touch(&self, last_consumed_ms: &mut i64)
        ensures
            self.clock.may_show(*final(last_consumed_ms)),
    {
        *last_consumed_ms = self.clock.now_ms();
    }

    /// Drains the dirty boxes in the order they are served.
    pub fn drain_order(&mut self) -> (out: Vec<String>)
        ensures
            final(self).clock == old(self).clock,
            final(self).ready.is_clear(),
            final(self).ready.distinct(),
            out@.map_values(|s: String| s@) == old(self).ready.served(),
    {
        let mut out: Vec<String> = Vec::new();
        drain_into(&mut self.ready.b4, &mut out);
        drain_into(&mut self.ready.b3, &mut out);
        drain_into(&mut self.ready.b2, &mut out);
        drain_into(&mut self.ready.b1, &mut out);
        drain_into(&mut self.ready.b0, &mut out);
        out
    }
}

/// Marking a box that is dirty already changes nothing, whatever the priority;
/// and a box that was marked is dirty.
pub proof fn law_marking_is_idempotent(
    before: ReadySet,
    once: ReadySet,
    twice: ReadySet,
    name: Seq<char>,
    priority: int,
    again: int,
)
    requires
        marked(before, once, name, priority),
        marked(once, twice, name, again),
    ensures
        once.served().contains(name),
        forall|band: Band| #[trigger] twice.names_in(band) == once.names_in(band),
        twice.served() == once.served(),
{
    lemma_served(before, name);
    lemma_served(once, name);
    let band = Band::spec_of(priority);
    if !before.served().contains(name) {
        assert(once.names_in(band) == before.names_in(band).push(name));
        assert(once.names_in(band)[before.names_in(band).len() as int] == name);
        assert(once.names_in(band).contains(name));
    } else {
        let b = choose|b: Band| (#[trigger] before.names_in(b)).contains(name);
        assert(once.names_in(b) == before.names_in(b));
    }
}

/// Where a name was marked first in a run of marks; `-1` where it was not.
pub open spec fn first_mark(marks: Seq<(Seq<char>, int)>, name: Seq<char>) -> int
    decreases marks.len(),
{
    if marks.len() == 0 {
        -1
    } else {
        let earlier = first_mark(marks.drop_last(), name);
        if earlier >= 0 {
            earlier
        } else if marks.last().0 == name {
            marks.len() - 1
        } else {
            -1
        }
    }
}

/// The sets that a run of marks goes through, from one mark to the next.
pub open spec fn marked_in_turn(states: Seq<ReadySet>, marks: Seq<(Seq<char>, int)>) -> bool {
    &&& states.len() == marks.len() + 1
    &&& forall|k: int|
        0 <= k < marks.len() ==> #[trigger] marked(
            states[k],
            states[k + 1],
            marks[k].0,
            marks[k].1,
        )
}

/// The first mark of one name puts it ahead of another: in a higher band, or
/// earlier in the same one.
pub open spec fn goes_first(marks: Seq<(Seq<char>, int)>, a: Seq<char>, b: Seq<char>) -> bool {
    let i = first_mark(marks, a);
    let j = first_mark(marks, b);
    let above = Band::spec_of(marks[i].1).level();
    let below = Band::spec_of(marks[j].1).level();
    above > below || (above == below && i < j)
}

/// What is drained after a run of marks on a set that was clear: exactly the
/// names that were marked, each once, the higher bands first and within a band
/// in the order of the first marks. The first mark of a name is the one that
/// counts, whatever priority it is marked at again.
pub proof fn law_drained_are_the_marked(states: Seq<ReadySet>, marks: Seq<(Seq<char>, int)>)
    requires
        states[0].is_clear(),
        marked_in_turn(states, marks),
    ensures
        states.last().distinct(),
        forall|name: Seq<char>| #[trigger]
            states.last().served().contains(name) <==> exists|k: int|
                0 <= k < marks.len() && (#[trigger] marks[k]).0 == name,
        forall|i: int, j: int|
            0 <= i < j < states.last().served().len() ==> goes_first(
                marks,
                #[trigger] states.last().served()[i],
                #[trigger] states.last().served()[j],
            ),
{
    let ready = states.last();
    let served = ready.served();
    lemma_marks(states, marks);
    assert forall|i: int, j: int| 0 <= i < j < served.len() implies goes_first(
        marks,
        #[trigger] served[i],
        #[trigger] served[j],
    ) by {
        lemma_served_at(ready, i);
        lemma_served_at(ready, j);
        let (a, p) = served_at(ready, i);
        let (b, q) = served_at(ready, j);
        assert(band_sorted(ready.names_in(a), marks, a));
        assert(band_sorted(ready.names_in(b), marks, b));
        assert(ready.names_in(a)[p] == served[i]);
        assert(ready.names_in(b)[q] == served[j]);
    }
    assert forall|i: int, j: int| 0 <= i < j < served.len() implies served[i] != served[j] by {
        assert(goes_first(marks, served[i], served[j]));
    }
    assert forall|name: Seq<char>| #[trigger] served.contains(name) <==> exists|k: int|
        0 <= k < marks.len() && (#[trigger] marks[k]).0 == name by {
        lemma_served(ready, name);
        lemma_first_mark(marks, name);
        if served.contains(name) {
            let b = choose|b: Band| (#[trigger] ready.names_in(b)).contains(name);
            let i = ready.names_in(b).index_of(name);
            assert(band_sorted(ready.names_in(b), marks, b));
            assert(ready.names_in(b)[i] == name);
            assert(marks[first_mark(marks, name)].0 == name);
        }
    }
}

/// A first mark is a mark of the name, and there is one where it was marked.
proof fn lemma_first_mark(marks: Seq<(Seq<char>, int)>, name: Seq<char>)
    ensures
        -1 <= first_mark(marks, name) < marks.len(),
        first_mark(marks, name) >= 0 ==> marks[first_mark(marks, name)].0 == name,
        first_mark(marks, name) >= 0 <==> exists|k: int|
            0 <= k < marks.len() && (#[trigger] marks[k]).0 == name,
    decreases marks.len(),
{
    if marks.len() > 0 {
        let rest = marks.drop_last();
        lemma_first_mark(rest, name);
        if first_mark(marks, name) < 0 {
            assert forall|k: int| 0 <= k < marks.len() implies (#[trigger] marks[k]).0 != name by {
                if k < rest.len() {
                    assert(rest[k] == marks[k]);
                }
            }
        }
    }
}

/// A band's queue holds names that were first marked in the band, in the order of
/// their first marks.
spec fn band_sorted(q: Seq<Seq<char>>, marks: Seq<(Seq<char>, int)>, band: Band) -> bool {
    &&& forall|i: int|
        0 <= i < q.len() ==> {
            let f = first_mark(marks, #[trigger] q[i]);
            0 <= f < marks.len() && Band::spec_of(marks[f].1) == band
        }
    &&& forall|i: int, j: int|
        0 <= i < j < q.len() ==> first_mark(marks, #[trigger] q[i]) < first_mark(
            marks,
            #[trigger] q[j],
        )
}

/// Each band is sorted, and every name that was marked is in one.
spec fn sorted_out(ready: ReadySet, marks: Seq<(Seq<char>, int)>) -> bool {
    &&& forall|band: Band| band_sorted(#[trigger] ready.names_in(band), marks, band)
    &&& forall|name: Seq<char>| #[trigger]
        first_mark(marks, name) >= 0 ==> ready.served().contains(name)
}

/// One more mark keeps a band sorted.
proof fn lemma_mark_sorts_band(
    q: Seq<Seq<char>>,
    after: Seq<Seq<char>>,
    marks: Seq<(Seq<char>, int)>,
    band: Band,
)
    requires
        marks.len() > 0,
        band_sorted(q, marks.drop_last(), band),
        after == q || (after == q.push(marks.last().0) && first_mark(
            marks.drop_last(),
            marks.last().0,
        ) < 0 && Band::spec_of(marks.last().1) == band),
    ensures
        band_sorted(after, marks, band),
{
    let rest = marks.drop_last();
    assert forall|i: int| 0 <= i < after.len() implies ({
        let f = first_mark(marks, #[trigger] after[i]);
        0 <= f < marks.len() && Band::spec_of(marks[f].1) == band
    }) by {
        if i < q.len() {
            assert(q[i] == after[i]);
            let f = first_mark(rest, q[i]);
            assert(rest[f] == marks[f]);
        }
    }
    assert forall|i: int, j: int| 0 <= i < j < after.len() implies first_mark(
        marks,
        #[trigger] after[i],
    ) < first_mark(marks, #[trigger] after[j]) by {
        assert(q[i] == after[i]);
        if j < q.len() {
            assert(q[j] == after[j]);
        }
    }
}

/// One more mark keeps the bands sorted out.
proof fn lemma_mark_sorts(before: ReadySet, after: ReadySet, marks: Seq<(Seq<char>, int)>)
    requires
        marks.len() > 0,
        sorted_out(before, marks.drop_last()),
        marked(before, after, marks.last().0, marks.last().1),
    ensures
        sorted_out(after, marks),
{
    let rest = marks.drop_last();
    let name = marks.last().0;
    assert forall|band: Band| band_sorted(#[trigger] after.names_in(band), marks, band) by {
        assert(band_sorted(before.names_in(band), rest, band));
        lemma_mark_sorts_band(before.names_in(band), after.names_in(band), marks, band);
    }
    assert forall|other: Seq<char>| #[trigger] first_mark(
        marks,
        other,
    ) >= 0 implies after.served().contains(other) by {
        assert(first_mark(rest, other) >= 0 ==> before.served().contains(other));
        lemma_mark_adds(before, after, name, marks.last().1, other);
    }
}

/// A mark adds the name that is marked, and takes none out.
proof fn lemma_mark_adds(
    before: ReadySet,
    after: ReadySet,
    name: Seq<char>,
    priority: int,
    other: Seq<char>,
)
    requires
        marked(before, after, name, priority),
    ensures
        other == name || before.served().contains(other) ==> after.served().contains(other),
{
    lemma_served(before, other);
    lemma_served(after, other);
    if before.served().contains(other) {
        let b = choose|b: Band| (#[trigger] before.names_in(b)).contains(other);
        let i = before.names_in(b).index_of(other);
        assert(before.names_in(b)[i] == other);
        assert(after.names_in(b)[i] == other);
        assert(after.names_in(b).contains(other));
    } else if other == name {
        let b = Band::spec_of(priority);
        assert(after.names_in(b)[before.names_in(b).len() as int] == name);
        assert(after.names_in(b).contains(name));
    }
}

/// After a run of marks the bands are sorted out.
proof fn lemma_marks(states: Seq<ReadySet>, marks: Seq<(Seq<char>, int)>)
    requires
        states[0].is_clear(),
        marked_in_turn(states, marks),
    ensures
        sorted_out(states.last(), marks),
    decreases marks.len(),
{
    if marks.len() == 0 {
        assert forall|band: Band| (#[trigger] states.last().names_in(band)).len() == 0 by {}
    } else {
        let rest = marks.drop_last();
        let n = rest.len() as int;
        assert forall|k: int| 0 <= k < rest.len() implies #[trigger] marked(
            states.drop_last()[k],
            states.drop_last()[k + 1],
            rest[k].0,
            rest[k].1,
        ) by {
            assert(marked(states[k], states[k + 1], marks[k].0, marks[k].1));
        }
        lemma_marks(states.drop_last(), rest);
        assert(marked(states[n], states[n + 1], marks[n].0, marks[n].1));
        lemma_mark_sorts(states[n], states[n + 1], marks);
    }
}

/// The set holds what its bands hold.
proof fn lemma_served(ready: ReadySet, name: Seq<char>)
    ensures
        ready.served().contains(name) <==> exists|band: Band|
            (#[trigger] ready.names_in(band)).contains(name),
{
    let served = ready.served();
    if served.contains(name) {
        let k = served.index_of(name);
        assert(served[k] == name);
        lemma_served_at(ready, k);
        let (band, i) = served_at(ready, k);
        assert(ready.names_in(band)[i] == name);
        assert(ready.names_in(band).contains(name));
    }
    if exists|band: Band| (#[trigger] ready.names_in(band)).contains(name) {
        let band = choose|band: Band| (#[trigger] ready.names_in(band)).contains(name);
        let i = ready.names_in(band).index_of(name);
        law_higher_bands_are_served_first(ready, band, i);
        assert(served[served_before(ready, band) + i] == name);
    }
}

/// The band that a position in the order of service falls into, and the position
/// in that band.
spec fn served_at(ready: ReadySet, k: int) -> (Band, int) {
    if k >= served_before(ready, Band::B0) {
        (Band::B0, k - served_before(ready, Band::B0))
    } else if k >= served_before(ready, Band::B1) {
        (Band::B1, k - served_before(ready, Band::B1))
    } else if k >= served_before(ready, Band::B2) {
        (Band::B2, k - served_before(ready, Band::B2))
    } else if k >= served_before(ready, Band::B3) {
        (Band::B3, k - served_before(ready, Band::B3))
    } else {
        (Band::B4, k)
    }
}

proof fn lemma_served_at(ready: ReadySet, k: int)
    requires
        0 <= k < ready.served().len(),
    ensures
        ({
            let (band, i) = served_at(ready, k);
            &&& 0 <= i < ready.names_in(band).len()
            &&& k == served_before(ready, band) + i
            &&& ready.served()[k] == ready.names_in(band)[i]
        }),
{
}

/// A new name goes where it is not yet, so that no name is in the set twice.
proof fn lemma_marking_keeps_distinct(
    before: ReadySet,
    after: ReadySet,
    name: Seq<char>,
    priority: int,
)
    requires
        before.distinct(),
        !before.served().contains(name),
        marked(before, after, name, priority),
    ensures
        after.distinct(),
{
    let target = Band::spec_of(priority);
    let served = after.served();
    lemma_served(before, name);
    assert forall|i: int, j: int| 0 <= i < j < served.len() implies served[i] != served[j] by {
        lemma_served_at(after, i);
        lemma_served_at(after, j);
        let (a, p) = served_at(after, i);
        let (b, q) = served_at(after, j);
        let old_a = p < before.names_in(a).len();
        let old_b = q < before.names_in(b).len();
        if old_a {
            law_higher_bands_are_served_first(before, a, p);
            assert(before.names_in(a)[p] == after.names_in(a)[p]);
            assert(before.names_in(a).contains(served[i]));
        }
        if old_b {
            law_higher_bands_are_served_first(before, b, q);
            assert(before.names_in(b)[q] == after.names_in(b)[q]);
            assert(before.names_in(b).contains(served[j]));
        }
        if old_a && old_b {
            assert(before.served()[served_before(before, a) + p] == served[i]);
            assert(before.served()[served_before(before, b) + q] == served[j]);
        }
    }
}

/// A box in a higher band is served before every box in a lower one, and
/// within a band the box marked first is served first: the name at position
/// `i` of `band` comes after exactly the names of the higher bands and the
/// `i` names ahead of it.
pub proof fn law_higher_bands_are_served_first(ready: ReadySet, band: Band, i: int)
    requires
        0 <= i < ready.names_in(band).len(),
    ensures
        ready.served()[served_before(ready, band) + i] == ready.names_in(band)[i],
        served_before(ready, band) + i < ready.served().len(),
{
}

/// How many names are served before the band's first.
pub open spec fn served_before(ready: ReadySet, band: Band) -> nat {
    let n4 = ready.names_in(Band::B4).len();
    let n3 = ready.names_in(Band::B3).len();
    let n2 = ready.names_in(Band::B2).len();
    let n1 = ready.names_in(Band::B1).len();
    match band {
        Band::B4 => 0,
        Band::B3 => n4,
        Band::B2 => n4 + n3,
        Band::B1 => n4 + n3 + n2,
        Band::B0 => n4 + n3 + n2 + n1,
    }
}

/// A box consumed just now has the full recency bonus, every half-life halves
/// the bonus, and from the floor on there is none.
pub proof fn law_recency_halves(idle: int)
    requires
        0 <= idle,
    ensures
        recency_tenths(0) == 10 * AUTO_MAX,
        idle + HALF_LIFE_MS < AUTO_FLOOR_MS ==> recency_tenths(idle + HALF_LIFE_MS)
            == recency_tenths(idle) / 2,
        idle >= AUTO_FLOOR_MS ==> recency_tenths(idle) == 0,
{
    assert(kept(0) == SCALE);
}

/// The bonus is between nothing and [`AUTO_MAX`].
proof fn lemma_decayed_bounded(idle: int)
    requires
        0 <= idle,
    ensures
        0 <= decayed_tenths(idle) <= 10 * AUTO_MAX,
    decreases idle,
{
    if idle < HALF_LIFE_MS {
        lemma_kept_bounded(idle as nat);
    } else {
        lemma_decayed_bounded(idle - HALF_LIFE_MS);
    }
}

proof fn lemma_decayed_next(idle: int)
    requires
        0 <= idle,
    ensures
        decayed_tenths(idle + 1) <= decayed_tenths(idle),
    decreases idle,
{
    if idle < HALF_LIFE_MS {
        law_kept_falls(idle as nat);
        if idle + 1 == HALF_LIFE_MS {
            assert(kept(0) == SCALE);
            assert(decayed_tenths(0) == 10 * AUTO_MAX);
        }
    } else {
        lemma_decayed_next(idle - HALF_LIFE_MS);
    }
}

/// The longer a box lies idle, the smaller its recency bonus: it never rises
/// without a consume.
pub proof fn law_recency_never_rises(idle: int, later: int)
    requires
        0 <= idle <= later,
    ensures
        0 <= recency_tenths(later) <= recency_tenths(idle) <= 10 * AUTO_MAX,
    decreases later - idle,
{
    lemma_decayed_bounded(idle);
    lemma_decayed_bounded(later);
    if idle < later {
        law_recency_never_rises(idle, later - 1);
        lemma_decayed_next(later - 1);
    }
}

/// The bonus in tenths is `5000 * 2^(-idle / HALF_LIFE_MS)` rounded down,
/// up to a slip of less than `2^-32` tenths: it is never above the exact
/// value, and the next tenth is less than that slip below it. Both are stated
/// on the `HALF_LIFE_MS`-th powers, which are whole.
pub proof fn law_recency_is_accurate(idle: nat)
    requires
        idle < AUTO_FLOOR_MS,
    ensures
        pow(recency_tenths(idle as int), HALF_LIFE_MS as nat) * pow(2, idle) <= pow(
            5000,
            HALF_LIFE_MS as nat,
        ),
        pow(
            (recency_tenths(idle as int) + 1) * 0x1_0000_0000 + 1,
            HALF_LIFE_MS as nat,
        ) * pow(2, idle) >= pow(5000int * 0x1_0000_0000, HALF_LIFE_MS as nat),
{
    lemma_decayed_accurate(idle);
}

proof fn lemma_decayed_accurate(idle: nat)
    ensures
        pow(decayed_tenths(idle as int), HALF_LIFE_MS as nat) * pow(2, idle) <= pow(
            5000,
            HALF_LIFE_MS as nat,
        ),
        pow(
            (decayed_tenths(idle as int) + 1) * 0x1_0000_0000 + 1,
            HALF_LIFE_MS as nat,
        ) * pow(2, idle) >= pow(5000int * 0x1_0000_0000, HALF_LIFE_MS as nat),
    decreases idle,
{
    let n = HALF_LIFE_MS as nat;
    let t = decayed_tenths(idle as int);
    let big = 0x1_0000_0000int;
    let u = (t + 1) * big + 1;
    lemma_decayed_bounded(idle as int);
    lemma_pow_positive(2, idle);
    if idle < HALF_LIFE_MS {
        let d = kept(idle) as int;
        let e = (kept(idle) + 4 * idle) as int;
        let w = SCALE as int;
        let two = pow(2, idle);
        let s = pow(w, n);
        law_kept_is_accurate(idle);
        lemma_pow_positive(w, n);
        // From below.
        lemma_pow_base(t * w, 5000 * d, n);
        lemma_pow_distributes(t, w, n);
        lemma_pow_distributes(5000, d, n);
        let a = pow(t, n);
        let b = pow(5000, n);
        let dn = pow(d, n);
        lemma_pow_positive(5000, n);
        assert((a * two) * s <= b * s) by {
            assert((a * s) * two <= (b * dn) * two) by (nonlinear_arith)
                requires
                    a * s <= b * dn,
                    two > 0,
            ;
            assert(b * (dn * two) <= b * s) by (nonlinear_arith)
                requires
                    dn * two <= s,
                    b > 0,
            ;
            assert((a * two) * s == (a * s) * two) by (nonlinear_arith);
            assert((b * dn) * two == b * (dn * two)) by (nonlinear_arith);
        }
        lemma_mul_inequality_converse(a * two, b, s);
        // From above.
        assert(u * w >= 5000 * big * e);
        lemma_pow_base(5000 * big * e, u * w, n);
        lemma_pow_distributes(u, w, n);
        lemma_pow_distributes(5000 * big, e, n);
        let g = pow(u, n);
        let h = pow(5000 * big, n);
        let en = pow(e, n);
        lemma_pow_positive(5000 * big, n);
        assert(h * s <= (g * two) * s) by {
            assert((g * s) * two >= (h * en) * two) by (nonlinear_arith)
                requires
                    g * s >= h * en,
                    two > 0,
            ;
            assert(h * (en * two) >= h * s) by (nonlinear_arith)
                requires
                    en * two >= s,
                    h > 0,
            ;
            assert((g * two) * s == (g * s) * two) by (nonlinear_arith);
            assert((h * en) * two == h * (en * two)) by (nonlinear_arith);
        }
        lemma_mul_inequality_converse(h, g * two, s);
    } else {
        let prev = (idle - HALF_LIFE_MS) as nat;
        let p = decayed_tenths(prev as int);
        let v = (p + 1) * big + 1;
        let two = pow(2, prev);
        let twon = pow(2, n);
        lemma_decayed_accurate(prev);
        lemma_decayed_bounded(prev as int);
        lemma_pow_adds(2, n, prev);
        lemma_pow_positive(2, prev);
        lemma_pow_positive(2, n);
        assert(n + prev == idle);
        // From below.
        lemma_pow_base(2 * t, p, n);
        lemma_pow_distributes(2, t, n);
        let a = pow(t, n);
        assert((twon * a) * two <= pow(p, n) * two) by (nonlinear_arith)
            requires
                twon * a <= pow(p, n),
                two > 0,
        ;
        assert((twon * a) * two == a * (twon * two)) by (nonlinear_arith);
        // From above.
        lemma_pow_base(v, 2 * u, n);
        lemma_pow_distributes(2, u, n);
        let g = pow(u, n);
        assert((twon * g) * two >= pow(v, n) * two) by (nonlinear_arith)
            requires
                twon * g >= pow(v, n),
                two > 0,
        ;
        assert((twon * g) * two == g * (twon * two)) by (nonlinear_arith);
    }
}

/// A manual priority overrides recency: with one, the effective priority does
/// not depend on when the box was consumed.
pub proof fn law_manual_overrides_recency(
    now_ms: i64,
    manual: i32,
    auto_priority: bool,
    last_a: Option<i64>,
    last_b: Option<i64>,
    enqueued_ms: Option<i64>,
)
    ensures
        priority_tenths(now_ms, Some(manual), auto_priority, last_a, enqueued_ms)
            == priority_tenths(now_ms, Some(manual), auto_priority, last_b, enqueued_ms),
        rounded(priority_tenths(now_ms, Some(manual), auto_priority, last_a, None))
            == clamped_priority(manual),
{
}

/// Waiting only raises the priority, by at most one point for each
/// [`AGE_MS_PER_POINT`] waited and by no more than a thousand points.
pub proof fn law_waiting_raises_priority(waited: int, longer: int)
    requires
        0 <= waited <= longer,
    ensures
        0 <= aged_tenths(waited) <= aged_tenths(longer) <= 10_000,
        aged_tenths(longer) - aged_tenths(waited) <= 10 * (longer - waited) / AGE_MS_PER_POINT as int,
{
}

/// No box starves: one that has waited for [`AGE_CAP_MS`], which is ten seconds,
/// is in the top band, whatever its recency, unless its manual priority is below
/// `-250`.
pub proof fn law_no_box_starves(
    now_ms: i64,
    manual: Option<i32>,
    auto_priority: bool,
    last_consumed_ms: Option<i64>,
    enqueued_ms: i64,
)
    requires
        elapsed(now_ms, enqueued_ms) >= AGE_CAP_MS,
        manual matches Some(p) ==> p >= -250,
    ensures
        Band::spec_of(
            rounded(
                priority_tenths(
                    now_ms,
                    manual,
                    auto_priority,
                    last_consumed_ms,
                    Some(enqueued_ms),
                ),
            ),
        ) == Band::B4,
{
    if let Some(last) = last_consumed_ms {
        lemma_decayed_bounded(elapsed(now_ms, last));
    }
}

/// The bands by their edges.
pub proof fn law_bands_by_their_edges(p: int)
    ensures
        Band::spec_of(p) == Band::B4 <==> 750 <= p,
        Band::spec_of(p) == Band::B3 <==> 500 <= p < 750,
        Band::spec_of(p) == Band::B2 <==> 250 <= p < 500,
        Band::spec_of(p) == Band::B1 <==> 0 <= p < 250,
        Band::spec_of(p) == Band::B0 <==> p < 0,
{
}

/// A box that is more urgent is never in a lower band, and a higher band never has a
/// smaller share: from the second lowest on each has twice that of the one below.
pub proof fn law_urgency_is_never_punished(p: int, q: int)
    requires
        p <= q,
    ensures
        Band::spec_of(p).level() <= Band::spec_of(q).level(),
        Band::spec_of(p).spec_weight() <= Band::spec_of(q).spec_weight(),
        Band::B4.spec_weight() == 2 * Band::B3.spec_weight(),
        Band::B3.spec_weight() == 2 * Band::B2.spec_weight(),
        Band::B2.spec_weight() == 2 * Band::B1.spec_weight(),
        Band::B1.spec_weight() == 1 && Band::B0.spec_weight() == 1,
{
}

/// Rounding goes to the nearest point, a half away from zero; the other way round for
/// what is below zero; and never swaps two priorities.
pub proof fn law_rounding_is_to_the_nearest(t: int, u: int)
    ensures
        -5 <= 10 * rounded(t) - t <= 5,
        t >= 0 ==> 10 * rounded(t) - t > -5,
        t <= 0 ==> 10 * rounded(t) - t < 5,
        rounded(-t) == -rounded(t),
        t <= u ==> rounded(t) <= rounded(u),
{
}

/// A priority is the sum of two parts. The one is the configured priority, held
/// between -1000 and 1000, whatever else there is; or else, where automatic priority
/// is on and the box was consumed before, what is left of the bonus of 500 points;
/// or else nothing. The other is a tenth of a point for each millisecond that the
/// box has waited, for ten seconds at most. What lies ahead of now counts as now.
pub proof fn law_a_priority_is_the_sum_of_its_parts(
    now_ms: i64,
    manual: Option<i32>,
    auto_priority: bool,
    last_consumed_ms: Option<i64>,
    enqueued_ms: Option<i64>,
)
    ensures
        ({
            let alone = priority_tenths(now_ms, manual, auto_priority, last_consumed_ms, None);
            let all = priority_tenths(
                now_ms,
                manual,
                auto_priority,
                last_consumed_ms,
                enqueued_ms,
            );
            &&& manual matches Some(p) ==> {
                &&& -1000 <= p <= 1000 ==> alone == 10 * p
                &&& p < -1000 ==> alone == -10000
                &&& p > 1000 ==> alone == 10000
            }
            &&& manual is None && (!auto_priority || last_consumed_ms is None) ==> alone == 0
            &&& manual is None && auto_priority && last_consumed_ms is Some ==> {
                let last = last_consumed_ms->0;
                &&& last >= now_ms ==> alone == 5000
                &&& now_ms - last >= 300_000 ==> alone == 0
                &&& 0 <= now_ms - last < 270_000 && last >= i64::MIN + 30_000 ==> priority_tenths(
                    now_ms,
                    None,
                    true,
                    Some((last - 30_000) as i64),
                    None,
                ) == alone / 2
            }
            &&& enqueued_ms is None ==> all == alone
            &&& enqueued_ms matches Some(then) ==> {
                &&& then >= now_ms ==> all == alone
                &&& 0 <= now_ms - then <= 10_000 ==> all - alone == now_ms - then
                &&& now_ms - then >= 10_000 ==> all - alone == 10_000
            }
        }),
{
    if manual is None && auto_priority && last_consumed_ms is Some {
        let idle = elapsed(now_ms, last_consumed_ms->0);
        law_recency_halves(idle);
        law_recency_halves(0);
    }
}

}
