//! Eviction and expiry floors: the watermarks below which records are gone.

use vstd::prelude::*;

verus! {

/// The larger of two numbers.
pub open spec fn max_of(a: int, b: int) -> int {
    if a >= b {
        a
    } else {
        b
    }
}

/// The smaller of two numbers.
pub open spec fn min_of(a: int, b: int) -> int {
    if a <= b {
        a
    } else {
        b
    }
}

/// The highest seq lost to a cap and the highest seq lost to expiry (`0` for
/// none). Only involuntary loss moves a floor.
#[derive(Debug, Clone, Copy, PartialEq, Eq, Structural)]
pub struct Floors {
    pub evict_floor: u64,
    pub expiry_floor: u64,
}

impl Floors {
    /// The highest seq lost to either cause.
    pub open spec fn lost_upto(self) -> int {
        max_of(self.evict_floor as int, self.expiry_floor as int)
    }

    /// The first seq still deliverable: one above what was lost, never below
    /// the first seq of the box, and one above the head when nothing is left.
    pub open spec fn earliest(self, seq_base: u64, head_seq: u64) -> int {
        min_of(
            max_of(seq_base as int, min_of(self.lost_upto() + 1, u64::MAX as int)),
            min_of(head_seq + 1, u64::MAX as int),
        )
    }

    /// Floors of a box that lost nothing.
    pub fn new() -> (r: Self)
        ensures
            r.evict_floor == 0,
            r.expiry_floor == 0,
    {
        Floors { evict_floor: 0, expiry_floor: 0 }
    }

    /// The first deliverable seq of a box with these floors.
    pub fn earliest_seq(&self, seq_base: u64, head_seq: u64) -> (r: u64)
        ensures
            r == self.earliest(seq_base, head_seq),
    {
        let lost = if self.evict_floor >= self.expiry_floor {
            self.evict_floor
        } else {
            self.expiry_floor
        };
        let after_lost = lost.saturating_add(1);
        let first = if seq_base >= after_lost {
            seq_base
        } else {
            after_lost
        };
        let after_head = head_seq.saturating_add(1);
        if first <= after_head {
            first
        } else {
            after_head
        }
    }
}

/// The first deliverable seq lies above all that was lost and not below the first
/// seq of the box, and no seq in between is left out: it is the first seq of the
/// box, or the one right above a floor, or, where nothing is left, the one right
/// above the head.
pub proof fn law_earliest_is_the_first_not_lost(floors: Floors, seq_base: u64, head_seq: u64)
    requires
        floors.evict_floor <= head_seq < u64::MAX,
        floors.expiry_floor <= head_seq,
        seq_base <= head_seq + 1,
    ensures
        ({
            let e = floors.earliest(seq_base, head_seq);
            &&& floors.evict_floor < e <= head_seq + 1
            &&& floors.expiry_floor < e
            &&& seq_base <= e
            &&& e == seq_base || e == floors.evict_floor + 1 || e == floors.expiry_floor + 1
        }),
{
}

/// Of two numbers, the larger and the smaller are the two again, in order; and of two
/// floors the higher one says how far records were lost.
pub proof fn law_the_larger_and_the_smaller(a: int, b: int, floors: Floors)
    ensures
        min_of(a, b) <= a <= max_of(a, b),
        min_of(a, b) <= b <= max_of(a, b),
        min_of(a, b) + max_of(a, b) == a + b,
        min_of(a, b) == a || min_of(a, b) == b,
        floors.lost_upto() >= floors.evict_floor && floors.lost_upto() >= floors.expiry_floor,
        floors.lost_upto() == floors.evict_floor || floors.lost_upto() == floors.expiry_floor,
{
}

}
