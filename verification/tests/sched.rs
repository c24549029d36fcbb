//! Priorities, bands and the order of service.

use std::cell::Cell;
use streams::clock::TestClock;
use streams::engine::box_state::{BoxState, TS_NEVER};
use streams::sched::{effective_priority_at, Band, Scheduler};

fn sched_with_clock(now: i64) -> Scheduler<TestClock> {
    Scheduler::new(TestClock::new(now))
}

#[test]
fn manual_priority_overrides_auto() {
    let now = 1_000_000;
    let p = effective_priority_at(now, Some(750), true, Some(now), None);
    assert_eq!(p, 750);

    assert_eq!(
        effective_priority_at(now, Some(5000), true, Some(now), None),
        1000
    );
    assert_eq!(
        effective_priority_at(now, Some(-5000), true, Some(now), None),
        -1000
    );

    assert_eq!(effective_priority_at(now, None, true, Some(now), None), 500);
}

#[test]
fn auto_recency_decays_with_time() {
    let last = 1_000_000;
    let at = |dt: i64| effective_priority_at(last + dt, None, true, Some(last), None);
    assert_eq!(at(0), 500);
    assert_eq!(at(30_000), 250);
    assert_eq!(at(60_000), 125);
    assert_eq!(at(300_000), 0);
    assert_eq!(at(600_000), 0);
}

#[test]
fn touch_resets_recency_via_clock() {
    let mut sched = sched_with_clock(1_000_000);
    let mut last = TS_NEVER;
    let lc = BoxState::read_ts(last);
    assert_eq!(lc, None);
    assert_eq!(sched.effective_priority(None, true, lc, None), 0);

    sched.touch(&mut last);
    let lc = Some(last);
    assert_eq!(sched.effective_priority(None, true, lc, None), 500);

    sched.clock.advance(30_000);
    assert_eq!(sched.effective_priority(None, true, lc, None), 250);
}

#[test]
fn banding_and_drain_order_is_priority_then_fifo() {
    assert_eq!(Band::of(800), Band::B4);
    assert_eq!(Band::of(600), Band::B3);
    assert_eq!(Band::of(300), Band::B2);
    assert_eq!(Band::of(100), Band::B1);
    assert_eq!(Band::of(-5), Band::B0);

    let mut sched = sched_with_clock(0);
    sched.mark_dirty("low", 10);
    sched.mark_dirty("hi", 800);
    sched.mark_dirty("mid", 300);
    sched.mark_dirty("hi2", 900);
    sched.mark_dirty("neg", -50);
    sched.mark_dirty("hi", 800);

    let order = sched.drain_order();
    assert_eq!(order, vec!["hi", "hi2", "mid", "low", "neg"]);
    assert!(sched.drain_order().is_empty());
}

#[test]
fn mark_dirty_fast_enqueues_once_then_reenqueues_after_clear() {
    let mut sched = sched_with_clock(0);
    let mut dirty = false;

    sched.mark_dirty_fast("hot", 800, &mut dirty);
    sched.mark_dirty_fast("hot", 800, &mut dirty);
    sched.mark_dirty_fast("hot", 800, &mut dirty);
    assert!(dirty, "flag set after first mark");

    let flag = Cell::new(dirty);
    let order = sched.drain_order_clearing(|name: &str| {
        assert_eq!(name, "hot");
        flag.set(false);
    });
    assert_eq!(order, vec!["hot"], "enqueued exactly once despite 3 marks");
    assert!(!flag.get(), "flag cleared on drain");

    let mut dirty = flag.get();
    sched.mark_dirty_fast("hot", 800, &mut dirty);
    assert_eq!(sched.drain_order(), vec!["hot"], "re-enqueued after clear");
}

#[test]
fn a_dirty_flag_keeps_a_box_out_of_every_band() {
    let mut sched = sched_with_clock(0);
    let mut dirty = true;
    sched.mark_dirty_fast("cold", 800, &mut dirty);
    assert!(dirty);
    assert!(sched.drain_order().is_empty());
}

#[test]
fn weights_and_band_edges() {
    assert_eq!(Band::of(750), Band::B4);
    assert_eq!(Band::of(749), Band::B3);
    assert_eq!(Band::of(500), Band::B3);
    assert_eq!(Band::of(499), Band::B2);
    assert_eq!(Band::of(250), Band::B2);
    assert_eq!(Band::of(249), Band::B1);
    assert_eq!(Band::of(0), Band::B1);
    assert_eq!(Band::of(-1), Band::B0);
    assert_eq!(Band::B4.weight(), 8);
    assert_eq!(Band::B3.weight(), 4);
    assert_eq!(Band::B2.weight(), 2);
    assert_eq!(Band::B1.weight(), 1);
    assert_eq!(Band::B0.weight(), 1);
}

#[test]
fn a_box_is_dirty_once_whatever_band_it_is_marked_in_again() {
    let mut sched = sched_with_clock(0);
    sched.mark_dirty("x", 800);
    sched.mark_dirty("y", 900);
    sched.mark_dirty("x", 10);
    sched.mark_dirty("z", 10);
    sched.mark_dirty("z", 900);
    assert!(sched.ready.holds("x") && !sched.ready.holds("w"));
    assert_eq!(sched.drain_order(), vec!["x", "y", "z"]);
    assert!(!sched.ready.holds("x"));
    sched.mark_dirty("x", 10);
    assert_eq!(sched.drain_order(), vec!["x"]);
}

#[test]
fn waiting_earns_priority_up_to_a_cap() {
    let enq = 1_000;
    let at = |now: i64| effective_priority_at(now, Some(0), false, None, Some(enq));
    assert_eq!(at(1_000), 0);
    assert_eq!(at(1_004), 0);
    assert_eq!(at(1_005), 1);
    assert_eq!(at(2_000), 100);
    assert_eq!(at(11_000), 1000);
    assert_eq!(at(1_000_000), 1000);
    // A time ahead of the clock counts for nothing.
    assert_eq!(at(0), 0);
}

#[test]
fn halves_round_away_from_zero() {
    assert_eq!(effective_priority_at(5, Some(-1000), false, None, Some(0)), -1000);
    assert_eq!(effective_priority_at(6, Some(-1000), false, None, Some(0)), -999);
    assert_eq!(effective_priority_at(5, Some(3), false, None, Some(0)), 4);
    assert_eq!(effective_priority_at(4, Some(3), false, None, Some(0)), 3);
}

#[test]
fn auto_priority_needs_to_be_on_and_consumed() {
    assert_eq!(effective_priority_at(10, None, false, Some(10), None), 0);
    assert_eq!(effective_priority_at(10, None, true, None, None), 0);
}

#[test]
fn recency_never_rises_and_is_the_rounded_exponential() {
    let mut before = i64::MAX;
    for idle in 0..300_000i64 {
        let got = effective_priority_at(idle, None, true, Some(0), None);
        let exact = 500.0f64 * 2f64.powf(-(idle as f64) / 30_000.0);
        assert_eq!(got, exact.round() as i64, "idle {idle}");
        assert!(got <= before);
        before = got;
    }
}

#[test]
fn recency_and_age_add_up_before_rounding() {
    for idle in (0..300_000i64).step_by(37) {
        for waited in [0i64, 1, 4, 5, 6, 333, 2_345, 9_999, 10_000] {
            let now = 1_000_000;
            let got = effective_priority_at(now, None, true, Some(now - idle), Some(now - waited));
            let exact = 500.0f64 * 2f64.powf(-(idle as f64) / 30_000.0) + 0.1 * waited as f64;
            assert_eq!(got, exact.round() as i64, "idle {idle} waited {waited}");
        }
    }
}

#[test]
fn extreme_times_do_not_overflow() {
    assert_eq!(
        effective_priority_at(i64::MAX, None, true, Some(i64::MIN), Some(i64::MIN)),
        1000
    );
    assert_eq!(
        effective_priority_at(i64::MIN, None, true, Some(i64::MAX), Some(i64::MAX)),
        500
    );
}

#[test]
fn ten_seconds_of_waiting_reach_the_top_band() {
    let band = |manual, waited| {
        Band::of(effective_priority_at(waited, manual, true, None, Some(0)))
    };
    assert_eq!(band(None, 10_000), Band::B4);
    assert_eq!(band(Some(-250), 10_000), Band::B4);
    assert_eq!(band(Some(-250), 9_990), Band::B3);
    assert_eq!(band(Some(-251), 1_000_000), Band::B3);
    assert_eq!(band(Some(-1000), 1_000_000), Band::B1);
}
