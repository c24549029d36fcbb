//! Time. Recency, expiry and priority read the time through a [`Clock`], so
//! that a [`TestClock`] can stand in for the wall clock.

use std::time::{Duration, SystemTime};
use vstd::prelude::*;

verus! {

#[verifier::external_type_specification]
#[verifier::external_body]
pub struct ExSystemTime(std::time::SystemTime);

/// `SystemTime::now` reads the wall clock; nothing is claimed of the time read.
pub assume_specification[ std::time::SystemTime::now ]() -> std::time::SystemTime;

/// The time from the Unix epoch to `t`, as `SystemTime::duration_since` gives
/// it; `None` for a time before the epoch.
pub uninterp spec fn since_epoch(t: SystemTime) -> Option<Duration>;

/// `SystemTime::duration_since` with the Unix epoch as the earlier time: the
/// result is determined by the time given.
#[verifier::external_body]
fn duration_since_epoch(t: &SystemTime) -> (r: Option<Duration>)
    ensures
        r == since_epoch(*t),
{
    t.duration_since(std::time::UNIX_EPOCH).ok()
}

/// The whole milliseconds of a duration, as `Duration::as_millis` counts them.
pub uninterp spec fn whole_millis(d: Duration) -> u128;

/// `Duration::as_millis`: the result is determined by the duration.
pub assume_specification[ std::time::Duration::as_millis ](d: &std::time::Duration) -> (r: u128)
    ensures
        r == whole_millis(*d),
;

/// Milliseconds on a clock, given those elapsed since the Unix epoch (`None`
/// before it): the low 64 bits, and zero before the epoch.
pub open spec fn clock_ms_spec(elapsed: Option<u128>) -> i64 {
    match elapsed {
        Some(ms) => ms as i64,
        None => 0,
    }
}

/// See [`clock_ms_spec`].
pub fn clock_ms(elapsed: Option<u128>) -> (r: i64)
    ensures
        r == clock_ms_spec(elapsed),
{
    match elapsed {
        Some(ms) => #[verifier::truncate]
        (ms as i64),
        None => 0,
    }
}

/// A source of the current time in milliseconds since the Unix epoch.
pub trait Clock: Send + Sync + 'static {
    /// The clock may show `ms`.
    spec fn may_show(&self, ms: i64) -> bool;

    /// Milliseconds since the Unix epoch.
    fn now_ms(&self) -> (r: i64)
        ensures
            self.may_show(r),
    ;
}

/// Wall-clock time.
#[derive(Debug, Clone)]
pub struct SystemClock;

impl Clock for SystemClock {
    /// Any time the system can report.
    open spec fn may_show(&self, ms: i64) -> bool {
        exists|t: SystemTime|
            ms == clock_ms_spec(
                match #[trigger] since_epoch(t) {
                    Some(d) => Some(whole_millis(d)),
                    None => None,
                },
            )
    }

    fn now_ms(&self) -> (r: i64) {
        let t = SystemTime::now();
        let elapsed = match duration_since_epoch(&t) {
            Some(d) => Some(d.as_millis()),
            None => None,
        };
        clock_ms(elapsed)
    }
}

impl Default for SystemClock {
    fn default() -> (r: Self)
        ensures
            r == SystemClock,
    {
        SystemClock
    }
}

/// A clock that stands still until it is moved.
#[derive(Debug)]
pub struct TestClock {
    pub now: i64,
}

impl TestClock {
    /// A clock that shows `start_ms`.
    pub fn new(start_ms: i64) -> (r: Self)
        ensures
            r.now == start_ms,
    {
        TestClock { now: start_ms }
    }

    /// Moves the clock by `delta_ms`, wrapping around at the ends of `i64`.
    pub fn advance(&mut self, delta_ms: i64)
        ensures
            final(self).now == old(self).now.wrapping_add(delta_ms),
    {
        self.now = self.now.wrapping_add(delta_ms);
    }

    /// Moves the clock to `ms`.
    pub fn set(&mut self, ms: i64)
        ensures
            final(self).now == ms,
    {
        self.now = ms;
    }
}

impl Default for TestClock {
    fn default() -> (r: Self)
        ensures
            r.now == 0,
    {
        TestClock::new(0)
    }
}

impl Clock for TestClock {
    open spec fn may_show(&self, ms: i64) -> bool {
        ms == self.now
    }

    fn now_ms(&self) -> (r: i64) {
        self.now
    }
}

/// A clock shows the milliseconds since the epoch as they are, as long as they fit, and
/// nothing before it.
pub proof fn law_clocks_show_what_has_elapsed(ms: u128)
    ensures
        ms <= i64::MAX ==> clock_ms_spec(Some(ms)) == ms,
        clock_ms_spec(None) == 0,
{
}

}
