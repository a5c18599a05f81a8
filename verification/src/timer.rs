//! A repeating tick timer, used to refresh the window title at a fixed
//! cadence.
//!
//! The timer accumulates wall-clock time between `update` calls and fires
//! once the accumulated time reaches the tick length, carrying the remainder
//! over.  Reading the clock is the only unverified step; the carry arithmetic
//! is `advance`, which is verified for every elapsed value the clock could
//! hand back.

use vstd::prelude::*;

verus! {

/// Declares `std::time::Instant` so the timer can hold one; its value is
/// opaque.
#[verifier::external_type_specification]
#[verifier::external_body]
pub struct ExInstant(std::time::Instant);

/// Relies on `std::time::Instant::now`: an opaque point in monotonic time.
pub assume_specification[ std::time::Instant::now ]() -> std::time::Instant;

/// Relies on `std::time::Instant::elapsed`: the time since that instant.
pub assume_specification[ std::time::Instant::elapsed ](t: &std::time::Instant)
    -> std::time::Duration;

/// Relies on `core::time::Duration::as_nanos`: the duration in whole
/// nanoseconds.
pub assume_specification[ core::time::Duration::as_nanos ](d: &std::time::Duration) -> u128;

/// The carry arithmetic of one timer step: `elapsed` more nanoseconds join
/// the `current` carry; the timer fires exactly when the tick length is
/// reached, and the carry wraps to the remainder.
pub fn advance(current: u64, tick: u64, elapsed: u64) -> (r: (u64, bool))
    requires
        tick >= 1,
        current < tick,
    ensures
        r.1 == (current + elapsed >= tick),
        r.0 == (current + elapsed) % (tick as int),
        r.0 < tick,
{
    let total: u128 = current as u128 + elapsed as u128;
    let tick_wide: u128 = tick as u128;
    if total >= tick_wide {
        proof {
            vstd::arithmetic::div_mod::lemma_mod_bound(total as int, tick_wide as int);
        }
        let rem: u64 = (total % tick_wide) as u64;
        (rem, true)
    } else {
        proof {
            vstd::arithmetic::div_mod::lemma_small_mod((current + elapsed) as nat, tick as nat);
        }
        ((total as u64), false)
    }
}

/// Fires every `tick` nanoseconds of accumulated elapsed time.
pub struct Timer {
    counter: std::time::Instant,
    current: u64,
    tick: u64,
}

impl Timer {
    /// Nanoseconds already accumulated toward the next tick.
    pub closed spec fn carried(self) -> u64 {
        self.current
    }

    /// The tick length in nanoseconds.
    pub closed spec fn tick_len(self) -> u64 {
        self.tick
    }

    /// The carry always stays below the tick length.
    pub closed spec fn wf(self) -> bool {
        self.tick >= 1 && self.current < self.tick
    }

    /// One `update` step: some nonnegative elapsed time `e` was read from the
    /// clock, the timer fired exactly if the carry plus `e` reached the tick,
    /// and the new carry is the remainder.
    pub open spec fn stepped(pre: Timer, post: Timer, fired: bool, e: int) -> bool {
        &&& 0 <= e
        &&& fired == (pre.carried() + e >= pre.tick_len())
        &&& post.carried() == (pre.carried() + e) % (pre.tick_len() as int)
    }

    /// A timer that will first fire once `tick_nanos` nanoseconds have
    /// accumulated.
    pub fn new(tick_nanos: u64) -> (t: Timer)
        requires
            tick_nanos >= 1,
        ensures
            t.wf(),
            t.tick_len() == tick_nanos,
            t.carried() == 0,
    {
        Timer { counter: std::time::Instant::now(), current: 0, tick: tick_nanos }
    }

    /// Reads the clock, restarts it, and reports whether a tick's worth of
    /// time has accumulated since the last firing.
    pub fn update(&mut self) -> (fired: bool)
        requires
            old(self).wf(),
        ensures
            final(self).wf(),
            final(self).tick_len() == old(self).tick_len(),
            exists|e: int| #[trigger] Timer::stepped(*old(self), *final(self), fired, e),
    {
        let elapsed = self.counter.elapsed();
        let nanos = elapsed.as_nanos();
        self.counter = std::time::Instant::now();
        let capped: u64 = if nanos >= u64::MAX as u128 {
            u64::MAX
        } else {
            nanos as u64
        };
        let stepped = advance(self.current, self.tick, capped);
        self.current = stepped.0;
        proof {
            assert(Timer::stepped(*old(self), *self, stepped.1, capped as int));
        }
        stepped.1
    }
}

} // verus!
