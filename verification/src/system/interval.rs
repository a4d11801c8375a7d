//! The fixed-interval system wrapper: gates processing to every so many
//! ticks.

use vstd::prelude::*;

use crate::system::{Process, System};
use crate::world::DataHelper;
use crate::EntityData;

verus! {

/// Wraps a tickable system and forwards `process` only once every
/// `interval` ticks, resetting its counter each time it fires; lifecycle
/// notifications always pass through unthrottled.
pub struct IntervalSystem<T: Process> {
    pub inner: T,
    interval: u8,
    ticker: u8,
}

impl<T: Process> IntervalSystem<T> {
    /// How many ticks must pass between two forwarded processing steps.
    pub closed spec fn interval_spec(&self) -> u8 {
        self.interval
    }

    /// The wrapped system, as a specification value.
    pub closed spec fn inner_spec(&self) -> T {
        self.inner
    }

    /// How many ticks have passed since the last forwarded step.
    pub closed spec fn ticker_spec(&self) -> u8 {
        self.ticker
    }

    /// The ticker always stays below the threshold, so it never overflows.
    pub open spec fn wf(&self) -> bool {
        self.ticker_spec() < self.interval_spec()
    }

    /// Wraps `inner` so that it processes once every `interval` ticks; the
    /// threshold must allow at least one tick between steps.
    pub fn new(system: T, interval: u8) -> (r: IntervalSystem<T>)
        requires
            interval >= 1,
        ensures
            r.wf(),
            r.interval_spec() == interval,
            r.ticker_spec() == 0,
            r.inner_spec() == system,
    {
        IntervalSystem { interval, ticker: 0, inner: system }
    }
}

impl<T: Process> Process for IntervalSystem<T> {
    /// Counts the tick, and forwards it to the inner system exactly when
    /// the counter reaches the threshold, resetting the count.
    fn process(&mut self, data: &mut DataHelper<T::Components, T::Services>)
        ensures
            final(self).interval_spec() == old(self).interval_spec(),
            old(self).wf() ==> final(self).wf(),
            old(self).wf() ==> final(self).ticker_spec() == (
            if old(self).ticker_spec() + 1 == old(self).interval_spec() {
                0u8
            } else {
                (old(self).ticker_spec() + 1) as u8
            }),
            old(self).wf() && old(self).ticker_spec() + 1 != old(self).interval_spec() ==> final(self).inner_spec() == old(self).inner_spec(),
    {
        if self.ticker < u8::MAX {
            self.ticker += 1;
        }
        if self.ticker == self.interval {
            self.ticker = 0;
            self.inner.process(data);
        }
    }
}

impl<T: Process> System for IntervalSystem<T> {
    type Components = T::Components;

    type Services = T::Services;

    /// Passes the notification through to the inner system unthrottled.
    fn activated(
        &mut self,
        e: &EntityData<'_, T::Components>,
        c: &T::Components,
        s: &mut T::Services,
    )
        ensures
            final(self).interval_spec() == old(self).interval_spec(),
            final(self).ticker_spec() == old(self).ticker_spec(),
    {
        self.inner.activated(e, c, s);
    }

    /// Passes the notification through to the inner system unthrottled.
    fn reactivated(
        &mut self,
        e: &EntityData<'_, T::Components>,
        c: &T::Components,
        s: &mut T::Services,
    )
        ensures
            final(self).interval_spec() == old(self).interval_spec(),
            final(self).ticker_spec() == old(self).ticker_spec(),
    {
        self.inner.reactivated(e, c, s);
    }

    /// Passes the notification through to the inner system unthrottled.
    fn deactivated(
        &mut self,
        e: &EntityData<'_, T::Components>,
        c: &T::Components,
        s: &mut T::Services,
    )
        ensures
            final(self).interval_spec() == old(self).interval_spec(),
            final(self).ticker_spec() == old(self).ticker_spec(),
    {
        self.inner.deactivated(e, c, s);
    }

    fn is_active(&self) -> bool {
        self.inner.is_active()
    }
}

} // verus!
