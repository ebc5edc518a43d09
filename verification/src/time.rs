use std::time::Duration;
use vstd::prelude::*;

verus! {

/// The `Duration` that `Duration::from_nanos` builds from a count of
/// nanoseconds.
pub uninterp spec fn duration_of_nanos(nanos: u64) -> Duration;

/// Builds a `Duration` of `nanos` nanoseconds.
///
/// Trusted: calls `std::time::Duration::from_nanos`, which never fails and,
/// being a plain constructor, returns the same value for the same argument.
#[verifier::external_body]
pub(crate) fn duration_from_nanos(nanos: u64) -> (d: Duration)
    ensures
        d == duration_of_nanos(nanos),
{
    Duration::from_nanos(nanos)
}

/// Compares two durations.
///
/// Trusted: calls `<Duration as PartialEq>::eq`, which `Duration` derives
/// over its seconds and nanoseconds, so it holds exactly of equal values.
#[verifier::external_body]
pub(crate) fn duration_eq(a: &Duration, b: &Duration) -> (r: bool)
    ensures
        r == (*a == *b),
{
    a == b
}

/// A pair of timestamps: an epoch and a system time.
pub struct Pair<S, T> {
    /// The first component (the epoch).
    pub first: S,
    /// The second component (the system time).
    pub second: T,
}

impl<S: Copy, T: Copy> Clone for Pair<S, T> {
    fn clone(&self) -> (r: Self)
        ensures
            r == *self,
    {
        *self
    }
}

impl<S: Copy, T: Copy> Copy for Pair<S, T> {
}

impl<S, T> Pair<S, T> {
    /// Builds a pair from its two components.
    pub fn new(first: S, second: T) -> (p: Self)
        ensures
            p.first == first,
            p.second == second,
    {
        Pair { first, second }
    }
}

/// How a timestamp progresses in epoch time and in system time.
pub trait NextEpoch: Sized {
    /// Whether advancing the epoch is defined for this timestamp.
    spec fn can_tick_epoch(self) -> bool;

    /// The timestamp after the epoch advanced at a tuple time.
    spec fn ticked_epoch(self, tuple_time: Duration) -> Self;

    /// The timestamp after the system time advanced to a tuple time.
    spec fn ticked_sys(self, tuple_time: Duration) -> Self;

    /// Whether the timestamp has an epoch part.
    spec fn has_epoch(self) -> bool;

    /// The epoch part of the timestamp.
    spec fn epoch_of(self) -> u64;

    /// Advances the epoch.
    fn tick_epoch(&mut self, tuple_time: &Duration)
        requires
            old(self).can_tick_epoch(),
        ensures
            *final(self) == old(self).ticked_epoch(*tuple_time),
    ;

    /// Advances the system time.
    fn tick_sys(&mut self, tuple_time: &Duration)
        ensures
            *final(self) == old(self).ticked_sys(*tuple_time),
    ;

    /// The epoch part of the timestamp.
    fn get_epoch(&self) -> (e: u64)
        requires
            self.has_epoch(),
        ensures
            e == self.epoch_of(),
    ;
}

impl NextEpoch for Duration {
    open spec fn can_tick_epoch(self) -> bool {
        true
    }

    open spec fn ticked_epoch(self, tuple_time: Duration) -> Duration {
        tuple_time
    }

    open spec fn ticked_sys(self, tuple_time: Duration) -> Duration {
        tuple_time
    }

    /// A bare system time has no epoch part.
    open spec fn has_epoch(self) -> bool {
        false
    }

    open spec fn epoch_of(self) -> u64 {
        0
    }

    fn tick_epoch(&mut self, tuple_time: &Duration) {
        *self = *tuple_time;
    }

    fn tick_sys(&mut self, tuple_time: &Duration) {
        *self = *tuple_time;
    }

    fn get_epoch(&self) -> (e: u64) {
        0
    }
}

impl NextEpoch for Pair<u64, Duration> {
    open spec fn can_tick_epoch(self) -> bool {
        self.first < u64::MAX
    }

    open spec fn ticked_epoch(self, tuple_time: Duration) -> Pair<u64, Duration> {
        Pair { first: (self.first + 1) as u64, second: self.second }
    }

    open spec fn ticked_sys(self, tuple_time: Duration) -> Pair<u64, Duration> {
        Pair { first: self.first, second: tuple_time }
    }

    open spec fn has_epoch(self) -> bool {
        true
    }

    open spec fn epoch_of(self) -> u64 {
        self.first
    }

    fn tick_epoch(&mut self, tuple_time: &Duration) {
        self.first = self.first + 1;
    }

    fn tick_sys(&mut self, tuple_time: &Duration) {
        self.second = *tuple_time;
    }

    fn get_epoch(&self) -> (e: u64) {
        self.first
    }
}

/// A pair's epoch advances by one with `tick_epoch`, keeping the system
/// time; `tick_sys` sets the system time and keeps the epoch.
pub proof fn lemma_pair_ticks(p: Pair<u64, Duration>, t: Duration)
    requires
        p.can_tick_epoch(),
    ensures
        p.ticked_epoch(t).epoch_of() == p.epoch_of() + 1,
        p.ticked_epoch(t).second == p.second,
        p.ticked_sys(t).epoch_of() == p.epoch_of(),
        p.ticked_sys(t).second == t,
{
}

} // verus!
