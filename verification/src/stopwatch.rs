//! A stopwatch that averages the time between events over the last few of
//! them.
//!
//! The stopwatch reads no clock. The caller hands it the time of each event
//! in nanoseconds, counted from any fixed moment.

use vstd::prelude::*;

verus! {

/// Counts the time between successive events, and averages it over the
/// last `n` events, where `n` is chosen when the stopwatch is made.
pub struct InterpolatedStopwatch {
    /// The times of the last events. They lie in a ring: the newest one
    /// stands before `offset`, the oldest one at `offset`.
    times: Vec<u64>,
    offset: usize,
    /// How many events there were.
    pub ticks: u64,
}

/// A stopwatch as a mathematical value.
pub struct StopwatchView {
    pub times: Seq<u64>,
    pub offset: int,
    pub ticks: int,
}

/// The time from `earlier` to `later`, or none if `later` is not later.
pub open spec fn elapsed(later: u64, earlier: u64) -> int {
    if later >= earlier {
        later - earlier
    } else {
        0
    }
}

impl StopwatchView {
    /// The ring holds a time, and `offset` lies in it.
    pub open spec fn well_formed(self) -> bool {
        0 <= self.offset < self.times.len()
    }

    /// The place of the newest time.
    pub open spec fn newest(self) -> int {
        if self.offset == 0 {
            self.times.len() - 1
        } else {
            self.offset - 1
        }
    }

    /// The stopwatch after an event at the time `now`: the oldest time
    /// makes room for it.
    pub open spec fn ticked(self, now: u64) -> StopwatchView {
        StopwatchView {
            times: self.times.update(self.offset, now),
            offset: (self.offset + 1) % (self.times.len() as int),
            ticks: self.ticks + 1,
        }
    }

    /// The time from the oldest event in the ring to the newest, divided by
    /// the number of events in the ring.
    pub open spec fn average(self) -> int {
        elapsed(self.times[self.newest()], self.times[self.offset]) / (self.times.len() as int)
    }
}

impl View for InterpolatedStopwatch {
    type V = StopwatchView;

    closed spec fn view(&self) -> StopwatchView {
        StopwatchView { times: self.times@, offset: self.offset as int, ticks: self.ticks as int }
    }
}

impl InterpolatedStopwatch {
    /// A stopwatch that averages over `interpolation_amount` events, made
    /// at the time `now`. One that averages over no event holds no time: it
    /// is not well formed, and can neither tick nor average.
    pub fn new(interpolation_amount: usize, now: u64) -> (r: InterpolatedStopwatch)
        ensures
            r@.well_formed() <==> interpolation_amount > 0,
            r@.times == Seq::new(interpolation_amount as nat, |i: int| now),
            r@.offset == 0,
            r@.ticks == 0,
    {
        let mut times: Vec<u64> = Vec::new();
        let mut i: usize = 0;
        while i < interpolation_amount
            invariant
                i <= interpolation_amount,
                times@ == Seq::new(i as nat, |k: int| now),
            decreases interpolation_amount - i,
        {
            times.push(now);
            assert(times@ =~= Seq::new((i + 1) as nat, |k: int| now));
            i = i + 1;
        }
        InterpolatedStopwatch { times, offset: 0, ticks: 0 }
    }

    /// An event happened at the time `now`. Returns the time since the
    /// event before; a stopwatch that holds one time only has no event
    /// before, and returns none.
    pub fn tick(&mut self, now: u64) -> (r: u64)
        requires
            old(self)@.well_formed(),
            old(self)@.ticks < u64::MAX,
        ensures
            final(self)@ == old(self)@.ticked(now),
            final(self)@.well_formed(),
            r == elapsed(now, old(self)@.ticked(now).times[old(self)@.newest()]),
    {
        let prev_offset = if self.offset == 0 {
            self.times.len() - 1
        } else {
            self.offset - 1
        };
        self.times.set(self.offset, now);
        let old_time = self.times[prev_offset];
        let time = if now >= old_time {
            now - old_time
        } else {
            0
        };
        self.offset = (self.offset + 1) % self.times.len();
        self.ticks = self.ticks + 1;
        time
    }

    /// The average time between two events, over the events in the ring.
    pub fn average_time(&self) -> (r: u64)
        requires
            self@.well_formed(),
        ensures
            r == self@.average(),
    {
        let prev_offset = if self.offset == 0 {
            self.times.len() - 1
        } else {
            self.offset - 1
        };
        let newest = self.times[prev_offset];
        let oldest = self.times[self.offset];
        let span = if newest >= oldest {
            newest - oldest
        } else {
            0
        };
        span / (self.times.len() as u64)
    }
}

} // verus!
