//! The due-time sequencer: a timetable read against a clock, which gives the
//! time to wait for each offset at the moment it is asked for.

use crate::cycle::{normalized, Cycle};
use crate::offset::{seconds_till_next_offset, wait_between, PERIOD};
use crate::timetable::Timetable;
use chrono::{Local, Timelike};
use std::time::Duration;
use vstd::prelude::*;

verus! {

/// The duration that `Duration::from_secs` of std makes of `secs` whole
/// seconds.
pub uninterp spec fn whole_seconds(secs: u64) -> Duration;

/// `Duration::from_secs` of std: the duration of `secs` whole seconds, which
/// depends on `secs` alone.
#[verifier::external_body]
fn duration_from_secs(secs: u64) -> (duration: Duration)
    ensures
        duration == whole_seconds(secs),
{
    Duration::from_secs(secs)
}

/// `Local::now` of chrono, read through `Timelike::second`: the second of the
/// current minute in local time, which chrono gives as a number from 0 to 59.
/// Nothing else is known of it: it differs from call to call.
#[verifier::external_body]
fn local_second() -> (second: u32)
    ensures
        second < 60,
{
    Local::now().second()
}

/// The time to wait at position `now` for `offset`.
pub open spec fn wait_for(now: u8, offset: u8) -> Duration {
    whole_seconds(wait_between(now as int, offset as int) as u64)
}

/// The wall clock's position in the period: the second of the current minute.
pub fn second_of_minute() -> (second: u8)
    ensures
        second < PERIOD,
{
    let second = local_second();
    position_of_reading(second)
}

/// The position that a clock's reading of the second stands for: the reading
/// itself. A reading beyond what a position can hold is no reading of a
/// second, and is not taken.
pub fn position_of_reading(second: u32) -> (position: u8)
    requires
        second <= u8::MAX,
    ensures
        position == second,
{
    second as u8
}

/// A timetable together with the clock it is read against. Each call of
/// `next` asks the clock anew, so a wait is never computed ahead of time.
pub struct Sequencer<F: FnMut() -> u8> {
    timetable: Timetable,
    clock: F,
}

impl<F: FnMut() -> u8> View for Sequencer<F> {
    type V = Cycle;

    closed spec fn view(&self) -> Cycle {
        self.timetable@
    }
}

impl<F: FnMut() -> u8> Sequencer<F> {
    /// The clock that the sequencer asks.
    pub closed spec fn clock(&self) -> F {
        self.clock
    }

    /// The clock can be asked, and the timetable is well formed.
    pub open spec fn wf(&self) -> bool {
        &&& call_requires(self.clock(), ())
        &&& self@.wf()
    }

    /// The timetable that the sequencer walks.
    pub fn timetable(&self) -> (timetable: &Timetable)
        ensures
            timetable@ == self@,
    {
        &self.timetable
    }

    /// Whether the clock may report position `now`.
    pub open spec fn may_read(&self, now: u8) -> bool {
        call_ensures(self.clock(), (), now)
    }

    /// The time to wait for the offset that comes due next, counted from
    /// what the clock reports at this call; the sequencer moves on to the
    /// offset after it. An empty timetable gives `None`, and the clock is not
    /// asked.
    pub fn next(&mut self) -> (wait: Option<Duration>)
        requires
            old(self).wf(),
        ensures
            final(self).wf(),
            final(self).clock() == old(self).clock(),
            final(self)@ == old(self)@.advance(),
            match old(self)@.head() {
                Some(offset) => exists|now: u8| #[trigger]
                    old(self).may_read(now) && wait == Some(wait_for(now, offset)),
                None => wait is None,
            },
    {
        if self.timetable.is_empty() {
            return None;
        }
        let now = (self.clock)();
        assert(old(self).may_read(now));
        match self.timetable.next_wait(now) {
            Some(seconds) => Some(duration_from_secs(seconds as u64)),
            None => None,
        }
    }
}

/// Makes the sequencer of a job with the given offsets, read against `clock`:
/// the offsets are sorted, and those which have already passed in the current
/// period, as the clock reports it now, are skipped for this period.
pub fn make_iterator<F: FnMut() -> u8>(offsets: Vec<u8>, clock: F) -> (sequencer: Sequencer<F>)
    requires
        call_requires(clock, ()),
    ensures
        sequencer.wf(),
        sequencer.clock() == clock,
        exists|now: u8| #[trigger]
            call_ensures(clock, (), now) && sequencer@ == normalized(offsets@, now),
{
    let mut clock = clock;
    let now = clock();
    let timetable = Timetable::normalize(offsets, now);
    Sequencer { timetable, clock }
}

} // verus!
