//! The timer-gated stream of one job: it yields once at each time the job
//! comes due, and waits in between.

use crate::cycle::{ascending, normalized, Cycle};
use crate::sequencer::{make_iterator, Sequencer};
use futures::stream::iter;
use futures::{FutureExt, Stream, StreamExt};
use std::pin::Pin;
use std::task::{Context, Poll};
use tokio::time::{sleep_until, Instant};
use vstd::prelude::*;

verus! {

/// `Pin` of std, carried through as it is.
#[verifier::external_type_specification]
#[verifier::external_body]
#[verifier::reject_recursive_types(Ptr)]
pub struct ExPin<Ptr>(Pin<Ptr>);

/// `Context` of std's tasks, carried through as it is.
#[verifier::external_type_specification]
#[verifier::external_body]
pub struct ExContext<'a>(Context<'a>);

/// `Poll` of std's tasks, with its two variants.
#[verifier::external_type_specification]
#[verifier::reject_recursive_types(T)]
pub struct ExPoll<T>(Poll<T>);

/// The due events of one job: a boxed stream of the futures crate, which is
/// kept from the verifier.
#[verifier::external_body]
pub struct DueEvents {
    inner: Pin<Box<dyn Stream<Item = ()>>>,
}

/// The timetable that due events draw their waits from: the cycle of the
/// sequencer that the stream asks, at the offset it asks for next.
pub uninterp spec fn drawn_from(events: DueEvents) -> Cycle;

/// The stream of one job's due events, together with the offsets that it
/// goes by.
pub struct TimerStream {
    timetable: Vec<u8>,
    events: DueEvents,
}

impl View for TimerStream {
    type V = Seq<u8>;

    /// The offsets of the job in ascending order.
    closed spec fn view(&self) -> Seq<u8> {
        self.timetable@
    }
}

impl TimerStream {
    #[verifier::type_invariant]
    spec fn well_formed(self) -> bool {
        self.timetable@ == drawn_from(self.events).offsets
    }

    /// The timetable that the stream draws its waits from, at the offset it
    /// waits for next.
    pub closed spec fn source(&self) -> Cycle {
        drawn_from(self.events)
    }

    /// The offsets of the job in ascending order: those that the stream goes
    /// by.
    pub fn offsets(&self) -> (offsets: &Vec<u8>)
        ensures
            offsets@ == self@,
            offsets@ == self.source().offsets,
    {
        proof {
            use_type_invariant(self);
        }
        &self.timetable
    }
}

impl Stream for TimerStream {
    type Item = ();

    /// `StreamExt::poll_next_unpin` of futures on the boxed stream, which
    /// panics where the stream has to sleep and no tokio runtime with a timer
    /// is current. The offsets are left as they are.
    #[verifier::external_body]
    fn poll_next(mut self: Pin<&mut Self>, cx: &mut Context<'_>) -> Poll<Option<()>> {
        self.events.inner.poll_next_unpin(cx)
    }
}

/// `stream::iter`, `StreamExt::filter_map` and `StreamExt::boxed` of futures
/// over `sleep_until` of tokio: a stream that asks the sequencer for the next
/// wait when it is polled, sleeps until that much time after `Instant::now`
/// has passed, and yields once the sleep is over. Nothing is asked of the
/// sequencer when the stream is made, so the stream draws from the sequencer
/// as it was handed in. The sleep needs tokio's timer: polled outside a
/// runtime with time enabled, it panics.
#[verifier::external_body]
fn timer_gated<F: FnMut() -> u8 + Send + 'static>(sequencer: Sequencer<F>) -> (events: DueEvents)
    requires
        sequencer.wf(),
    ensures
        drawn_from(events) == sequencer@,
{
    let mut sequencer = sequencer;
    let next_offset = std::iter::from_fn(move || sequencer.next()).map(
        |duration| Instant::now() + duration,
    );
    let sleeps = iter(next_offset).filter_map(|instant| sleep_until(instant).map(Some));
    DueEvents { inner: sleeps.boxed() }
}

/// Creates a stream which always yields at the next instant where an offset
/// is reached.
///
/// 1. All offsets in the current period which have already passed are
///    discarded.
/// 2. The offsets for each period are repeated, ad infinitum. For each
///    offset, the time until it is reached is calculated from the current
///    second within the period, as `clock` reports it.
///
/// All calculation for the next offset happens when the stream is polled. If
/// a trigger time is overrun, all triggers until the same trigger time in the
/// next period are discarded. With no offsets the stream ends at once.
///
/// The stream sleeps on tokio's timer: polling a stream with offsets panics
/// where no tokio runtime with time enabled is current.
pub fn make_stream<F: FnMut() -> u8 + Send + 'static>(offsets: Vec<u8>, clock: F) -> (stream:
    TimerStream)
    requires
        call_requires(clock, ()),
    ensures
        stream@ == ascending(offsets@),
        stream@ == stream.source().offsets,
        exists|now: u8| #[trigger]
            call_ensures(clock, (), now) && stream.source() == normalized(offsets@, now),
{
    let sequencer = make_iterator(offsets, clock);
    let timetable = sequencer.timetable().offsets().clone();
    TimerStream { timetable, events: timer_gated(sequencer) }
}

} // verus!
