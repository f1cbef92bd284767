//! The schedule: the streams of many jobs, merged into one stream of the
//! identifiers of the jobs that come due.

use crate::cycle::{normalized, Cycle};
use crate::offset::PERIOD;
use crate::sequencer::second_of_minute;
use crate::timer::{make_stream, TimerStream};
use futures::StreamExt;
use std::task::{Context, Poll};
use tokio_stream::StreamMap;
use vstd::prelude::*;

verus! {

/// `StreamMap` of tokio-stream, carried through as it is.
#[verifier::external_type_specification]
#[verifier::external_body]
#[verifier::reject_recursive_types(K)]
#[verifier::reject_recursive_types(V)]
pub struct ExStreamMap<K, V>(StreamMap<K, V>);

/// What a `StreamMap` holds: the keys, each with the timetable that the
/// stream held under it draws from, at the offset it waits for next.
pub uninterp spec fn stream_timetables(map: StreamMap<u64, TimerStream>) -> Map<u64, Cycle>;

/// The jobs of a schedule that holds none.
pub open spec fn no_jobs() -> Map<u64, Cycle> {
    Map::empty()
}

/// The jobs of a schedule once the job `id` has been added to `jobs` with the
/// cycle `timetable`, in place of any job that `jobs` held under `id`. Every
/// other job is as it was, at its place in its own timetable.
pub open spec fn with_job(jobs: Map<u64, Cycle>, id: u64, timetable: Cycle) -> Map<u64, Cycle> {
    jobs.insert(id, timetable)
}

/// The jobs of a schedule once the job `id` has been removed from `jobs`.
/// Every other job is as it was, at its place in its own timetable.
pub open spec fn without_job(jobs: Map<u64, Cycle>, id: u64) -> Map<u64, Cycle> {
    jobs.remove(id)
}

/// Whether `jobs` holds the job `id`, and with at least one offset.
pub open spec fn has_offsets(jobs: Map<u64, Cycle>, id: u64) -> bool {
    jobs.contains_key(id) && jobs[id].offsets.len() > 0
}

/// What a poll may make of the jobs `before`: no job comes in; a job that
/// stays keeps its offsets, while its place among them may move on; and every
/// job that has offsets stays. Only a job without offsets may leave, as its
/// stream ends when it is first polled.
pub open spec fn polled(before: Map<u64, Cycle>, after: Map<u64, Cycle>) -> bool {
    &&& forall|id: u64| #[trigger]
        after.contains_key(id) ==> before.contains_key(id) && after[id].offsets
            == before[id].offsets
    &&& forall|id: u64| #[trigger] has_offsets(before, id) ==> after.contains_key(id)
}

/// The event that the schedule hands out for what its map reports: the
/// identifier of the job that came due; `Pending` where no job is due, and
/// also where the map holds no stream any more and reports its end.
pub open spec fn handed_on(reported: Poll<Option<(u64, ())>>) -> Poll<Option<u64>> {
    match reported {
        Poll::Ready(Some(entry)) => Poll::Ready(Some(entry.0)),
        Poll::Ready(None) => Poll::Pending,
        Poll::Pending => Poll::Pending,
    }
}

/// Adding a job and removing it again leaves a schedule that does not hold
/// the job, whether it held one under that identifier before or not, and
/// that holds every other job exactly if it held it before, with the same
/// timetable and at the same place in it. Only jobs that the schedule holds
/// are handed out as due, so the job gets no further event.
pub proof fn lemma_add_then_remove(jobs: Map<u64, Cycle>, id: u64, timetable: Cycle)
    ensures
        without_job(with_job(jobs, id, timetable), id) == without_job(jobs, id),
        !without_job(with_job(jobs, id, timetable), id).contains_key(id),
        forall|other: u64|
            other != id ==> (#[trigger] without_job(with_job(jobs, id, timetable), id).contains_key(
                other,
            ) <==> jobs.contains_key(other)),
        forall|other: u64|
            other != id && jobs.contains_key(other) ==> #[trigger] without_job(
                with_job(jobs, id, timetable),
                id,
            )[other] == jobs[other],
{
}

/// A poll leaves the jobs and their offsets as they are where every job has
/// offsets.
pub proof fn lemma_poll_keeps_jobs_with_offsets(before: Map<u64, Cycle>, after: Map<u64, Cycle>)
    requires
        polled(before, after),
        forall|id: u64| before.contains_key(id) ==> #[trigger] has_offsets(before, id),
    ensures
        after.dom() == before.dom(),
        forall|id: u64| before.contains_key(id) ==> #[trigger] after[id].offsets == before[id].offsets,
{
    assert forall|id: u64| before.contains_key(id) implies after.contains_key(id) by {
        assert(has_offsets(before, id));
    }
    assert(after.dom() =~= before.dom());
}

/// A job that the schedule does not hold, or holds without offsets, is in no
/// better place after a poll: no poll brings it in or gives it offsets. A
/// poll hands out only jobs that had offsets before it, so such a job gets no
/// event, however often the schedule is polled.
pub proof fn lemma_poll_gives_no_offsets(before: Map<u64, Cycle>, after: Map<u64, Cycle>, id: u64)
    requires
        polled(before, after),
        !has_offsets(before, id),
    ensures
        !has_offsets(after, id),
{
    if after.contains_key(id) {
        assert(after[id].offsets == before[id].offsets);
    }
}

/// The jobs of a process, each with the stream of its due events.
pub struct Schedule {
    map: StreamMap<u64, TimerStream>,
}

impl View for Schedule {
    type V = Map<u64, Cycle>;

    /// The jobs that the schedule holds, each with its offsets in ascending
    /// order and the place among them of the offset it waits for next.
    closed spec fn view(&self) -> Map<u64, Cycle> {
        stream_timetables(self.map)
    }
}

/// `StreamMap::new` of tokio-stream: a map that holds no stream.
#[verifier::external_body]
fn stream_map_new() -> (map: StreamMap<u64, TimerStream>)
    ensures
        stream_timetables(map) == no_jobs(),
{
    StreamMap::new()
}

/// `StreamMap::insert` of tokio-stream: the stream is held under `id`
/// afterwards; a stream that was held under `id` before leaves the map and is
/// returned; every other key keeps its stream. No stream is polled, so each
/// is at the place in its timetable where it was.
#[verifier::external_body]
fn stream_map_insert(schedule: &mut Schedule, id: u64, stream: TimerStream) -> (replaced: Option<
    TimerStream,
>)
    ensures
        final(schedule)@ == old(schedule)@.insert(id, stream.source()),
        final(schedule)@.dom().finite(),
        match replaced {
            Some(previous) => old(schedule)@.contains_key(id) && previous.source() == old(
                schedule,
            )@[id],
            None => !old(schedule)@.contains_key(id),
        },
{
    schedule.map.insert(id, stream)
}

/// `StreamMap::remove` of tokio-stream: the stream held under `id` leaves the
/// map and is returned, `None` where there is none; every other key keeps its
/// stream. No stream is polled, so each is at the place in its timetable where
/// it was.
#[verifier::external_body]
fn stream_map_remove(schedule: &mut Schedule, id: &u64) -> (removed: Option<TimerStream>)
    ensures
        final(schedule)@ == old(schedule)@.remove(*id),
        final(schedule)@.dom().finite(),
        match removed {
            Some(stream) => old(schedule)@.contains_key(*id) && stream.source() == old(
                schedule,
            )@[*id],
            None => !old(schedule)@.contains_key(*id),
        },
{
    schedule.map.remove(id)
}

/// `StreamExt::poll_next_unpin` of futures on a `StreamMap`, which polls the
/// streams it holds, starting at one picked at random. A stream that has ended
/// leaves the map, which only the stream of a job without offsets does; the
/// others stay under their keys, and no key comes in. A key that is handed
/// out is still held, and its stream has yielded, which only the stream of a
/// job with offsets does. The end is reported by a map that holds no stream
/// any more, and by no other. Which of several ready streams is handed out is
/// not known. A stream that has to sleep panics where no tokio runtime with a
/// timer is current.
#[verifier::external_body]
fn stream_map_poll(schedule: &mut Schedule, cx: &mut Context<'_>) -> (reported: Poll<
    Option<(u64, ())>,
>)
    ensures
        polled(old(schedule)@, final(schedule)@),
        final(schedule)@.dom().finite(),
        reported matches Poll::Ready(Some(entry)) ==> has_offsets(old(schedule)@, entry.0)
            && has_offsets(final(schedule)@, entry.0),
        (reported matches Poll::Ready(None)) <==> final(schedule)@ == no_jobs(),
{
    schedule.map.poll_next_unpin(cx)
}

/// Hands on what the map of streams reports: the identifier of the job that
/// came due, without the unit that its stream yielded. The end of the map is
/// no end of the schedule, which only waits for a job to be added: it is
/// handed on as `Pending`.
pub fn due_event(reported: Poll<Option<(u64, ())>>) -> (event: Poll<Option<u64>>)
    ensures
        event == handed_on(reported),
{
    match reported {
        Poll::Ready(Some((id, ()))) => Poll::Ready(Some(id)),
        Poll::Ready(None) => Poll::Pending,
        Poll::Pending => Poll::Pending,
    }
}

impl Schedule {
    /// A schedule holds finitely many jobs.
    #[verifier::type_invariant]
    pub open spec fn well_formed(self) -> bool {
        self@.dom().finite()
    }

    /// A schedule without jobs.
    pub fn empty() -> (schedule: Self)
        ensures
            schedule@ == no_jobs(),
            schedule@.dom().finite(),
    {
        Self { map: stream_map_new() }
    }

    /// Adds the job `id` with the given offsets, read against the wall clock:
    /// its stream starts afresh, at the first offset that has not passed at
    /// the second the clock reports now. A job that the schedule held under
    /// `id` is replaced, and what it was waiting for is dropped. Every other
    /// job keeps its stream, at its place in its timetable.
    pub fn add_timetable(&mut self, id: u64, offsets: Vec<u8>)
        ensures
            exists|now: u8|
                now < PERIOD && final(self)@ == #[trigger] with_job(
                    old(self)@,
                    id,
                    normalized(offsets@, now),
                ),
            final(self)@.dom().finite(),
    {
        proof {
            use_type_invariant(&*self);
        }
        let stream = make_stream(offsets, second_of_minute);
        proof {
            let now = choose|now: u8| #[trigger]
                call_ensures(second_of_minute, (), now) && stream.source() == normalized(
                    offsets@,
                    now,
                );
            assert(now < PERIOD);
            assert(old(self)@.insert(id, stream.source()) == with_job(
                old(self)@,
                id,
                normalized(offsets@, now),
            ));
        }
        let _ = stream_map_insert(self, id, stream);
    }

    /// Takes the job `id` out of the schedule and returns its stream, as it
    /// stood in the schedule; `None` where the schedule holds no such job,
    /// and the schedule is then as it was. Every other job keeps its stream,
    /// at its place in its timetable.
    pub fn remove_timetable(&mut self, id: &u64) -> (removed: Option<TimerStream>)
        ensures
            final(self)@ == without_job(old(self)@, *id),
            final(self)@.dom().finite(),
            !old(self)@.contains_key(*id) ==> final(self)@ == old(self)@,
            match removed {
                Some(stream) => old(self)@.contains_key(*id) && stream.source() == old(self)@[*id],
                None => !old(self)@.contains_key(*id),
            },
    {
        proof {
            use_type_invariant(&*self);
        }
        stream_map_remove(self, id)
    }

    /// Asks for the next due event without waiting: the identifier of a job
    /// that has come due, which is a job with offsets that the schedule still
    /// holds; `Pending` where none has. The end is never reported: a schedule
    /// without jobs answers `Pending`, and hands out events again once a job
    /// has been added. A job without offsets leaves the schedule when it is
    /// polled, as its stream has ended; every other job stays, with its
    /// offsets, and may move on to the offset it waits for next.
    ///
    /// The streams sleep on tokio's timer: where the schedule holds a job
    /// with offsets, the poll panics unless a tokio runtime with time enabled
    /// is current.
    pub fn poll_next(&mut self, cx: &mut Context<'_>) -> (event: Poll<Option<u64>>)
        ensures
            polled(old(self)@, final(self)@),
            final(self)@.dom().finite(),
            event matches Poll::Ready(Some(id)) ==> has_offsets(old(self)@, id) && has_offsets(
                final(self)@,
                id,
            ),
            !(event matches Poll::Ready(None)),
            final(self)@ == no_jobs() ==> event matches Poll::Pending,
    {
        proof {
            use_type_invariant(&*self);
        }
        let reported = stream_map_poll(self, cx);
        due_event(reported)
    }
}

} // verus!
