//! A periodic trigger scheduler: each job has a timetable of offsets within a
//! repeating period, and becomes due once per offset per period.

pub mod cycle;
pub mod offset;
pub mod schedule;
pub mod sequencer;
pub mod timer;
pub mod timetable;

pub use offset::{seconds_till_next_offset, PERIOD};
pub use schedule::{due_event, Schedule};
pub use sequencer::{make_iterator, position_of_reading, second_of_minute, Sequencer};
pub use timer::{make_stream, TimerStream};
pub use timetable::Timetable;
