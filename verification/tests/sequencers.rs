use std::time::Duration;
use stream::{make_iterator, position_of_reading, second_of_minute};

fn second_of_minute_mock<const N: usize>(seconds: [u8; N]) -> impl FnMut() -> u8 {
    // prepend a zero for the initial "where are we in the period" check.
    let mut iter = std::iter::once(0).chain(seconds);
    move || iter.next().unwrap()
}

#[test]
fn makes_iterator_with_increasing_offset_durations() {
    let mut offsets = make_iterator(vec![1, 2, 3], || 0);
    let one = offsets.next().unwrap();
    let two = offsets.next().unwrap();
    let three = offsets.next().unwrap();
    assert_eq!(one, Duration::from_secs(1));
    assert_eq!(two, Duration::from_secs(2));
    assert_eq!(three, Duration::from_secs(3));
}

#[test]
fn makes_iterator_which_sorts_the_offsets() {
    let mut offsets = make_iterator(vec![3, 1, 2], || 0);
    assert_eq!(offsets.next(), Some(Duration::from_secs(1)));
    assert_eq!(offsets.next(), Some(Duration::from_secs(2)));
    assert_eq!(offsets.next(), Some(Duration::from_secs(3)));
    assert_eq!(offsets.next(), Some(Duration::from_secs(1)));
}

#[test]
fn makes_iterator_which_shows_its_timetable() {
    let offsets = make_iterator(vec![3, 1, 2, 1], || 0);
    assert_eq!(offsets.timetable().offsets(), &vec![1, 1, 2, 3]);
    assert!(!offsets.timetable().is_empty());
}

#[test]
fn makes_iterator_which_asks_the_clock_for_each_wait() {
    let mut offsets = make_iterator(vec![10, 20, 30], second_of_minute_mock([0, 10, 20]));
    assert_eq!(offsets.next(), Some(Duration::from_secs(10)));
    assert_eq!(offsets.next(), Some(Duration::from_secs(10)));
    assert_eq!(offsets.next(), Some(Duration::from_secs(10)));
}

#[test]
fn makes_iterator_which_skips_passed_offsets() {
    let mut clock = [25u8, 25, 30, 59, 10].into_iter();
    let mut offsets = make_iterator(vec![10, 20, 30], move || clock.next().unwrap());
    assert_eq!(offsets.next(), Some(Duration::from_secs(5)));
    assert_eq!(offsets.next(), Some(Duration::from_secs(40)));
    assert_eq!(offsets.next(), Some(Duration::from_secs(21)));
    assert_eq!(offsets.next(), Some(Duration::from_secs(20)));
}

#[test]
fn makes_iterator_which_does_not_catch_up_after_an_overrun() {
    // the second demand comes late, after the offsets 20 and 30 have passed.
    let mut offsets = make_iterator(vec![10, 20, 30], second_of_minute_mock([0, 35, 20]));
    assert_eq!(offsets.next(), Some(Duration::from_secs(10)));
    assert_eq!(offsets.next(), Some(Duration::from_secs(45)));
    assert_eq!(offsets.next(), Some(Duration::from_secs(10)));
}

#[test]
fn first_round_of_waits_ascends_and_holds_every_offset_once() {
    let offsets = vec![50, 5, 25, 5, 59, 0, 31];
    for now in 0..60u8 {
        let mut iterator = make_iterator(offsets.clone(), move || now);
        let mut round = Vec::new();
        for _ in 0..offsets.len() {
            round.push(iterator.next().unwrap());
        }
        assert!(round.windows(2).all(|pair| pair[0] <= pair[1]));
        let mut expected: Vec<Duration> = offsets
            .iter()
            .map(|offset| Duration::from_secs(u64::from((offset + 60 - now) % 60)))
            .collect();
        expected.sort();
        assert_eq!(round, expected);
    }
}

#[test]
fn makes_iterator_which_waits_nothing_at_the_offset() {
    let mut offsets = make_iterator(vec![7], || 7);
    assert_eq!(offsets.next(), Some(Duration::ZERO));
    assert_eq!(offsets.next(), Some(Duration::ZERO));
}

#[test]
fn makes_iterator_without_offsets_which_yields_nothing() {
    // the clock is asked once, when the iterator is made, and never again.
    let mut offsets = make_iterator(vec![], second_of_minute_mock([]));
    assert_eq!(offsets.next(), None);
    assert_eq!(offsets.next(), None);
    assert_eq!(offsets.next(), None);
}

#[test]
fn position_is_the_reading_of_the_second() {
    assert_eq!(position_of_reading(0), 0);
    assert_eq!(position_of_reading(1), 1);
    assert_eq!(position_of_reading(59), 59);
    assert_eq!(position_of_reading(255), 255);
}

#[test]
fn second_of_minute_is_within_the_period() {
    for _ in 0..100 {
        assert!(second_of_minute() < 60);
    }
}

#[test]
fn makes_iterator_against_the_wall_clock() {
    let mut offsets = make_iterator((0..60).collect(), second_of_minute);
    for _ in 0..120 {
        // every second is an offset, so the next one is at most a second away,
        // or a minute less a second where the clock went on in between.
        let wait = offsets.next().unwrap();
        assert!(wait < Duration::from_secs(60));
    }
}
