use stream::Timetable;

fn take(timetable: &mut Timetable, count: usize) -> Vec<u8> {
    let mut taken = Vec::new();
    for _ in 0..count {
        taken.push(timetable.next_offset().unwrap());
    }
    taken
}

#[test]
fn normalize_sorts_the_offsets() {
    let mut timetable = Timetable::normalize(vec![30, 10, 20], 0);
    assert_eq!(take(&mut timetable, 3), vec![10, 20, 30]);
}

#[test]
fn normalize_shows_the_sorted_offsets() {
    assert_eq!(Timetable::normalize(vec![30, 10, 20], 25).offsets(), &vec![10, 20, 30]);
}

#[test]
fn normalize_keeps_a_sorted_timetable_in_order() {
    let mut timetable = Timetable::normalize(vec![10, 20, 30], 0);
    assert_eq!(take(&mut timetable, 3), vec![10, 20, 30]);
}

#[test]
fn normalize_repeats_the_offsets_forever() {
    let mut timetable = Timetable::normalize(vec![3, 1, 2], 0);
    assert_eq!(take(&mut timetable, 8), vec![1, 2, 3, 1, 2, 3, 1, 2]);
}

#[test]
fn normalize_skips_offsets_that_have_passed_once() {
    let mut timetable = Timetable::normalize(vec![30, 10, 20], 15);
    assert_eq!(take(&mut timetable, 7), vec![20, 30, 10, 20, 30, 10, 20]);
}

#[test]
fn normalize_keeps_the_offset_that_is_due_now() {
    let mut timetable = Timetable::normalize(vec![30, 10, 20], 20);
    assert_eq!(take(&mut timetable, 4), vec![20, 30, 10, 20]);
}

#[test]
fn normalize_starts_over_when_every_offset_has_passed() {
    let mut timetable = Timetable::normalize(vec![3, 1, 2], 10);
    assert_eq!(take(&mut timetable, 4), vec![1, 2, 3, 1]);
}

#[test]
fn normalize_keeps_duplicates() {
    let mut timetable = Timetable::normalize(vec![5, 7, 5], 6);
    assert_eq!(take(&mut timetable, 5), vec![7, 5, 5, 7, 5]);
}

#[test]
fn empty_timetable_never_comes_due() {
    let mut timetable = Timetable::normalize(vec![], 0);
    assert!(timetable.is_empty());
    for now in 0..5 {
        assert_eq!(timetable.next_offset(), None);
        assert_eq!(timetable.next_wait(now), None);
    }
}

#[test]
fn timetable_with_offsets_is_not_empty() {
    assert!(!Timetable::normalize(vec![0], 59).is_empty());
}

#[test]
fn single_offset_comes_due_every_period() {
    let mut timetable = Timetable::normalize(vec![42], 50);
    assert_eq!(take(&mut timetable, 3), vec![42, 42, 42]);
}

#[test]
fn next_wait_counts_from_the_given_position() {
    let mut timetable = Timetable::normalize(vec![10, 20, 30], 0);
    assert_eq!(timetable.next_wait(0), Some(10));
    assert_eq!(timetable.next_wait(10), Some(10));
    assert_eq!(timetable.next_wait(25), Some(5));
    assert_eq!(timetable.next_wait(30), Some(40));
    assert_eq!(timetable.next_wait(20), Some(0));
    assert_eq!(timetable.next_wait(31), Some(59));
}

#[test]
fn first_wait_reaches_the_smallest_offset_not_yet_passed() {
    let mut timetable = Timetable::normalize(vec![30, 10, 20], 15);
    assert_eq!(15 + timetable.next_wait(15).unwrap(), 20);
}

#[test]
fn first_wait_reaches_the_smallest_offset_of_the_next_period() {
    let mut timetable = Timetable::normalize(vec![30, 10, 20], 45);
    assert_eq!(45 + timetable.next_wait(45).unwrap(), 10 + 60);
}

#[test]
fn first_wait_is_the_next_offset_at_every_position() {
    let offsets = vec![50, 5, 25, 5, 59, 0];
    for now in 0..60u8 {
        let mut timetable = Timetable::normalize(offsets.clone(), now);
        let reached = u16::from(now) + u16::from(timetable.next_wait(now).unwrap());
        let remaining = offsets.iter().filter(|offset| **offset >= now).min();
        match remaining {
            Some(offset) => assert_eq!(reached, u16::from(*offset)),
            None => assert_eq!(reached, u16::from(*offsets.iter().min().unwrap()) + 60),
        }
    }
}
