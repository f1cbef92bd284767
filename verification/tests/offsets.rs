use stream::{seconds_till_next_offset, PERIOD};

#[test]
fn should_calculate_seconds_till_next_offset() {
    assert_eq!(seconds_till_next_offset(5, 10), 5);
    assert_eq!(seconds_till_next_offset(10, 5), 55);
}

#[test]
fn waits_nothing_at_the_offset_itself() {
    for second in 0..PERIOD {
        assert_eq!(seconds_till_next_offset(second, second), 0);
    }
}

#[test]
fn wait_stays_within_the_period() {
    for now in 0..=u8::MAX {
        for offset in 0..=u8::MAX {
            assert!(seconds_till_next_offset(now, offset) < PERIOD);
        }
    }
}

#[test]
fn wait_leads_to_the_offset() {
    for now in 0..PERIOD {
        for offset in 0..PERIOD {
            let wait = seconds_till_next_offset(now, offset);
            assert_eq!((now + wait) % PERIOD, offset);
            if offset >= now {
                assert_eq!(now + wait, offset);
            } else {
                assert_eq!(now + wait, offset + PERIOD);
            }
        }
    }
}

#[test]
fn wait_wraps_at_the_edges_of_the_period() {
    assert_eq!(seconds_till_next_offset(59, 0), 1);
    assert_eq!(seconds_till_next_offset(0, 59), 59);
    assert_eq!(seconds_till_next_offset(59, 58), 59);
}

#[test]
fn positions_outside_the_period_count_by_their_remainder() {
    assert_eq!(seconds_till_next_offset(0, 70), 10);
    assert_eq!(seconds_till_next_offset(65, 10), 5);
    assert_eq!(seconds_till_next_offset(255, 255), 0);
    assert_eq!(seconds_till_next_offset(255, 0), 45);
    assert_eq!(seconds_till_next_offset(200, 0), 40);
}
