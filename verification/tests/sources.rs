use detonating_dots::source::{Replay, UnitSource};

#[test]
fn replay_hands_out_its_draws_in_order_and_starts_over() {
    let mut source = Replay::new(vec![7, 11, 13]);
    assert_eq!(source.take(), 7);
    assert_eq!(source.take(), 11);
    assert_eq!(source.take(), 13);
    assert_eq!(source.take(), 7);
    assert_eq!(source.next_unit(), 11);
    assert_eq!(source.next_unit(), 13);
    assert_eq!(source.next_unit(), 7);
}

#[test]
fn replay_of_nothing_draws_zero() {
    let mut source = Replay::new(Vec::new());
    assert_eq!(source.take(), 0);
    assert_eq!(source.next_unit(), 0);
    assert_eq!(source.next, 0);
}

#[test]
fn replay_started_beyond_its_end_starts_within() {
    let mut source = Replay { draws: vec![1, 2, 3], next: 7 };
    assert_eq!(source.take(), 2);
    assert_eq!(source.next, 2);
    assert_eq!(source.take(), 3);
    assert_eq!(source.take(), 1);
}
