use chess_mcts::clock::Clock;
use chess_mcts::clock::MAX_SPAN_NANOS;
use chess_mcts::clock::saturating_add_span;
use chess_mcts::clock::saturating_sub_span;

const SECOND: u128 = 1_000_000_000;

fn fresh_clock() -> Clock {
    Clock { increment: 5 * SECOND, white_time_left: 300 * SECOND, black_time_left: 300 * SECOND }
}

#[test]
fn white_update_adds_increment_then_charges_the_move() {
    let mut clock = fresh_clock();
    clock.white_update(12 * SECOND);
    assert_eq!(clock.white_time_left, 293 * SECOND);
    assert_eq!(clock.black_time_left, 300 * SECOND);
    assert_eq!(clock.increment, 5 * SECOND);
}

#[test]
fn black_update_adds_increment_then_charges_the_move() {
    let mut clock = fresh_clock();
    clock.black_update(2 * SECOND);
    assert_eq!(clock.black_time_left, 303 * SECOND);
    assert_eq!(clock.white_time_left, 300 * SECOND);
}

#[test]
fn a_slow_move_empties_the_clock_and_the_flag_falls() {
    let mut clock = fresh_clock();
    assert!(!clock.white_flag());
    clock.white_update(400 * SECOND);
    assert_eq!(clock.white_time_left, 0);
    assert!(clock.white_flag());
    assert!(!clock.black_flag());
}

#[test]
fn a_move_taking_exactly_the_time_left_plus_increment_flags() {
    let mut clock = fresh_clock();
    clock.black_update(305 * SECOND);
    assert!(clock.black_flag());
    let mut other = fresh_clock();
    other.black_update(305 * SECOND - 1);
    assert!(!other.black_flag());
    assert_eq!(other.black_time_left, 1);
}

#[test]
fn a_free_move_gains_the_increment() {
    let mut clock = fresh_clock();
    clock.white_update(0);
    assert_eq!(clock.white_time_left, 305 * SECOND);
}

#[test]
fn time_left_saturates_at_the_largest_duration() {
    let mut clock = Clock { increment: 5 * SECOND, white_time_left: MAX_SPAN_NANOS - SECOND, black_time_left: 0 };
    clock.white_update(0);
    assert_eq!(clock.white_time_left, MAX_SPAN_NANOS);
    assert_eq!(MAX_SPAN_NANOS, std::time::Duration::MAX.as_nanos());
}

#[test]
fn span_arithmetic_saturates_like_duration() {
    let a = std::time::Duration::new(7, 900_000_000);
    let b = std::time::Duration::new(3, 200_000_000);
    assert_eq!(saturating_add_span(a.as_nanos(), b.as_nanos()), a.saturating_add(b).as_nanos());
    assert_eq!(saturating_sub_span(a.as_nanos(), b.as_nanos()), a.saturating_sub(b).as_nanos());
    assert_eq!(saturating_sub_span(b.as_nanos(), a.as_nanos()), 0);
    let max = std::time::Duration::MAX;
    assert_eq!(saturating_add_span(max.as_nanos(), b.as_nanos()), max.saturating_add(b).as_nanos());
}
