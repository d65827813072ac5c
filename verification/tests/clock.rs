use actor_kit::sim::clock::micros_of;
use actor_kit::sim::{SimClock, SimInstant};
use std::time::Duration;

#[test]
fn clock_moves_only_when_advanced() {
    let mut clock = SimClock::new();
    assert_eq!(clock.now(), SimInstant::epoch());
    assert_eq!(
        clock.now(),
        SimInstant::epoch(),
        "reading must not advance time"
    );
    let t = clock.advance(Duration::from_millis(5));
    assert_eq!(t.as_micros(), 5_000);
    assert_eq!(clock.now().as_micros(), 5_000);
}

#[test]
fn instant_arithmetic_saturates() {
    let t = SimClock::with_start(u64::MAX).now();
    let later = t + Duration::from_secs(1_000);
    assert_eq!(later.as_micros(), u64::MAX);
    assert_eq!(
        later.duration_since(SimInstant::epoch()),
        Duration::from_micros(u64::MAX)
    );
}

#[test]
fn duration_since_and_sub() {
    let a = SimClock::with_start(1_000).now();
    let b = SimClock::with_start(1_500).now();
    assert_eq!(b - a, Duration::from_micros(500));
    assert_eq!(a.duration_since(b), Duration::ZERO, "saturating");
}

#[test]
fn adding_and_taking_the_difference_gives_the_duration_back() {
    let t = SimClock::with_start(77).now();
    let d = Duration::from_micros(123_456);
    assert_eq!((t + d) - t, d);
    assert_eq!((t + d).as_micros(), 123_533);
    assert_eq!(t.duration_since(t + d), Duration::ZERO);
}

#[test]
fn durations_are_cut_to_microseconds_and_held_at_the_last() {
    assert_eq!(micros_of(Duration::from_nanos(1_999)), 1);
    assert_eq!(micros_of(Duration::from_millis(1)), 1_000);
    assert_eq!(micros_of(Duration::from_secs(u64::MAX)), u64::MAX);
}

#[test]
fn the_clock_holds_at_the_last_microsecond() {
    let mut clock = SimClock::with_start(u64::MAX - 1);
    assert_eq!(clock.advance(Duration::from_secs(1)).as_micros(), u64::MAX);
    assert_eq!(clock.now().as_micros(), u64::MAX);
    assert_eq!(clock.elapsed(), Duration::from_micros(u64::MAX));
}

#[test]
fn elapsed_counts_from_the_epoch() {
    let mut clock = SimClock::default();
    assert_eq!(clock.elapsed(), Duration::ZERO);
    clock.advance(Duration::from_millis(2));
    clock.advance(Duration::from_micros(3));
    assert_eq!(clock.elapsed(), Duration::from_micros(2_003));
    assert_eq!(SimInstant::default(), SimInstant::epoch());
}
