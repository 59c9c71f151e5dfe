use traffic_simulator::clock::FixedStepClock;

const MILLI: u64 = 1_000_000;

// Two steps a second: one step every 500 ms.
fn step_at_two_per_second() -> Option<u64> {
    Some((1.0e9_f64 / 2.0_f64) as u64)
}

#[test]
fn drains_steps_from_real_time() {
    let start = 0;
    let mut clock = FixedStepClock::new(start);

    let half_second_later = start + 500 * MILLI;
    assert_eq!(clock.drain_steps(half_second_later, true, step_at_two_per_second()), 1);

    let one_second_later = half_second_later + 500 * MILLI;
    assert_eq!(clock.drain_steps(one_second_later, true, step_at_two_per_second()), 1);
}

#[test]
fn accumulates_leftover_time_between_frames() {
    let start = 0;
    let mut clock = FixedStepClock::new(start);

    let later = start + 1100 * MILLI;
    assert_eq!(clock.drain_steps(later, true, step_at_two_per_second()), 2);

    let next = later + 400 * MILLI;
    assert_eq!(clock.drain_steps(next, true, step_at_two_per_second()), 1);
}

#[test]
fn paused_clock_does_not_accumulate_time() {
    let start = 0;
    let mut clock = FixedStepClock::new(start);

    let paused_time = start + 1000 * MILLI;
    assert_eq!(clock.drain_steps(paused_time, false, step_at_two_per_second()), 0);

    let resumed_time = paused_time + 500 * MILLI;
    assert_eq!(clock.drain_steps(resumed_time, true, step_at_two_per_second()), 1);
}

#[test]
fn exposes_partial_step_progress_for_rendering() {
    let start = 0;
    let mut clock = FixedStepClock::new(start);

    let midway = start + 250 * MILLI;
    assert_eq!(clock.drain_steps(midway, true, step_at_two_per_second()), 0);

    let alpha = clock.accumulator() as f64 / step_at_two_per_second().unwrap() as f64;
    assert!((alpha - 0.5).abs() < 1e-6);
}

#[test]
fn reset_drops_the_gathered_time() {
    let mut clock = FixedStepClock::new(0);
    assert_eq!(clock.drain_steps(300 * MILLI, true, step_at_two_per_second()), 0);
    assert_eq!(clock.accumulator(), 300 * MILLI);
    clock.reset(1000 * MILLI);
    assert_eq!(clock.accumulator(), 0);
    assert_eq!(clock.last_instant(), 1000 * MILLI);
    assert_eq!(clock.drain_steps(1400 * MILLI, true, step_at_two_per_second()), 0);
}

#[test]
fn unusable_rate_gathers_nothing() {
    let mut clock = FixedStepClock::new(0);
    assert_eq!(clock.drain_steps(2000 * MILLI, true, None), 0);
    assert_eq!(clock.accumulator(), 0);
    assert_eq!(clock.last_instant(), 2000 * MILLI);
}

#[test]
fn time_running_backwards_counts_as_none() {
    let mut clock = FixedStepClock::new(1000 * MILLI);
    assert_eq!(clock.drain_steps(500 * MILLI, true, step_at_two_per_second()), 0);
    assert_eq!(clock.accumulator(), 0);
}
