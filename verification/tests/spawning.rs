use traffic_simulator::engine::ids::SegmentId;
use traffic_simulator::engine::spawning::{spawn_outcome, SpawnOutcome};

#[test]
fn a_spawn_before_its_release_tick_is_not_due() {
    let route = vec![SegmentId(3), SegmentId(4)];
    assert_eq!(spawn_outcome(5, 4, &route, 0, 2), SpawnOutcome::NotDue);
}

#[test]
fn a_due_spawn_without_a_route_has_none() {
    assert_eq!(spawn_outcome(5, 5, &[], 0, 2), SpawnOutcome::NoRoute);
}

#[test]
fn a_due_spawn_waits_while_its_first_segment_is_full() {
    let route = vec![SegmentId(3), SegmentId(4)];
    assert_eq!(spawn_outcome(2, 5, &route, 2, 2), SpawnOutcome::Blocked);
    assert_eq!(spawn_outcome(2, 5, &route, 0, 0), SpawnOutcome::Blocked);
}

#[test]
fn a_due_spawn_with_room_enters_its_first_segment() {
    let route = vec![SegmentId(3), SegmentId(4)];
    assert_eq!(spawn_outcome(5, 5, &route, 1, 2), SpawnOutcome::Enter(SegmentId(3)));
}
