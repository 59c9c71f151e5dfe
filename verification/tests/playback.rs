use traffic_simulator::playback::{PlaybackControls, SimulationState};

#[test]
fn playback_starts_paused_at_tick_zero() {
    let controls = PlaybackControls::default();
    assert_eq!(controls.state, SimulationState::Paused);
    assert_eq!(controls.current_tick, 0);
    assert_eq!(controls.total_ticks, 10000);
}

#[test]
fn play_and_pause_keep_the_tick() {
    let mut controls = PlaybackControls { state: SimulationState::Paused, current_tick: 4, total_ticks: 10 };
    controls.play();
    assert_eq!(controls, PlaybackControls { state: SimulationState::Running, current_tick: 4, total_ticks: 10 });
    controls.pause();
    assert_eq!(controls, PlaybackControls { state: SimulationState::Paused, current_tick: 4, total_ticks: 10 });
}

#[test]
fn stepping_completes_at_the_last_tick() {
    let mut controls = PlaybackControls { state: SimulationState::Running, current_tick: 0, total_ticks: 3 };
    controls.advance_tick();
    controls.advance_tick();
    assert_eq!(controls.current_tick, 2);
    assert_eq!(controls.state, SimulationState::Running);
    controls.advance_tick();
    assert_eq!(controls.current_tick, 3);
    assert_eq!(controls.state, SimulationState::Completed);
    controls.play();
    controls.advance_tick();
    assert_eq!(controls.current_tick, 3);
    assert_eq!(controls.state, SimulationState::Completed);
}

#[test]
fn reset_goes_back_to_tick_zero_paused() {
    let mut controls = PlaybackControls { state: SimulationState::Completed, current_tick: 3, total_ticks: 3 };
    controls.reset();
    assert_eq!(controls, PlaybackControls { state: SimulationState::Paused, current_tick: 0, total_ticks: 3 });
}
