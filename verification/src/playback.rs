//! Playback of a run in a front end: play, pause, step and reset, up to a
//! last tick.
use vstd::prelude::*;

verus! {

/// Whether a run plays, waits, or has reached its last tick.
#[derive(Clone, Copy, Debug, PartialEq, Eq, Structural)]
pub enum SimulationState {
    Paused,
    Running,
    Completed,
}

/// Where playback stands: its state, the tick it has reached and the last
/// tick of the run. How fast it plays is the front end's business.
#[derive(Clone, Copy, Debug, PartialEq, Eq, Structural)]
pub struct PlaybackControls {
    pub state: SimulationState,
    pub current_tick: u64,
    pub total_ticks: u64,
}

/// The playback one tick later: the tick moves on while the last tick is
/// ahead, and playback completes on reaching it, or on a step past it.
pub open spec fn advanced(p: PlaybackControls) -> PlaybackControls {
    if p.current_tick < p.total_ticks {
        let next = PlaybackControls { current_tick: (p.current_tick + 1) as u64, ..p };
        if next.current_tick >= p.total_ticks {
            PlaybackControls { state: SimulationState::Completed, ..next }
        } else {
            next
        }
    } else {
        PlaybackControls { state: SimulationState::Completed, ..p }
    }
}

/// The playback `n` ticks later.
pub open spec fn advanced_times(p: PlaybackControls, n: nat) -> PlaybackControls
    decreases n,
{
    if n == 0 {
        p
    } else {
        advanced_times(advanced(p), (n - 1) as nat)
    }
}

impl Default for PlaybackControls {
    /// Paused at tick zero of a run of ten thousand ticks.
    fn default() -> (controls: Self)
        ensures
            controls == (PlaybackControls {
                state: SimulationState::Paused,
                current_tick: 0,
                total_ticks: 10000,
            }),
    {
        PlaybackControls { state: SimulationState::Paused, current_tick: 0, total_ticks: 10000 }
    }
}

impl PlaybackControls {
    /// Starts playing, from wherever playback stands.
    pub fn play(&mut self)
        ensures
            *final(self) == (PlaybackControls { state: SimulationState::Running, ..*old(self) }),
    {
        self.state = SimulationState::Running;
    }

    /// Stops playing, keeping the tick reached.
    pub fn pause(&mut self)
        ensures
            *final(self) == (PlaybackControls { state: SimulationState::Paused, ..*old(self) }),
    {
        self.state = SimulationState::Paused;
    }

    /// Moves on by one tick, completing playback at the last tick.
    pub fn advance_tick(&mut self)
        ensures
            *final(self) == advanced(*old(self)),
    {
        if self.current_tick < self.total_ticks {
            self.current_tick = self.current_tick + 1;
            if self.current_tick >= self.total_ticks {
                self.state = SimulationState::Completed;
            }
        } else {
            self.state = SimulationState::Completed;
        }
    }

    /// Goes back to tick zero, paused.
    pub fn reset(&mut self)
        ensures
            *final(self) == (PlaybackControls {
                state: SimulationState::Paused,
                current_tick: 0,
                ..*old(self)
            }),
    {
        self.current_tick = 0;
        self.state = SimulationState::Paused;
    }
}

/// Playback never passes the last tick: from any tick at or before it, any
/// number of steps leaves it at or before the last tick, with the last tick
/// unchanged.
pub proof fn lemma_never_past_last_tick(p: PlaybackControls, n: nat)
    requires
        p.current_tick <= p.total_ticks,
    ensures
        advanced_times(p, n).current_tick <= p.total_ticks,
        advanced_times(p, n).total_ticks == p.total_ticks,
    decreases n,
{
    if n > 0 {
        lemma_never_past_last_tick(advanced(p), (n - 1) as nat);
    }
}

/// Stepping as many times as there are ticks left, and at least once,
/// reaches the last tick and completes playback.
pub proof fn lemma_steps_to_completion(p: PlaybackControls, n: nat)
    requires
        p.current_tick <= p.total_ticks,
        n >= p.total_ticks - p.current_tick,
        n >= 1,
    ensures
        advanced_times(p, n).current_tick == p.total_ticks,
        advanced_times(p, n).state == SimulationState::Completed,
    decreases n,
{
    let q = advanced(p);
    if n == 1 {
        assert(advanced_times(q, 0) == q);
    } else {
        lemma_steps_to_completion(q, (n - 1) as nat);
    }
}

} // verus!
