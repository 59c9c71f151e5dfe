//! Fixed-timing traffic signals that cycle red, green, yellow.
use vstd::prelude::*;
use vstd::string::*;
use crate::text::{decimal_usize, spec_decimal};
use super::events::{EventKind, SimulationEvent};
use super::ids::{NodeId, SignalId};
use super::state::SignalPhase;
use super::validation::{id_string, id_text};

verus! {

/// How many ticks each light of a signal lasts.
#[derive(Clone, Copy, Debug, PartialEq, Eq, Structural)]
pub struct SignalTiming {
    pub green_ticks: u32,
    pub yellow_ticks: u32,
    pub red_ticks: u32,
}

/// A signal at a node, with the light it shows and the ticks it has shown
/// it for.
#[derive(Clone, Copy, Debug, PartialEq, Eq, Structural)]
pub struct TrafficSignal {
    pub id: SignalId,
    pub node: NodeId,
    pub timing: SignalTiming,
    pub phase: SignalPhase,
    pub phase_tick: u32,
}

/// How many ticks a light lasts: its timing, and at least one tick.
pub open spec fn phase_limit(timing: SignalTiming, phase: SignalPhase) -> u32 {
    let ticks = match phase {
        SignalPhase::Green => timing.green_ticks,
        SignalPhase::Yellow => timing.yellow_ticks,
        SignalPhase::Red => timing.red_ticks,
    };
    if ticks < 1 {
        1
    } else {
        ticks
    }
}

/// The light that follows: red turns green, green turns yellow, yellow
/// turns red.
pub open spec fn next_phase(phase: SignalPhase) -> SignalPhase {
    match phase {
        SignalPhase::Red => SignalPhase::Green,
        SignalPhase::Green => SignalPhase::Yellow,
        SignalPhase::Yellow => SignalPhase::Red,
    }
}

/// The signal one tick later: the light has lasted one tick more, and once
/// it has lasted its limit the next light starts.
pub open spec fn advanced(s: TrafficSignal) -> TrafficSignal {
    if s.phase_tick + 1 >= phase_limit(s.timing, s.phase) {
        TrafficSignal { phase: next_phase(s.phase), phase_tick: 0, ..s }
    } else {
        TrafficSignal { phase_tick: (s.phase_tick + 1) as u32, ..s }
    }
}

/// The signal `n` ticks later.
pub open spec fn advanced_times(s: TrafficSignal, n: nat) -> TrafficSignal
    decreases n,
{
    if n == 0 {
        s
    } else {
        advanced_times(advanced(s), (n - 1) as nat)
    }
}

/// The ticks of one full round of the three lights.
pub open spec fn cycle_length(timing: SignalTiming) -> nat {
    (phase_limit(timing, SignalPhase::Red) + phase_limit(timing, SignalPhase::Green)
        + phase_limit(timing, SignalPhase::Yellow)) as nat
}

/// The light has lasted less than its limit, as it does between ticks.
pub open spec fn in_phase(s: TrafficSignal) -> bool {
    s.phase_tick < phase_limit(s.timing, s.phase)
}

impl TrafficSignal {
    /// A signal that starts on red.
    pub fn new(id: SignalId, node: NodeId, timing: SignalTiming) -> (signal: Self)
        ensures
            signal.id == id,
            signal.node == node,
            signal.timing == timing,
            signal.phase == SignalPhase::Red,
            signal.phase_tick == 0,
    {
        TrafficSignal { id, node, timing, phase: SignalPhase::Red, phase_tick: 0 }
    }

    /// Advances the signal by one tick, and tells whether its light changed.
    pub fn advance(&mut self) -> (changed: bool)
        requires
            old(self).phase_tick < u32::MAX,
        ensures
            *final(self) == advanced(*old(self)),
            changed == (old(self).phase_tick + 1 >= phase_limit(old(self).timing, old(self).phase)),
    {
        self.phase_tick = self.phase_tick + 1;
        let ticks = match self.phase {
            SignalPhase::Green => self.timing.green_ticks,
            SignalPhase::Yellow => self.timing.yellow_ticks,
            SignalPhase::Red => self.timing.red_ticks,
        };
        let limit = if ticks < 1 {
            1
        } else {
            ticks
        };
        if self.phase_tick >= limit {
            self.phase_tick = 0;
            self.phase = match self.phase {
                SignalPhase::Red => SignalPhase::Green,
                SignalPhase::Green => SignalPhase::Yellow,
                SignalPhase::Yellow => SignalPhase::Red,
            };
            true
        } else {
            false
        }
    }
}

/// Within a light, each tick counts one more, and the tick that reaches the
/// limit starts the next light.
pub proof fn lemma_through_phase(s: TrafficSignal, k: nat)
    requires
        in_phase(s),
        k <= phase_limit(s.timing, s.phase) - s.phase_tick,
    ensures
        advanced_times(s, k) == if k < phase_limit(s.timing, s.phase) - s.phase_tick {
            TrafficSignal { phase_tick: (s.phase_tick + k) as u32, ..s }
        } else {
            TrafficSignal { phase: next_phase(s.phase), phase_tick: 0, ..s }
        },
    decreases k,
{
    if k > 0 {
        let t = advanced(s);
        if s.phase_tick + 1 < phase_limit(s.timing, s.phase) {
            lemma_through_phase(t, (k - 1) as nat);
        } else {
            assert(advanced_times(t, 0) == t);
        }
    }
}

/// Running `a` ticks and then `b` ticks is running `a + b` ticks.
pub proof fn lemma_advanced_times_add(s: TrafficSignal, a: nat, b: nat)
    ensures
        advanced_times(s, a + b) == advanced_times(advanced_times(s, a), b),
    decreases a,
{
    if a > 0 {
        lemma_advanced_times_add(advanced(s), (a - 1) as nat, b);
        assert((a + b - 1) as nat == ((a - 1) as nat + b) as nat);
    }
}

/// After one full round of its three lights, a signal shows the same light
/// for the same number of ticks as before.
pub proof fn lemma_cycle_returns(s: TrafficSignal)
    requires
        in_phase(s),
    ensures
        advanced_times(s, cycle_length(s.timing)) == s,
{
    let p0 = s.phase;
    let p1 = next_phase(p0);
    let p2 = next_phase(p1);
    let lim0 = phase_limit(s.timing, p0) as nat;
    let lim1 = phase_limit(s.timing, p1) as nat;
    let lim2 = phase_limit(s.timing, p2) as nat;
    let a = (lim0 - s.phase_tick) as nat;
    lemma_through_phase(s, a);
    let s1 = advanced_times(s, a);
    assert(s1 == TrafficSignal { phase: p1, phase_tick: 0, ..s });
    lemma_through_phase(s1, lim1);
    let s2 = advanced_times(s1, lim1);
    assert(s2 == TrafficSignal { phase: p2, phase_tick: 0, ..s });
    lemma_through_phase(s2, lim2);
    let s3 = advanced_times(s2, lim2);
    assert(next_phase(p2) == p0);
    assert(s3 == TrafficSignal { phase: p0, phase_tick: 0, ..s });
    lemma_through_phase(s3, s.phase_tick as nat);
    let s4 = advanced_times(s3, s.phase_tick as nat);
    assert(s4 == s);
    lemma_advanced_times_add(s, a, lim1);
    lemma_advanced_times_add(s, a + lim1, lim2);
    lemma_advanced_times_add(s, a + lim1 + lim2, s.phase_tick as nat);
    assert(a + lim1 + lim2 + s.phase_tick == cycle_length(s.timing));
}

/// A light that vehicles may not pass: red, or yellow.
pub open spec fn stops_traffic(phase: SignalPhase) -> bool {
    phase == SignalPhase::Red || phase == SignalPhase::Yellow
}

/// The first signal of `signals` at node `node` shows a light that stops
/// traffic; a node with no signal stops nobody.
pub open spec fn red_at(signals: Seq<TrafficSignal>, node: NodeId) -> bool
    decreases signals.len(),
{
    if signals.len() == 0 {
        false
    } else if signals[0].node == node {
        stops_traffic(signals[0].phase)
    } else {
        red_at(signals.drop_first(), node)
    }
}

/// Whether the first of `signals` at node `node_id` shows red or yellow.
pub fn node_has_red_signal(signals: &[TrafficSignal], node_id: NodeId) -> (red: bool)
    ensures
        red == red_at(signals@, node_id),
{
    let mut i: usize = 0;
    assert(signals@.skip(0) =~= signals@);
    while i < signals.len()
        invariant
            i <= signals@.len(),
            red_at(signals@, node_id) == red_at(signals@.skip(i as int), node_id),
        decreases signals@.len() - i,
    {
        assert(signals@.skip(i as int).drop_first() =~= signals@.skip(i + 1));
        if signals[i].node == node_id {
            return signals[i].phase == SignalPhase::Red || signals[i].phase == SignalPhase::Yellow;
        }
        i = i + 1;
    }
    false
}

/// A light by its name.
pub open spec fn phase_name(phase: SignalPhase) -> Seq<char> {
    match phase {
        SignalPhase::Red => "Red"@,
        SignalPhase::Green => "Green"@,
        SignalPhase::Yellow => "Yellow"@,
    }
}

/// The signal changes its light on its next tick.
pub open spec fn changes(s: TrafficSignal) -> bool {
    s.phase_tick + 1 >= phase_limit(s.timing, s.phase)
}

/// The signals of `signals` that change their light on the next tick, in
/// order, as they are once it has passed.
pub open spec fn changed(signals: Seq<TrafficSignal>) -> Seq<TrafficSignal>
    decreases signals.len(),
{
    if signals.len() == 0 {
        Seq::empty()
    } else {
        let rest = changed(signals.drop_last());
        if changes(signals.last()) {
            rest.push(advanced(signals.last()))
        } else {
            rest
        }
    }
}

/// Event `e` reports, at tick `tick`, that signal `s` has turned to the
/// light it shows.
pub open spec fn reports_change(e: SimulationEvent, tick: u64, s: TrafficSignal) -> bool {
    &&& e.tick == tick
    &&& e.kind == EventKind::SignalChanged
    &&& e.entity matches Some(t) && t@ == spec_decimal(s.id.0 as nat)
    &&& e.message@ == "Sem\u{e1}foro "@ + id_text("SignalId"@, s.id.0) + " cambi\u{f3} a "@ + phase_name(s.phase)
}

fn phase_str(phase: SignalPhase) -> (name: &'static str)
    ensures
        name@ == phase_name(phase),
{
    match phase {
        SignalPhase::Red => "Red",
        SignalPhase::Green => "Green",
        SignalPhase::Yellow => "Yellow",
    }
}

/// Advances every signal by one tick, in order, and reports at `tick` each
/// one whose light changed.
pub fn advance_signals(signals: &mut Vec<TrafficSignal>, tick: u64, events: &mut Vec<SimulationEvent>)
    requires
        forall|i: int| 0 <= i < old(signals)@.len() ==> (#[trigger] old(signals)@[i]).phase_tick < u32::MAX,
    ensures
        final(signals)@.len() == old(signals)@.len(),
        forall|i: int| 0 <= i < old(signals)@.len() ==> #[trigger] final(signals)@[i] == advanced(old(signals)@[i]),
        final(events)@.len() == old(events)@.len() + changed(old(signals)@).len(),
        final(events)@.subrange(0, old(events)@.len() as int) == old(events)@,
        forall|j: int|
            0 <= j < changed(old(signals)@).len() ==> reports_change(
                #[trigger] final(events)@[old(events)@.len() + j],
                tick,
                changed(old(signals)@)[j],
            ),
{
    let ghost s0 = signals@;
    let ghost e0 = events@;
    let mut i: usize = 0;
    while i < signals.len()
        invariant
            signals@.len() == s0.len(),
            i <= s0.len(),
            forall|k: int| 0 <= k < i ==> #[trigger] signals@[k] == advanced(s0[k]),
            forall|k: int| i <= k < s0.len() ==> #[trigger] signals@[k] == s0[k],
            forall|k: int| 0 <= k < s0.len() ==> (#[trigger] s0[k]).phase_tick < u32::MAX,
            events@.len() == e0.len() + changed(s0.take(i as int)).len(),
            events@.subrange(0, e0.len() as int) == e0,
            forall|j: int|
                0 <= j < changed(s0.take(i as int)).len() ==> reports_change(
                    #[trigger] events@[e0.len() + j],
                    tick,
                    changed(s0.take(i as int))[j],
                ),
        decreases s0.len() - i,
    {
        let mut signal = signals[i];
        let changed_light = signal.advance();
        signals.set(i, signal);
        let ghost before = events@;
        proof {
            assert(s0.take(i + 1).drop_last() =~= s0.take(i as int));
            assert(s0.take(i + 1).last() == s0[i as int]);
        }
        if changed_light {
            let mut message = String::from_str("Sem\u{e1}foro ");
            message.append(id_string("SignalId", signal.id.0).as_str());
            message.append(" cambi\u{f3} a ");
            message.append(phase_str(signal.phase));
            events.push(SimulationEvent {
                tick,
                kind: EventKind::SignalChanged,
                entity: Some(decimal_usize(signal.id.0)),
                message,
            });
            proof {
                assert forall|j: int| 0 <= j < changed(s0.take(i + 1)).len() implies reports_change(
                    #[trigger] events@[e0.len() + j],
                    tick,
                    changed(s0.take(i + 1))[j],
                ) by {
                    if j < changed(s0.take(i as int)).len() {
                        assert(events@[e0.len() + j] == before[e0.len() + j]);
                    }
                }
                assert(events@.subrange(0, e0.len() as int) =~= e0) by {
                    assert forall|k: int| 0 <= k < e0.len() implies events@[k] == e0[k] by {
                        assert(before.subrange(0, e0.len() as int)[k] == e0[k]);
                    }
                }
            }
        }
        i = i + 1;
    }
    proof {
        assert(s0.take(s0.len() as int) =~= s0);
    }
}

} // verus!
