//! Signal plans stepping through their phases.
use vstd::prelude::*;
use crate::idmap::{lemma_changed_at, lemma_entries};
use crate::model::{NodeId, SignalPhase};
use super::Simulation;
use super::events::SimulationEvent;
use super::runtime::SignalRuntime;

verus! {

/// A signal state one tick on: its time in the phase grows by one, and once
/// it reaches the phase's duration the next phase (after the last, the
/// first) starts.
pub open spec fn advanced_signal(st: SignalRuntime, phases: Seq<SignalPhase>) -> SignalRuntime {
    if st.time_in_phase + 1 >= phases[st.phase_index as int].duration {
        SignalRuntime {
            phase_index: ((st.phase_index + 1) % (phases.len() as int)) as usize,
            time_in_phase: 0,
        }
    } else {
        SignalRuntime { phase_index: st.phase_index, time_in_phase: (st.time_in_phase + 1) as u32 }
    }
}

/// The signal changes phase on this tick.
pub open spec fn signal_changes(st: SignalRuntime, phases: Seq<SignalPhase>) -> bool {
    st.time_in_phase + 1 >= phases[st.phase_index as int].duration
}

/// How many ticks phase `i` lasts: its duration, and at least one tick.
pub open spec fn phase_ticks(phases: Seq<SignalPhase>, i: int) -> nat {
    if phases[i].duration == 0 {
        1
    } else {
        phases[i].duration as nat
    }
}

/// The signal state `n` ticks later.
pub open spec fn signal_after(st: SignalRuntime, phases: Seq<SignalPhase>, n: nat) -> SignalRuntime
    decreases n,
{
    if n == 0 {
        st
    } else {
        signal_after(advanced_signal(st, phases), phases, (n - 1) as nat)
    }
}

/// The ticks of the `k` phases that follow one another from phase `i` on,
/// going round the plan.
pub open spec fn ticks_through(phases: Seq<SignalPhase>, i: int, k: nat) -> nat
    decreases k,
{
    if k == 0 {
        0
    } else {
        ticks_through(phases, i, (k - 1) as nat) + phase_ticks(phases, (i + k - 1) % (phases.len() as int))
    }
}

/// The ticks of one round of the whole plan.
pub open spec fn plan_cycle(phases: Seq<SignalPhase>) -> nat {
    ticks_through(phases, 0, phases.len())
}

/// A signal state of the plan between ticks: its phase is one of the plan's
/// and has lasted less than its length.
pub open spec fn in_plan(st: SignalRuntime, phases: Seq<SignalPhase>) -> bool {
    &&& 0 < phases.len() <= usize::MAX
    &&& st.phase_index < phases.len()
    &&& st.time_in_phase < phase_ticks(phases, st.phase_index as int)
}

/// Going round from the last phase leads back to the first.
proof fn lemma_next_index(i: int, len: int)
    requires
        0 <= i < len,
    ensures
        (i + 1) % len == if i + 1 == len { 0 } else { i + 1 },
{
    if i + 1 == len {
        vstd::arithmetic::div_mod::lemma_mod_self_0(len);
    } else {
        vstd::arithmetic::div_mod::lemma_small_mod((i + 1) as nat, len as nat);
    }
}

/// Within a phase, each tick counts one more, and the tick that reaches the
/// phase's length starts the next phase.
pub proof fn lemma_signal_through_phase(st: SignalRuntime, phases: Seq<SignalPhase>, k: nat)
    requires
        in_plan(st, phases),
        k <= phase_ticks(phases, st.phase_index as int) - st.time_in_phase,
    ensures
        signal_after(st, phases, k) == if k < phase_ticks(phases, st.phase_index as int) - st.time_in_phase {
            SignalRuntime { phase_index: st.phase_index, time_in_phase: (st.time_in_phase + k) as u32 }
        } else {
            SignalRuntime {
                phase_index: ((st.phase_index + 1) % (phases.len() as int)) as usize,
                time_in_phase: 0,
            }
        },
    decreases k,
{
    if k > 0 {
        let t = advanced_signal(st, phases);
        if st.time_in_phase + 1 < phase_ticks(phases, st.phase_index as int) {
            lemma_signal_through_phase(t, phases, (k - 1) as nat);
        } else {
            assert(signal_after(t, phases, 0) == t);
        }
    }
}

/// Running `a` ticks and then `b` ticks is running `a + b` ticks.
pub proof fn lemma_signal_after_add(st: SignalRuntime, phases: Seq<SignalPhase>, a: nat, b: nat)
    ensures
        signal_after(st, phases, a + b) == signal_after(signal_after(st, phases, a), phases, b),
    decreases a,
{
    if a > 0 {
        lemma_signal_after_add(advanced_signal(st, phases), phases, (a - 1) as nat, b);
        assert((a + b - 1) as nat == ((a - 1) as nat + b) as nat);
    }
}

/// From the start of phase `i`, the ticks of the next `k` phases lead to
/// the start of the phase `k` further round.
proof fn lemma_whole_phases(phases: Seq<SignalPhase>, i: int, k: nat)
    requires
        0 < phases.len() <= usize::MAX,
        0 <= i < phases.len(),
    ensures
        signal_after(
            SignalRuntime { phase_index: i as usize, time_in_phase: 0 },
            phases,
            ticks_through(phases, i, k),
        ) == (SignalRuntime { phase_index: ((i + k) % (phases.len() as int)) as usize, time_in_phase: 0 }),
    decreases k,
{
    let len = phases.len() as int;
    let start = SignalRuntime { phase_index: i as usize, time_in_phase: 0 };
    if k == 0 {
        vstd::arithmetic::div_mod::lemma_small_mod(i as nat, len as nat);
    } else {
        lemma_whole_phases(phases, i, (k - 1) as nat);
        let j = (i + k - 1) % len;
        vstd::arithmetic::div_mod::lemma_mod_bound(i + k - 1, len);
        assert(((i + (k - 1) as nat) % len) == j);
        let mid = SignalRuntime { phase_index: j as usize, time_in_phase: 0 };
        assert(mid.phase_index as int == j);
        assert(in_plan(mid, phases));
        lemma_signal_through_phase(mid, phases, phase_ticks(phases, j));
        assert(ticks_through(phases, i, k) == ticks_through(phases, i, (k - 1) as nat) + phase_ticks(phases, j));
        lemma_signal_after_add(start, phases, ticks_through(phases, i, (k - 1) as nat), phase_ticks(phases, j));
        lemma_next_index(j, len);
        vstd::arithmetic::div_mod::lemma_add_mod_noop(i + k - 1, 1, len);
        if len == 1 {
            vstd::arithmetic::div_mod::lemma_mod_bound(i + k, len);
            vstd::arithmetic::div_mod::lemma_mod_bound(1, len);
        } else {
            vstd::arithmetic::div_mod::lemma_small_mod(1, len as nat);
        }
    }
}

/// Adding a phase in front: the ticks of `k + 1` phases from `i` are the
/// ticks of phase `i` and of the `k` phases after it.
proof fn lemma_ticks_front(phases: Seq<SignalPhase>, i: int, k: nat)
    requires
        phases.len() > 0,
    ensures
        ticks_through(phases, i, k + 1) == phase_ticks(phases, i % (phases.len() as int)) + ticks_through(
            phases,
            i + 1,
            k,
        ),
    decreases k,
{
    let len = phases.len() as int;
    if k > 0 {
        lemma_ticks_front(phases, i, (k - 1) as nat);
        assert(ticks_through(phases, i, k + 1) == ticks_through(phases, i, k) + phase_ticks(phases, (i + k) % len));
        assert(ticks_through(phases, i + 1, k) == ticks_through(phases, i + 1, (k - 1) as nat) + phase_ticks(
            phases,
            (i + 1 + k - 1) % len,
        ));
        assert(i + 1 + k - 1 == i + k);
    } else {
        assert(ticks_through(phases, i, 1) == ticks_through(phases, i, 0) + phase_ticks(phases, (i + 1 - 1) % len));
    }
}

/// Where the phases are counted from matters only up to whole rounds.
proof fn lemma_ticks_congruent(phases: Seq<SignalPhase>, a: int, b: int, k: nat)
    requires
        phases.len() > 0,
        a % (phases.len() as int) == b % (phases.len() as int),
    ensures
        ticks_through(phases, a, k) == ticks_through(phases, b, k),
    decreases k,
{
    let len = phases.len() as int;
    if k > 0 {
        lemma_ticks_congruent(phases, a, b, (k - 1) as nat);
        vstd::arithmetic::div_mod::lemma_add_mod_noop(a, k - 1, len);
        vstd::arithmetic::div_mod::lemma_add_mod_noop(b, k - 1, len);
    }
}

/// A whole round takes as long from any phase.
proof fn lemma_round_from_any_phase(phases: Seq<SignalPhase>, i: int)
    requires
        phases.len() > 0,
        0 <= i <= phases.len(),
    ensures
        ticks_through(phases, i, phases.len()) == plan_cycle(phases),
    decreases i,
{
    let len = phases.len() as int;
    if i > 0 {
        lemma_round_from_any_phase(phases, i - 1);
        lemma_ticks_front(phases, i - 1, phases.len());
        assert(ticks_through(phases, i - 1, (len + 1) as nat) == ticks_through(phases, i - 1, phases.len())
            + phase_ticks(phases, (i - 1 + len) % len));
        vstd::arithmetic::div_mod::lemma_mod_add_multiples_vanish(i - 1, len);
    }
}

/// After one round of its plan, a signal is back in the same phase for the
/// same time as before.
pub proof fn lemma_signal_cycle(st: SignalRuntime, phases: Seq<SignalPhase>)
    requires
        in_plan(st, phases),
    ensures
        signal_after(st, phases, plan_cycle(phases)) == st,
{
    let len = phases.len() as int;
    let i = st.phase_index as int;
    let t = st.time_in_phase as nat;
    let pi = phase_ticks(phases, i);
    let a = (pi - t) as nat;
    lemma_signal_through_phase(st, phases, a);
    let i1 = (i + 1) % len;
    vstd::arithmetic::div_mod::lemma_mod_bound(i + 1, len);
    let s1 = SignalRuntime { phase_index: i1 as usize, time_in_phase: 0 };
    assert(signal_after(st, phases, a) == s1);
    let b = ticks_through(phases, i1, (len - 1) as nat);
    lemma_whole_phases(phases, i1, (len - 1) as nat);
    vstd::arithmetic::div_mod::lemma_add_mod_noop(i + 1, len - 1, len);
    vstd::arithmetic::div_mod::lemma_mod_bound(i1 + len - 1, len);
    vstd::arithmetic::div_mod::lemma_mod_add_multiples_vanish(i, len);
    vstd::arithmetic::div_mod::lemma_small_mod(i as nat, len as nat);
    vstd::arithmetic::div_mod::lemma_mod_bound(len - 1, len);
    vstd::arithmetic::div_mod::lemma_small_mod((len - 1) as nat, len as nat);
    assert((i1 + len - 1) % len == i);
    let s2 = SignalRuntime { phase_index: i as usize, time_in_phase: 0 };
    assert(signal_after(s1, phases, b) == s2);
    lemma_signal_through_phase(s2, phases, t);
    assert(signal_after(s2, phases, t) == st);
    lemma_signal_after_add(st, phases, a, b);
    lemma_signal_after_add(st, phases, a + b, t);
    vstd::arithmetic::div_mod::lemma_small_mod(i1 as nat, len as nat);
    lemma_ticks_congruent(phases, i1, i + 1, (len - 1) as nat);
    lemma_ticks_front(phases, i, (len - 1) as nat);
    lemma_round_from_any_phase(phases, i);
    assert(pi == phase_ticks(phases, i % len));
    assert(a + b + t == plan_cycle(phases));
}

impl Simulation {
    /// The phases of the plan of node `n`.
    pub open spec fn phases_of(&self, n: NodeId) -> Seq<SignalPhase> {
        self.net().node_map()[n].signal_plan.unwrap().phases@
    }

    /// The phase changes that advancing the signals of the nodes `ns`
    /// reports, in the order of `ns`.
    pub open spec fn signal_events(&self, ns: Seq<NodeId>) -> Seq<SimulationEvent>
        decreases ns.len(),
    {
        if ns.len() == 0 {
            Seq::empty()
        } else {
            let n = ns.last();
            let st = self.signal_map()[n];
            let phases = self.phases_of(n);
            self.signal_events(ns.drop_last()) + if signal_changes(st, phases) {
                seq![
                    SimulationEvent::SignalChanged {
                        node_id: n,
                        phase_name: phases[advanced_signal(st, phases).phase_index as int].name,
                    },
                ]
            } else {
                Seq::empty()
            }
        }
    }

    /// Every signal of the simulation comes back to its state after one round
    /// of its plan.
    pub proof fn lemma_signals_cycle(sim: Simulation, n: NodeId)
        requires
            sim.wf(),
            sim.signal_map().contains_key(n),
        ensures
            signal_after(sim.signal_map()[n], sim.phases_of(n), plan_cycle(sim.phases_of(n))) == sim.signal_map()[n],
    {
        let phases = sim.net().node_map()[n].signal_plan.unwrap().phases;
        assert(phases.len() == phases@.len());
        lemma_signal_cycle(sim.signal_map()[n], sim.phases_of(n));
    }

    /// The reported phase changes depend on the signal states and the network
    /// alone.
    pub proof fn lemma_signal_events_same(a: Simulation, b: Simulation, ns: Seq<NodeId>)
        requires
            a.signal_map() == b.signal_map(),
            a.net() == b.net(),
        ensures
            a.signal_events(ns) == b.signal_events(ns),
        decreases ns.len(),
    {
        if ns.len() > 0 {
            Self::lemma_signal_events_same(a, b, ns.drop_last());
        }
    }

    /// Advances every signal by one tick, node by node in increasing
    /// identifier, reporting each phase change.
    #[verifier::spinoff_prover]
    pub fn advance_signals(&mut self, events: &mut Vec<SimulationEvent>)
        requires
            old(self).wf(),
        ensures
            final(self).wf(),
            final(self).unchanged_but_signals(*old(self)),
            final(self).signal_map().dom() == old(self).signal_map().dom(),
            forall|n: NodeId|
                #![trigger final(self).signal_map()[n]]
                final(self).signal_map().contains_key(n) ==> final(self).signal_map()[n]
                    == advanced_signal(old(self).signal_map()[n], old(self).phases_of(n)),
            final(events)@ == old(events)@ + old(self).signal_events(old(self).signal_nodes()),
    {
        let ghost s0 = *self;
        let ghost e0 = events@;
        let ghost keys = self.signals.keys();
        proof {
            lemma_entries(self.signals.entries@);
        }
        let mut i: usize = 0;
        while i < self.signals.entries.len()
            invariant
                s0.wf(),
                keys == s0.signals.keys(),
                self.unchanged_but_signals(s0),
                self.signals.entries@.len() == s0.signals.entries@.len(),
                i <= self.signals.entries@.len(),
                forall|j: int| 0 <= j < self.signals.entries@.len() ==> (#[trigger] self.signals.entries@[j]).0 == s0.signals.entries@[j].0,
                forall|j: int| 0 <= j < i ==> (#[trigger] self.signals.entries@[j]).1 == advanced_signal(
                    s0.signals.entries@[j].1, s0.phases_of(s0.signals.entries@[j].0)),
                forall|j: int| i <= j < self.signals.entries@.len() ==> #[trigger] self.signals.entries@[j] == s0.signals.entries@[j],
                events@ == e0 + s0.signal_events(keys.take(i as int)),
            decreases self.signals.entries@.len() - i,
        {
            let node_id = self.signals.entries[i].0;
            proof {
                lemma_entries(s0.signals.entries@);
                assert(s0.signals@.contains_key(node_id));
                assert(s0.signals@[node_id] == s0.signals.entries@[i as int].1);
            }
            let node = self.network.node(node_id).unwrap();
            let plan = node.signal_plan.as_ref().unwrap();
            let state = self.signals.entries[i].1;
            let phase_count = plan.phases.len();
            let phase_duration = plan.phases[state.phase_index].duration;
            let ghost g0 = self.signals.entries@;
            let time = state.time_in_phase + 1;
            let ghost ev_before = events@;
            if time >= phase_duration {
                let next_index = (state.phase_index + 1) % phase_count;
                self.signals.entries.set(i, (node_id, SignalRuntime { phase_index: next_index, time_in_phase: 0 }));
                let phase_name = plan.phases[next_index].name.clone();
                events.push(SimulationEvent::SignalChanged { node_id, phase_name });
            } else {
                self.signals.entries.set(i, (node_id, SignalRuntime { phase_index: state.phase_index, time_in_phase: time }));
            }
            proof {
                let t = keys.take(i + 1);
                assert(t.drop_last() =~= keys.take(i as int));
                assert(t.last() == node_id);
                assert(events@ =~= e0 + s0.signal_events(t));
            }
            i = i + 1;
        }
        proof {
            lemma_entries(self.signals.entries@);
            lemma_entries(s0.signals.entries@);
            assert(keys.take(keys.len() as int) =~= keys);
            assert(self.signals.keys() =~= s0.signals.keys());
            assert forall|n: NodeId| #[trigger] self.signals@.contains_key(n) == s0.signals@.contains_key(n) by {
                if s0.signals@.contains_key(n) {
                    let j = crate::idmap::index_of(s0.signals.entries@, n);
                    assert(self.signals.entries@[j].0 == n);
                }
                if self.signals@.contains_key(n) {
                    let j = crate::idmap::index_of(self.signals.entries@, n);
                    assert(s0.signals.entries@[j].0 == n);
                }
            }
            assert(self.signal_map().dom() =~= s0.signal_map().dom());
            assert forall|n: NodeId|
                #![trigger self.signal_map()[n]]
                self.signal_map().contains_key(n) implies self.signal_map()[n]
                    == advanced_signal(s0.signal_map()[n], s0.phases_of(n)) by {
                let j = crate::idmap::index_of(self.signals.entries@, n);
                assert(s0.signals.entries@[j].0 == n);
            }
            assert forall|n: NodeId|
                #![trigger self.signals@[n]]
                self.signals@.contains_key(n) implies {
                    let phases = self.network.node_map()[n].signal_plan.unwrap().phases@;
                    let state = self.signals@[n];
                    &&& state.phase_index < phases.len()
                    &&& (state.time_in_phase == 0 || state.time_in_phase
                        < phases[state.phase_index as int].duration)
                } by {
                assert(s0.signals@.contains_key(n));
            }
            assert(self.signals.wf()) by {
                assert forall|a: int, b: int| 0 <= a < b < self.signals.entries@.len() implies
                    #[trigger] self.signals.entries@[a].0 < #[trigger] self.signals.entries@[b].0 by {
                    assert(s0.signals.entries@[a].0 < s0.signals.entries@[b].0);
                }
            }
            assert forall|n: NodeId| #[trigger] self.signals@.contains_key(n) <==> (self.network.node_map().contains_key(
                n) && self.network.node_map()[n].signal_plan is Some) by {
                assert(self.signals@.contains_key(n) == s0.signals@.contains_key(n));
            }
            Self::lemma_places_agree(s0, *self);
            assert(self.wf());
        }
    }
}

} // verus!
