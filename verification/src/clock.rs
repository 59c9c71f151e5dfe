//! A fixed-step clock that turns elapsed time into whole simulation steps,
//! carrying the leftover time over to the next frame. Times are counted in
//! nanoseconds from any fixed origin.
use vstd::prelude::*;

verus! {

/// The instant of the last frame and the time gathered since the last whole
/// step.
#[derive(Clone, Copy, Debug)]
pub struct FixedStepClock {
    last_instant: u64,
    accumulator: u64,
}

/// The time from `earlier` to `later`, or none where `later` comes first.
pub open spec fn elapsed_since(later: u64, earlier: u64) -> nat {
    if later >= earlier {
        (later - earlier) as nat
    } else {
        0
    }
}

impl FixedStepClock {
    /// The instant of the last frame.
    pub closed spec fn last(&self) -> u64 {
        self.last_instant
    }

    /// The time gathered since the last whole step.
    pub closed spec fn gathered(&self) -> u64 {
        self.accumulator
    }

    /// A clock whose last frame is `now`, with nothing gathered.
    pub fn new(now: u64) -> (clock: Self)
        ensures
            clock.last() == now,
            clock.gathered() == 0,
    {
        FixedStepClock { last_instant: now, accumulator: 0 }
    }

    /// Starts over from `now`, with nothing gathered.
    pub fn reset(&mut self, now: u64)
        ensures
            final(self).last() == now,
            final(self).gathered() == 0,
    {
        self.last_instant = now;
        self.accumulator = 0;
    }

    /// The instant of the last frame.
    pub fn last_instant(&self) -> (last: u64)
        ensures
            last == self.last(),
    {
        self.last_instant
    }

    /// The time gathered since the last whole step.
    pub fn accumulator(&self) -> (gathered: u64)
        ensures
            gathered == self.gathered(),
    {
        self.accumulator
    }

    /// Takes the frame at `now`: while paused, or without a usable step
    /// length, no time is gathered; otherwise the time since the last frame
    /// is added and every whole `step` of it becomes one step, the rest
    /// staying gathered.
    pub fn drain_steps(&mut self, now: u64, running: bool, step: Option<u64>) -> (steps: u32)
        requires
            running && step is Some ==> {
                let total = old(self).gathered() + elapsed_since(now, old(self).last());
                &&& step.unwrap() > 0
                &&& total <= u64::MAX
                &&& total / (step.unwrap() as int) <= u32::MAX
            },
        ensures
            final(self).last() == now,
            !(running && step is Some) ==> steps == 0 && final(self).gathered() == old(self).gathered(),
            running && step is Some ==> {
                let total = old(self).gathered() + elapsed_since(now, old(self).last());
                let d = step.unwrap() as int;
                &&& steps == total / d
                &&& final(self).gathered() == total % d
                &&& steps * d + final(self).gathered() == total
                &&& final(self).gathered() < d
            },
    {
        if !running {
            self.last_instant = now;
            return 0;
        }
        let step_length = match step {
            Some(d) => d,
            None => {
                self.last_instant = now;
                return 0;
            },
        };
        let elapsed = now.saturating_sub(self.last_instant);
        self.last_instant = now;
        self.accumulator = self.accumulator + elapsed;
        let ghost total = self.accumulator as int;
        let mut steps: u32 = 0;
        while self.accumulator >= step_length
            invariant
                step_length > 0,
                total / (step_length as int) <= u32::MAX,
                steps * step_length + self.accumulator == total,
                self.last_instant == now,
            decreases self.accumulator,
        {
            proof {
                assert(steps + 1 <= total / (step_length as int)) by (nonlinear_arith)
                    requires
                        steps * step_length + self.accumulator == total,
                        self.accumulator >= step_length,
                        step_length > 0,
                {
                    assert((steps + 1) * step_length <= total);
                    vstd::arithmetic::div_mod::lemma_div_is_ordered((steps + 1) * step_length, total, step_length as int);
                    vstd::arithmetic::div_mod::lemma_div_multiples_vanish((steps + 1) as int, step_length as int);
                }
            }
            let ghost before = steps;
            self.accumulator = self.accumulator - step_length;
            steps = steps + 1;
            proof {
                assert((before + 1) * step_length == before * step_length + step_length) by (nonlinear_arith);
            }
        }
        proof {
            let d = step_length as int;
            vstd::arithmetic::div_mod::lemma_fundamental_div_mod_converse(
                total as int,
                d as int,
                steps as int,
                self.accumulator as int,
            );
        }
        steps
    }
}

} // verus!
