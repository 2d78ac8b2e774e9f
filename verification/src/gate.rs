//! Noise gate: passes an amplitude only when it reaches a threshold; below it
//! the signal is taken for ambient noise and dropped (`None`).
//!
//! An optional hold time avoids abrupt cuts: once the threshold is reached,
//! the noise gate stays open for `hold_ticks` further calls of
//! [`NoiseGate::process`], even if the amplitude falls back below it.

use vstd::prelude::*;

verus! {

/// The state of a noise gate.
pub struct GateState {
    /// Minimum amplitude that opens the noise gate.
    pub threshold: u16,
    /// Number of calls the noise gate stays open after the amplitude falls back.
    pub hold_ticks: u16,
    /// Calls left before the noise gate closes.
    pub hold_counter: u16,
}

/// One call of `process` on state `s` with amplitude `amp`: the next state and
/// what the noise gate lets through.
pub open spec fn gate_step(s: GateState, amp: u16) -> (GateState, Option<u16>) {
    if amp >= s.threshold {
        (GateState { threshold: s.threshold, hold_ticks: s.hold_ticks, hold_counter: s.hold_ticks }, Some(amp))
    } else if s.hold_counter > 0 {
        (
            GateState {
                threshold: s.threshold,
                hold_ticks: s.hold_ticks,
                hold_counter: (s.hold_counter - 1) as u16,
            },
            Some(amp),
        )
    } else {
        (s, None)
    }
}

/// What the noise gate lets through on successive calls with the amplitudes `amps`,
/// starting from state `s`.
pub open spec fn gate_run(s: GateState, amps: Seq<u16>) -> Seq<Option<u16>>
    decreases amps.len(),
{
    if amps.len() == 0 {
        Seq::empty()
    } else {
        let (next, out) = gate_step(s, amps[0]);
        seq![out] + gate_run(next, amps.drop_first())
    }
}

/// The state after successive calls with the amplitudes `amps`, starting from
/// state `s`.
pub open spec fn gate_after(s: GateState, amps: Seq<u16>) -> GateState
    decreases amps.len(),
{
    if amps.len() == 0 {
        s
    } else {
        gate_step(gate_after(s, amps.drop_last()), amps.last()).0
    }
}

/// Index of the last amplitude of `amps` at or above `threshold`, or -1 when
/// there is none.
pub open spec fn last_crossing(threshold: u16, amps: Seq<u16>) -> int
    decreases amps.len(),
{
    if amps.len() == 0 {
        -1
    } else if amps.last() >= threshold {
        amps.len() - 1
    } else {
        last_crossing(threshold, amps.drop_last())
    }
}

/// Noise gate with a configurable threshold and an optional hold time.
pub struct NoiseGate {
    threshold: u16,
    hold_ticks: u16,
    hold_counter: u16,
}

impl View for NoiseGate {
    type V = GateState;

    closed spec fn view(&self) -> GateState {
        GateState {
            threshold: self.threshold,
            hold_ticks: self.hold_ticks,
            hold_counter: self.hold_counter,
        }
    }
}

impl NoiseGate {
    /// Creates a gate with a fixed threshold and no hold time.
    pub fn new(threshold: u16) -> (g: Self)
        ensures
            g@ == (GateState { threshold, hold_ticks: 0, hold_counter: 0 }),
    {
        NoiseGate { threshold, hold_ticks: 0, hold_counter: 0 }
    }

    /// Creates a gate with a threshold and a hold time of `hold_ticks` calls of
    /// `process` after the amplitude falls back below the threshold.
    pub fn with_hold(threshold: u16, hold_ticks: u16) -> (g: Self)
        ensures
            g@ == (GateState { threshold, hold_ticks, hold_counter: 0 }),
    {
        NoiseGate { threshold, hold_ticks, hold_counter: 0 }
    }

    /// Processes an amplitude: `Some(amplitude)` while the noise gate is open, `None`
    /// when the signal is below the threshold and outside the hold time.
    pub fn process(&mut self, amplitude: u16) -> (r: Option<u16>)
        ensures
            (final(self)@, r) == gate_step(old(self)@, amplitude),
    {
        if amplitude >= self.threshold {
            self.hold_counter = self.hold_ticks;
            Some(amplitude)
        } else if self.hold_counter > 0 {
            self.hold_counter -= 1;
            Some(amplitude)
        } else {
            None
        }
    }

    /// Changes the threshold on the fly.
    pub fn set_threshold(&mut self, threshold: u16)
        ensures
            final(self)@ == (GateState {
                threshold,
                hold_ticks: old(self)@.hold_ticks,
                hold_counter: old(self)@.hold_counter,
            }),
    {
        self.threshold = threshold;
    }

    /// The current threshold.
    pub fn threshold(&self) -> (t: u16)
        ensures
            t == self@.threshold,
    {
        self.threshold
    }

    /// Clears the hold counter: the noise gate closes at once.
    pub fn reset(&mut self)
        ensures
            final(self)@ == (GateState {
                threshold: old(self)@.threshold,
                hold_ticks: old(self)@.hold_ticks,
                hold_counter: 0,
            }),
    {
        self.hold_counter = 0;
    }
}

/// Without a hold time the noise gate is memoryless: on any sequence of amplitudes
/// it lets through exactly those at or above the threshold.
pub proof fn lemma_gate_without_hold(threshold: u16, amps: Seq<u16>)
    ensures
        gate_run(GateState { threshold, hold_ticks: 0, hold_counter: 0 }, amps).len() == amps.len(),
        forall|i: int|
            0 <= i < amps.len() ==> #[trigger] gate_run(
                GateState { threshold, hold_ticks: 0, hold_counter: 0 },
                amps,
            )[i] == (if amps[i] >= threshold {
                Some(amps[i])
            } else {
                None
            }),
    decreases amps.len(),
{
    let s = GateState { threshold, hold_ticks: 0, hold_counter: 0 };
    if amps.len() > 0 {
        lemma_gate_without_hold(threshold, amps.drop_first());
        assert(gate_step(s, amps[0]).0 == s);
        let rest = gate_run(s, amps.drop_first());
        assert forall|i: int| 0 <= i < amps.len() implies #[trigger] gate_run(s, amps)[i] == (if amps[i]
            >= threshold {
            Some(amps[i])
        } else {
            None
        }) by {
            if i > 0 {
                assert(gate_run(s, amps)[i] == rest[i - 1]);
                assert(amps.drop_first()[i - 1] == amps[i]);
            }
        }
    }
}

/// The hold time: from a state with `k` calls of hold left, a run of
/// amplitudes all below the threshold passes the first `k` of them and drops
/// all the others.
pub proof fn lemma_gate_hold(s: GateState, amps: Seq<u16>)
    requires
        forall|i: int| 0 <= i < amps.len() ==> #[trigger] amps[i] < s.threshold,
    ensures
        gate_run(s, amps).len() == amps.len(),
        forall|i: int|
            0 <= i < amps.len() ==> #[trigger] gate_run(s, amps)[i] == (if i < s.hold_counter {
                Some(amps[i])
            } else {
                None
            }),
    decreases amps.len(),
{
    if amps.len() > 0 {
        assert(amps[0] < s.threshold);
        let next = gate_step(s, amps[0]).0;
        let tail = amps.drop_first();
        assert forall|i: int| 0 <= i < tail.len() implies #[trigger] tail[i] < next.threshold by {
            assert(tail[i] == amps[i + 1]);
        }
        lemma_gate_hold(next, tail);
        let rest = gate_run(next, tail);
        assert forall|i: int| 0 <= i < amps.len() implies #[trigger] gate_run(s, amps)[i] == (if i
            < s.hold_counter {
            Some(amps[i])
        } else {
            None
        }) by {
            if i > 0 {
                assert(gate_run(s, amps)[i] == rest[i - 1]);
                assert(tail[i - 1] == amps[i]);
            }
        }
    }
}

/// After a crossing the noise gate holds open for exactly `hold_ticks` further calls
/// below the threshold, then closes.
pub proof fn lemma_gate_holds_after_crossing(s: GateState, loud: u16, quiet: Seq<u16>)
    requires
        loud >= s.threshold,
        forall|i: int| 0 <= i < quiet.len() ==> #[trigger] quiet[i] < s.threshold,
    ensures
        gate_step(s, loud).1 == Some(loud),
        forall|i: int|
            0 <= i < quiet.len() ==> #[trigger] gate_run(gate_step(s, loud).0, quiet)[i] == (if i
                < s.hold_ticks {
                Some(quiet[i])
            } else {
                None
            }),
{
    lemma_gate_hold(gate_step(s, loud).0, quiet);
}

/// Splitting off the first call: the state after `amps` is the state after
/// the rest, started from the state after the first call.
proof fn lemma_gate_after_first(s: GateState, amps: Seq<u16>)
    requires
        amps.len() > 0,
    ensures
        gate_after(s, amps) == gate_after(gate_step(s, amps[0]).0, amps.drop_first()),
    decreases amps.len(),
{
    let next = gate_step(s, amps[0]).0;
    if amps.len() == 1 {
        assert(amps.drop_last() =~= Seq::<u16>::empty());
        assert(amps.drop_first() =~= Seq::<u16>::empty());
        assert(gate_after(s, amps.drop_last()) == s);
        assert(gate_after(next, amps.drop_first()) == next);
        assert(amps.last() == amps[0]);
    } else {
        let init = amps.drop_last();
        let rest = amps.drop_first();
        lemma_gate_after_first(s, init);
        assert(rest.drop_last() =~= init.drop_first());
        assert(init[0] == amps[0]);
        assert(rest.last() == amps.last());
        assert(rest.len() > 0);
        assert(gate_after(next, rest) == gate_step(gate_after(next, rest.drop_last()), rest.last()).0);
        assert(gate_after(s, amps) == gate_step(gate_after(s, init), amps.last()).0);
    }
}

/// The outputs of a run are those of each call in turn: one more call appends
/// what the noise gate lets through from the state the run left.
pub proof fn lemma_gate_run_push(s: GateState, amps: Seq<u16>, a: u16)
    ensures
        gate_run(s, amps.push(a)) == gate_run(s, amps).push(gate_step(gate_after(s, amps), a).1),
    decreases amps.len(),
{
    if amps.len() == 0 {
        let next = gate_step(s, a).0;
        assert(amps.push(a).drop_first() =~= Seq::<u16>::empty());
        assert(amps.push(a)[0] == a);
        assert(gate_run(next, Seq::<u16>::empty()) == Seq::<Option<u16>>::empty());
        assert(gate_run(s, amps) == Seq::<Option<u16>>::empty());
        assert(gate_after(s, amps) == s);
        assert(gate_run(s, amps.push(a)) =~= seq![gate_step(s, a).1]);
    } else {
        let next = gate_step(s, amps[0]).0;
        assert(amps.push(a).drop_first() =~= amps.drop_first().push(a));
        assert(amps.push(a)[0] == amps[0]);
        lemma_gate_run_push(next, amps.drop_first(), a);
        lemma_gate_after_first(s, amps);
        assert(gate_run(s, amps.push(a)) =~= gate_run(s, amps).push(
            gate_step(gate_after(s, amps), a).1,
        ));
    }
}

/// The hold left after a history, from a closed gate: none without any
/// crossing, else `hold_ticks` minus the calls since the last crossing, down to
/// zero. Threshold and hold time do not change.
pub proof fn lemma_gate_after_counter(s: GateState, amps: Seq<u16>)
    requires
        s.hold_counter == 0,
    ensures
        gate_after(s, amps).threshold == s.threshold,
        gate_after(s, amps).hold_ticks == s.hold_ticks,
        gate_after(s, amps).hold_counter == ({
            let lc = last_crossing(s.threshold, amps);
            let left = s.hold_ticks - (amps.len() - 1 - lc);
            if lc < 0 || left <= 0 {
                0
            } else {
                left
            }
        }),
    decreases amps.len(),
{
    if amps.len() > 0 {
        lemma_gate_after_counter(s, amps.drop_last());
    }
}

/// What the noise gate answers, from its whole history since it was built or
/// reset: `Some(a)` exactly when `a` reaches the threshold, or when the last
/// amplitude of the history that reached it lies fewer than `hold_ticks` calls
/// back (counting the calls after it); `None` otherwise.
pub proof fn lemma_gate_history(threshold: u16, hold_ticks: u16, history: Seq<u16>, a: u16)
    ensures
        ({
            let s = GateState { threshold, hold_ticks, hold_counter: 0 };
            let lc = last_crossing(threshold, history);
            &&& gate_step(gate_after(s, history), a).1 == (if a >= threshold || (0 <= lc
                && history.len() - 1 - lc < hold_ticks) {
                Some(a)
            } else {
                None
            })
            &&& gate_run(s, history.push(a)).last() == gate_step(gate_after(s, history), a).1
        }),
{
    let s = GateState { threshold, hold_ticks, hold_counter: 0 };
    lemma_gate_after_counter(s, history);
    lemma_gate_run_push(s, history, a);
}

/// A reset closes the noise gate at once: whatever the hold left, the next amplitude
/// below the threshold is dropped.
pub proof fn lemma_reset_closes(s: GateState, amp: u16)
    requires
        amp < s.threshold,
    ensures
        gate_step(
            GateState { threshold: s.threshold, hold_ticks: s.hold_ticks, hold_counter: 0 },
            amp,
        ).1 == None::<u16>,
{
}

} // verus!
