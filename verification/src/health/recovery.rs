//! When to give up: after a number of failures in a row the process asks to be
//! ended, and is started anew from outside.

use vstd::prelude::*;

verus! {

/// What follows a probe.
#[derive(Debug, Clone, Copy, PartialEq, Eq, Structural)]
pub enum RecoveryAction {
    Continue,
    RequestExit,
}

/// Counts failures in a row, and gives up at a threshold.
pub struct ThresholdRecovery {
    failure_threshold: u32,
    consecutive_failures: u32,
}

impl ThresholdRecovery {
    /// The threshold.
    pub closed spec fn threshold(&self) -> u32 {
        self.failure_threshold
    }

    /// The failures since the latest success.
    pub closed spec fn failures(&self) -> u32 {
        self.consecutive_failures
    }

    /// No failures yet; the threshold is at least one.
    pub fn new(failure_threshold: u32) -> (r: Self)
        ensures
            r.threshold() == if failure_threshold == 0 {
                1
            } else {
                failure_threshold
            },
            r.failures() == 0,
    {
        let failure_threshold: u32 = if failure_threshold == 0 {
            1
        } else {
            failure_threshold
        };
        ThresholdRecovery { failure_threshold, consecutive_failures: 0 }
    }

    /// The failures since the latest success.
    pub fn consecutive_failures(&self) -> (n: u32)
        ensures
            n == self.failures(),
    {
        self.consecutive_failures
    }

    /// A success: the failures before it no longer count.
    pub fn on_success(&mut self) -> (a: RecoveryAction)
        ensures
            a == RecoveryAction::Continue,
            final(self).failures() == failures_step(old(self).failures() as nat, true),
            final(self).threshold() == old(self).threshold(),
    {
        self.consecutive_failures = 0;
        RecoveryAction::Continue
    }

    /// A failure. From the threshold on the process asks to be ended.
    pub fn on_failure(&mut self, _reason: &str) -> (a: RecoveryAction)
        requires
            old(self).failures() < u32::MAX,
        ensures
            final(self).failures() == failures_step(old(self).failures() as nat, false),
            a == if final(self).failures() >= old(self).threshold() {
                RecoveryAction::RequestExit
            } else {
                RecoveryAction::Continue
            },
            final(self).threshold() == old(self).threshold(),
    {
        self.consecutive_failures += 1;
        if self.consecutive_failures >= self.failure_threshold {
            RecoveryAction::RequestExit
        } else {
            RecoveryAction::Continue
        }
    }
}

/// The failures in a row after one more probe.
pub open spec fn failures_step(failures: nat, ok: bool) -> nat {
    if ok {
        0
    } else {
        failures + 1
    }
}

/// The failures in a row after a history of probes, `true` for success.
pub open spec fn failures_after(history: Seq<bool>) -> nat
    decreases history.len(),
{
    if history.len() == 0 {
        0
    } else {
        failures_step(failures_after(history.drop_last()), history.last())
    }
}

/// The threshold is reached exactly when that many of the latest probes, without
/// a success among them, have failed.
pub proof fn lemma_threshold_means_failures_in_a_row(history: Seq<bool>, threshold: nat)
    ensures
        failures_after(history) >= threshold <==> threshold <= history.len() && forall|i: int|
            history.len() - threshold <= i < history.len() ==> !#[trigger] history[i],
    decreases history.len(),
{
    if history.len() > 0 && threshold > 0 {
        let p = history.drop_last();
        lemma_threshold_means_failures_in_a_row(p, (threshold - 1) as nat);
        if history.last() {
            assert(history[history.len() - 1]);
        } else if failures_after(history) >= threshold {
            assert forall|i: int| history.len() - threshold <= i < history.len() implies
                !#[trigger] history[i] by {
                if i < p.len() {
                    assert(!p[i]);
                }
            }
        } else if threshold <= history.len() {
            let i = choose|i: int|
                p.len() - (threshold - 1) <= i < p.len() && #[trigger] p[i];
            assert(history[i]);
        }
    }
}

} // verus!
