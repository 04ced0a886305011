//! The run of one instance: which command is called next, and what the
//! outcome of each call does to the instance's fate.
use crate::cmd::{Cmd, CmdView};
use crate::condition::condition_holds;
use vstd::prelude::*;

verus! {

/// What came of one native call: the value it returned, or no value because
/// the call could not be made.
#[derive(Debug, Clone, Copy, PartialEq, Eq)]
pub enum CallOutcome {
    Returned(i64),
    Failed,
}

/// Where the run of an instance stands.
pub struct RunState {
    /// The commands of the instance.
    pub cmds: Seq<CmdView>,
    /// How many commands were called.
    pub next: int,
    /// Whether every call so far met its expectation.
    pub passed: bool,
    /// Whether the run was ended before its last command.
    pub stopped: bool,
    /// Whether a failed expectation ends the run.
    pub break_if_fail: bool,
}

/// The run before its first call.
pub open spec fn start(cmds: Seq<CmdView>, break_if_fail: bool) -> RunState {
    RunState { cmds, next: 0, passed: true, stopped: false, break_if_fail }
}

/// Whether no further command is to be called.
pub open spec fn is_done(s: RunState) -> bool {
    s.stopped || s.next >= s.cmds.len()
}

/// What a call's outcome means for its command: `Some(true)` where the call
/// returned what is expected, `Some(false)` where it returned something
/// else, and `None` where the call failed or the expectation spells no
/// number.
pub open spec fn verdict(cmd: CmdView, outcome: CallOutcome) -> Option<bool> {
    match outcome {
        CallOutcome::Failed => None,
        CallOutcome::Returned(ret) => condition_holds(cmd.condition, ret),
    }
}

/// The run after the next command was called with the given outcome. A met
/// expectation moves on; a failed one marks the instance failed and ends the
/// run where the instance breaks on failure; an error marks it failed and
/// ends the run in any case.
pub open spec fn advance(s: RunState, outcome: CallOutcome) -> RunState {
    match verdict(s.cmds[s.next], outcome) {
        Some(true) => RunState { next: s.next + 1, ..s },
        Some(false) => RunState {
            next: s.next + 1,
            passed: false,
            stopped: s.stopped || s.break_if_fail,
            ..s
        },
        None => RunState { next: s.next + 1, passed: false, stopped: true, ..s },
    }
}

/// The fate of an instance whose `i`-th command, if called, has the outcome
/// `outcomes(i)`.
pub open spec fn run_to_end(s: RunState, outcomes: spec_fn(int) -> CallOutcome) -> bool
    decreases s.cmds.len() - s.next,
{
    if is_done(s) || s.next < 0 {
        s.passed
    } else {
        run_to_end(advance(s, outcomes(s.next)), outcomes)
    }
}

/// What the next thing to do for an instance is.
#[derive(Debug)]
pub enum Step<'a> {
    /// Call this command and record what comes of it.
    Call(&'a Cmd),
    /// Nothing is left to call; the instance passed or failed.
    Done(bool),
}

/// The run of one instance.
#[derive(Debug)]
pub struct InstanceRun {
    cmds: Vec<Cmd>,
    next: usize,
    passed: bool,
    stopped: bool,
    break_if_fail: bool,
}

impl View for InstanceRun {
    type V = RunState;

    closed spec fn view(&self) -> RunState {
        RunState {
            cmds: self.cmds.deep_view(),
            next: self.next as int,
            passed: self.passed,
            stopped: self.stopped,
            break_if_fail: self.break_if_fail,
        }
    }
}

impl InstanceRun {
    /// What every run satisfies: it has not called more commands than it
    /// has.
    #[verifier::type_invariant]
    spec fn within(self) -> bool {
        self.next <= self.cmds.len()
    }

    /// A run of `cmds` that has not called anything yet.
    pub fn begin(cmds: Vec<Cmd>, break_if_fail: bool) -> (r: InstanceRun)
        ensures
            r@ == start(cmds.deep_view(), break_if_fail),
    {
        InstanceRun { cmds, next: 0, passed: true, stopped: false, break_if_fail }
    }

    /// What to do next: the command to call, or the instance's fate.
    pub fn step(&self) -> (s: Step<'_>)
        ensures
            0 <= self@.next <= self@.cmds.len(),
            match s {
                Step::Done(passed) => is_done(self@) && passed == self@.passed,
                Step::Call(cmd) => !is_done(self@) && cmd@ == self@.cmds[self@.next],
            },
    {
        proof {
            use_type_invariant(self);
        }
        if self.stopped || self.next >= self.cmds.len() {
            Step::Done(self.passed)
        } else {
            Step::Call(&self.cmds[self.next])
        }
    }

    /// Records what came of the call of the command that [`Self::step`]
    /// handed out.
    pub fn record(&mut self, outcome: CallOutcome)
        requires
            !is_done(old(self)@),
        ensures
            final(self)@ == advance(old(self)@, outcome),
    {
        proof {
            use_type_invariant(&*self);
        }
        let met = match outcome {
            CallOutcome::Failed => None,
            CallOutcome::Returned(ret) => self.cmds[self.next].judge(ret),
        };
        let next = self.next + 1;
        match met {
            Some(true) => {},
            Some(false) => {
                self.passed = false;
                if self.break_if_fail {
                    self.stopped = true;
                }
            },
            None => {
                self.passed = false;
                self.stopped = true;
            },
        }
        self.next = next;
    }
}

/// An instance passes exactly where every one of its commands is called and
/// meets its expectation.
pub proof fn lemma_pass_means_all_met(s: RunState, outcomes: spec_fn(int) -> CallOutcome)
    requires
        0 <= s.next <= s.cmds.len(),
        !s.stopped,
        s.passed,
    ensures
        run_to_end(s, outcomes) <==> forall|i: int|
            s.next <= i < s.cmds.len() ==> verdict(#[trigger] s.cmds[i], outcomes(i)) == Some(
                true,
            ),
    decreases s.cmds.len() - s.next,
{
    if s.next < s.cmds.len() {
        let after = advance(s, outcomes(s.next));
        match verdict(s.cmds[s.next], outcomes(s.next)) {
            Some(true) => {
                lemma_pass_means_all_met(after, outcomes);
            },
            _ => {
                lemma_failed_stays_failed(after, outcomes);
            },
        }
    }
}

/// Once an instance has failed, nothing that follows makes it pass.
pub proof fn lemma_failed_stays_failed(s: RunState, outcomes: spec_fn(int) -> CallOutcome)
    requires
        !s.passed,
    ensures
        !run_to_end(s, outcomes),
    decreases s.cmds.len() - s.next,
{
    if !(is_done(s) || s.next < 0) {
        lemma_failed_stays_failed(advance(s, outcomes(s.next)), outcomes);
    }
}

/// Where an instance breaks on failure, the first failed expectation ends
/// it; an error ends it whether it breaks on failure or not.
pub proof fn lemma_run_ends_early(s: RunState, outcome: CallOutcome)
    requires
        0 <= s.next < s.cmds.len(),
    ensures
        verdict(s.cmds[s.next], outcome) == Some(false) && s.break_if_fail ==> is_done(
            advance(s, outcome),
        ),
        verdict(s.cmds[s.next], outcome) is None ==> is_done(advance(s, outcome)),
        verdict(s.cmds[s.next], outcome) == Some(false) && !s.break_if_fail && !s.stopped
            ==> advance(s, outcome).next == s.next + 1 && !advance(s, outcome).stopped,
{
}

} // verus!
