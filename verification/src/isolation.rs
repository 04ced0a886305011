//! Crash isolation: a test that is expected to crash runs in a child
//! process, and passes only if that process is ended by a signal. This
//! module holds the decisions; forking, waiting and killing are the
//! caller's.
use crate::cmd::{Cmd, CmdView};
use crate::env::{exit_of, init_of, lemma_scopes_nest, wrap_in, EnvView, ResourceEnv};
use crate::test::{Test, TestView};
use vstd::prelude::*;

verus! {

/// How long the parent waits for the child, in milliseconds.
pub const WAIT_TIMEOUT_MS: u64 = 1000;

/// How long the parent pauses between two looks at the child, in
/// milliseconds.
pub const POLL_INTERVAL_MS: u64 = 100;

/// What a look at the child process found.
#[derive(Debug, Clone, Copy, PartialEq, Eq)]
pub enum ChildStatus {
    /// The child is still running.
    StillAlive,
    /// The child exited by itself, with this code.
    Exited(i32),
    /// The child was ended by a signal.
    Signaled,
    /// The child is in some other state.
    Other,
    /// The look itself failed.
    WaitFailed,
}

/// What the parent does after a look at the child.
#[derive(Debug, Clone, Copy, PartialEq, Eq)]
pub enum WatchAction {
    /// Pause for [`POLL_INTERVAL_MS`], then look again.
    PollAgain,
    /// Kill the child and report the instance as failed.
    KillAndFail,
    /// Report the instance as passed or failed.
    Report(bool),
}

/// The action that follows a look at the child, `elapsed_ms` milliseconds
/// after it was started. Only a child ended by a signal makes the instance
/// pass; a child that is still running after the timeout is killed.
pub open spec fn watch_action(status: ChildStatus, elapsed_ms: u64) -> WatchAction {
    match status {
        ChildStatus::StillAlive => if elapsed_ms > WAIT_TIMEOUT_MS {
            WatchAction::KillAndFail
        } else {
            WatchAction::PollAgain
        },
        ChildStatus::Signaled => WatchAction::Report(true),
        ChildStatus::Exited(_) => WatchAction::Report(false),
        ChildStatus::Other => WatchAction::Report(false),
        ChildStatus::WaitFailed => WatchAction::Report(false),
    }
}

/// The test as the child process runs it: one instance, in process, with no
/// crash expected of it.
pub open spec fn isolated_child(t: TestView) -> TestView {
    TestView { thread_num: 1, should_panic: false, ..t }
}

/// Decides what the parent does after a look at the child.
pub fn watch(status: ChildStatus, elapsed_ms: u64) -> (action: WatchAction)
    ensures
        action == watch_action(status, elapsed_ms),
        action == WatchAction::Report(true) <==> status == ChildStatus::Signaled,
{
    match status {
        ChildStatus::StillAlive => if elapsed_ms > WAIT_TIMEOUT_MS {
            WatchAction::KillAndFail
        } else {
            WatchAction::PollAgain
        },
        ChildStatus::Signaled => WatchAction::Report(true),
        ChildStatus::Exited(_) => WatchAction::Report(false),
        ChildStatus::Other => WatchAction::Report(false),
        ChildStatus::WaitFailed => WatchAction::Report(false),
    }
}

/// The exit code by which the child tells how its instance ended: zero for
/// a pass, one for a failure.
pub fn child_exit_code(passed: bool) -> (code: i32)
    ensures
        code == if passed {
            0i32
        } else {
            1i32
        },
{
    if passed {
        0
    } else {
        1
    }
}

impl Test {
    /// Whether an instance of this test runs in a child process.
    pub fn needs_isolation(&self) -> (r: bool)
        ensures
            r == self.should_panic,
    {
        self.should_panic
    }

    /// The test as the child process runs it.
    pub fn isolated_child(&self) -> (t: Test)
        ensures
            t@ == isolated_child(self@),
    {
        let mut t = self.clone();
        t.thread_num = 1;
        t.should_panic = false;
        t
    }
}

/// What the child process runs, in this order: the commands that set up,
/// the one instance of the test, and the commands that tear down.
#[derive(Debug)]
pub struct ChildRun {
    pub set_up: Vec<Cmd>,
    pub body: Test,
    pub tear_down: Vec<Cmd>,
}

/// The commands that the child process runs, in order: those of the test
/// inside the thread environment, inside the process environment.
pub open spec fn child_commands(
    process_env: Option<EnvView>,
    thread_env: Option<EnvView>,
    t: TestView,
) -> Seq<CmdView> {
    wrap_in(process_env, wrap_in(thread_env, t.cmds))
}

impl ResourceEnv {
    /// What the child process of `test` runs: first the set-up of the
    /// process environment and of the thread environment, then the test as
    /// [`Test::isolated_child`] gives it, then the tear-down of the thread
    /// environment and of the process environment.
    pub fn child_run(&self, test: &Test) -> (r: ChildRun)
        ensures
            r.set_up.deep_view() == init_of(self.process_env.deep_view()) + init_of(
                self.thread_env.deep_view(),
            ),
            r.body@ == isolated_child(test@),
            r.tear_down.deep_view() == exit_of(self.thread_env.deep_view()) + exit_of(
                self.process_env.deep_view(),
            ),
            r.set_up.deep_view() + r.body@.cmds + r.tear_down.deep_view() == child_commands(
                self.process_env.deep_view(),
                self.thread_env.deep_view(),
                test@,
            ),
    {
        proof {
            lemma_scopes_nest(
                self.process_env.deep_view(),
                self.thread_env.deep_view(),
                test@.cmds,
            );
        }
        ChildRun { set_up: self.startup(), body: test.isolated_child(), tear_down: self.shutdown() }
    }
}

} // verus!
