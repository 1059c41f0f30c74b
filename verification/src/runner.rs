//! The decisions of the child-process runner: how a command line splits
//! into program and arguments, and how a running child is stopped — first
//! interrupted, then, if it is still running after a grace period, killed.
use vstd::prelude::*;

use crate::text::copy_strings;

verus! {

/// How long a child is given to exit after it is interrupted, in
/// milliseconds.
pub const INTERRUPT_GRACE_MS: u64 = 200;

/// How long to sleep between checks while waiting for a child, in
/// milliseconds.
pub const WAIT_POLL_MS: u64 = 10;

/// Why a command cannot be started.
#[derive(Clone, Copy, Debug, PartialEq, Eq, Structural)]
pub enum CommandError {
    /// The command has no program.
    Empty,
}

/// The program of a command and its arguments: the first element and the
/// rest.
pub fn program_and_args(command: &[String]) -> (r: Result<(String, Vec<String>), CommandError>)
    ensures
        command@.len() == 0 <==> r is Err,
        r matches Ok((program, args)) ==> program@ == command@[0]@ && args.deep_view()
            == command.deep_view().drop_first(),
{
    if command.len() == 0 {
        return Err(CommandError::Empty);
    }
    let program = command[0].clone();
    let args = copy_strings(command, 1);
    assert(command.deep_view().subrange(1, command.len() as int) =~= command.deep_view().drop_first());
    Ok((program, args))
}

/// What one check of a child found.
#[derive(Clone, Copy, Debug, PartialEq, Eq, Structural)]
pub enum ChildStatus {
    /// The child has exited.
    Exited,
    /// The child is still running.
    Running,
    /// The check itself failed.
    Failed,
}

/// How a bounded wait for a child ended, or that it goes on.
#[derive(Clone, Copy, Debug, PartialEq, Eq, Structural)]
pub enum WaitStep {
    /// The child has exited.
    Exited,
    /// The time limit passed with the child still running.
    TimedOut,
    /// Checking the child failed.
    Failed,
    /// Sleep, then check again.
    Sleep,
}

/// One round of a bounded wait: a check that settles the child ends the
/// wait; a running child ends it once the time limit has passed, and
/// otherwise the wait goes on.
pub open spec fn wait_step_spec(status: ChildStatus, elapsed: u128, timeout: u128) -> WaitStep {
    match status {
        ChildStatus::Exited => WaitStep::Exited,
        ChildStatus::Failed => WaitStep::Failed,
        ChildStatus::Running => if elapsed >= timeout {
            WaitStep::TimedOut
        } else {
            WaitStep::Sleep
        },
    }
}

/// A bounded wait ends as soon as a check settles the child, goes on while
/// a running child is within the time limit, and times out once the limit
/// is reached.
pub proof fn lemma_wait_rules(elapsed: u128, timeout: u128)
    ensures
        wait_step_spec(ChildStatus::Exited, elapsed, timeout) == WaitStep::Exited,
        wait_step_spec(ChildStatus::Failed, elapsed, timeout) == WaitStep::Failed,
        elapsed < timeout ==> wait_step_spec(ChildStatus::Running, elapsed, timeout)
            == WaitStep::Sleep,
        elapsed >= timeout ==> wait_step_spec(ChildStatus::Running, elapsed, timeout)
            == WaitStep::TimedOut,
{
}

/// One round of a bounded wait for a child, from what the check found and
/// how long the wait has lasted (`elapsed` and `timeout` in one unit).
pub fn wait_step(status: ChildStatus, elapsed: u128, timeout: u128) -> (r: WaitStep)
    ensures
        r == wait_step_spec(status, elapsed, timeout),
{
    match status {
        ChildStatus::Exited => WaitStep::Exited,
        ChildStatus::Failed => WaitStep::Failed,
        ChildStatus::Running => if elapsed >= timeout {
            WaitStep::TimedOut
        } else {
            WaitStep::Sleep
        },
    }
}

/// What to do after an interrupted child's grace period.
#[derive(Clone, Copy, Debug, PartialEq, Eq, Structural)]
pub enum StopStep {
    /// The child is gone: report it as interrupted.
    Interrupted,
    /// The child is still running: kill it.
    Kill,
}

/// After interrupting a child and waiting out the grace period: a child
/// that exited, or that could not be checked, counts as interrupted; one
/// still running is killed.
pub fn after_interrupt(wait: WaitStep) -> (r: StopStep)
    requires
        wait != WaitStep::Sleep,
    ensures
        r == StopStep::Kill <==> wait == WaitStep::TimedOut,
{
    match wait {
        WaitStep::TimedOut => StopStep::Kill,
        _ => StopStep::Interrupted,
    }
}

} // verus!
