//! The decisions of running a binary on one input: when to stop waiting
//! for it, and what its end means. Spawning, piping and killing the
//! process are the caller's.

use vstd::prelude::*;
use crate::interrupt::Interrupted;
use crate::random_test::runner::RunResult;

verus! {

/// What to do while the child runs.
#[derive(Clone, Copy, Debug, PartialEq, Eq, Structural)]
pub enum PollAction {
    /// The child has exited: collect its status.
    Finished,
    /// SIGINT arrived: kill the child, the run is interrupted.
    KillInterrupted,
    /// The time limit passed: kill the child, the run timed out.
    KillTimedOut,
    /// Sleep a little and poll again.
    Wait,
}

/// One poll of a running child: an exit wins, then an interrupt, then the
/// time limit (`None`: no limit), all in nanoseconds.
pub fn poll_action(exited: bool, cancelled: bool, elapsed_nanos: u128, timelimit_nanos: Option<u128>) -> (r: PollAction)
    ensures
        r == (if exited {
            PollAction::Finished
        } else if cancelled {
            PollAction::KillInterrupted
        } else if timelimit_nanos matches Some(l) && elapsed_nanos > l {
            PollAction::KillTimedOut
        } else {
            PollAction::Wait
        }),
{
    if exited {
        PollAction::Finished
    } else if cancelled {
        PollAction::KillInterrupted
    } else {
        match timelimit_nanos {
            Some(l) => if elapsed_nanos > l {
                PollAction::KillTimedOut
            } else {
                PollAction::Wait
            },
            None => PollAction::Wait,
        }
    }
}

/// How a child exited: successfully or not, and its code when it has one.
#[derive(Clone, Copy, Debug, PartialEq, Eq, Structural)]
pub struct ExitStatus {
    pub success: bool,
    pub code: Option<i32>,
}

/// The result of a run from how the wait ended: an interrupt wins; a child
/// killed for time is a TLE; a success gives its output; any other exit is
/// a runtime error with its code, `-1` without one.
pub fn run_outcome(interrupted: bool, timed_out: bool, status: Option<ExitStatus>, stdout: String) -> (r: Result<
    RunResult,
    Interrupted,
>)
    requires
        interrupted || timed_out || status is Some,
    ensures
        interrupted ==> r == Err::<RunResult, Interrupted>(Interrupted),
        !interrupted ==> match status {
            None => r == Ok::<RunResult, Interrupted>(RunResult::TimeLimitExceeded),
            Some(s) => if s.success {
                r == Ok::<RunResult, Interrupted>(RunResult::Success(stdout))
            } else {
                r == Ok::<RunResult, Interrupted>(
                    RunResult::RuntimeError(
                        match s.code {
                            Some(c) => c,
                            None => -1i32,
                        },
                    ),
                )
            },
        },
{
    if interrupted {
        return Err(Interrupted);
    }
    match status {
        None => Ok(RunResult::TimeLimitExceeded),
        Some(s) => {
            if s.success {
                Ok(RunResult::Success(stdout))
            } else {
                Ok(RunResult::RuntimeError(
                    match s.code {
                        Some(c) => c,
                        None => -1,
                    },
                ))
            }
        },
    }
}

} // verus!
