//! Interrupt handling as state: whether a SIGINT arrived, and whether the
//! default action (terminating the process) is in force. The signal
//! registration itself is the caller's.

use vstd::prelude::*;
use std::sync::atomic::AtomicBool;

verus! {

/// A run was interrupted by SIGINT.
#[derive(Clone, Copy, Debug, PartialEq, Eq, Structural)]
pub struct Interrupted;

impl Interrupted {
    pub fn message(&self) -> (r: String)
        ensures
            r@ == "interrupted"@,
    {
        "interrupted".to_string()
    }
}

/// The two flags the SIGINT handler works with.
#[derive(Clone, Copy, Debug, PartialEq, Eq, Structural)]
pub struct InterruptFlags {
    /// A SIGINT arrived since the handler was last activated.
    pub interrupted: bool,
    /// SIGINT terminates the process.
    pub use_default_action: bool,
}

impl InterruptFlags {
    /// Before any activation: nothing arrived, SIGINT terminates.
    pub fn new() -> (r: InterruptFlags)
        ensures
            !r.interrupted,
            r.use_default_action,
    {
        InterruptFlags { interrupted: false, use_default_action: true }
    }
}

/// Start catching SIGINT: clear the flag and take the default action off;
/// when installing the handler failed, the default action stays and the
/// failure is reported.
pub fn activate(flags: &mut InterruptFlags, install_error: Option<String>) -> (r: Result<(), String>)
    ensures
        !final(flags).interrupted,
        match install_error {
            None => r is Ok && !final(flags).use_default_action,
            Some(e) => final(flags).use_default_action && (r matches Err(m) && m@ == (
                "failed to install SIGINT handler: "@ + e@)),
        },
{
    flags.interrupted = false;
    flags.use_default_action = false;
    match install_error {
        None => Ok(()),
        Some(e) => {
            flags.use_default_action = true;
            Err(crate::text::concat_str("failed to install SIGINT handler: ", e.as_str()))
        },
    }
}

/// The end of an activation: SIGINT terminates again.
pub fn deactivate(flags: &mut InterruptFlags)
    ensures
        final(flags).use_default_action,
        final(flags).interrupted == old(flags).interrupted,
{
    flags.use_default_action = true;
}

/// Whether a SIGINT arrived.
pub fn requested(flags: &InterruptFlags) -> (r: bool)
    ensures
        r == flags.interrupted,
{
    flags.interrupted
}

/// `Err(Interrupted)` once a SIGINT arrived.
pub fn check(flags: &InterruptFlags) -> (r: Result<(), Interrupted>)
    ensures
        r is Err <==> flags.interrupted,
{
    if requested(flags) {
        return Err(Interrupted);
    }
    Ok(())
}

/// Whether the flag a SIGINT handler sets is set now. Another thread may
/// set it at any moment, so one read says nothing of the next.
pub fn signalled(flag: &AtomicBool) -> (r: bool) {
    flag.load(std::sync::atomic::Ordering::SeqCst)
}

/// A SIGINT arrives: it is recorded.
pub fn on_signal(flags: &mut InterruptFlags)
    ensures
        final(flags).interrupted,
        final(flags).use_default_action == old(flags).use_default_action,
{
    flags.interrupted = true;
}

} // verus!
