//! The worker that goes on once the hook has returned.

use vstd::prelude::*;

verus! {

/// Which side of the detachment a process is on.
#[derive(Clone, Copy, Debug, PartialEq, Eq, Structural)]
pub enum Role {
    /// The hook's own process. It returns at once.
    Caller,
    /// Detached, and free to take as long as it needs.
    Worker,
    /// It could not be done.
    CannotDetach,
}

/// What a call of `fork` returned.
#[derive(Clone, Copy, Debug, PartialEq, Eq, Structural)]
pub enum Forked {
    /// It failed.
    Failed,
    /// In the new process.
    Child,
    /// In the process that called it.
    Parent,
}

/// What a process does after the first of the two forks that detach it.
#[derive(Clone, Copy, Debug, PartialEq, Eq, Structural)]
pub enum AfterFork {
    /// It is done, in this role.
    Is(Role),
    /// It leaves the host's process group and forks again.
    Again,
    /// It exits, so that nobody waits for its child.
    Exit,
}

/// Decides what follows from the first fork.
pub fn after_first_fork(forked: Forked) -> (after: AfterFork)
    ensures
        after == (match forked {
            Forked::Failed => AfterFork::Is(Role::CannotDetach),
            Forked::Child => AfterFork::Again,
            Forked::Parent => AfterFork::Is(Role::Caller),
        }),
{
    match forked {
        Forked::Failed => AfterFork::Is(Role::CannotDetach),
        Forked::Child => AfterFork::Again,
        Forked::Parent => AfterFork::Is(Role::Caller),
    }
}

/// Decides what follows from the second fork. Where it fails the process is out
/// of the host's group already, and does the work itself.
pub fn after_second_fork(forked: Forked) -> (after: AfterFork)
    ensures
        after == (match forked {
            Forked::Parent => AfterFork::Exit,
            _ => AfterFork::Is(Role::Worker),
        }),
{
    match forked {
        Forked::Parent => AfterFork::Exit,
        _ => AfterFork::Is(Role::Worker),
    }
}

/// The most bytes of the log. It is there to explain the last failure.
pub const MAX_LOG_BYTES: u64 = 262_144;

/// Whether the log is begun anew, given how long it is, if it is there.
pub fn log_is_full(bytes: Option<u64>) -> (full: bool)
    ensures
        full == (bytes matches Some(bytes) && bytes > MAX_LOG_BYTES),
        full <==> (bytes matches Some(bytes) && bytes > 256 * 1024),
{
    match bytes {
        Some(bytes) => bytes > MAX_LOG_BYTES,
        None => false,
    }
}

} // verus!
