//! How processes end.

use vstd::prelude::*;

verus! {

/// The status with which a process ended, as the operating system encodes it.
#[derive(Debug, Clone, Copy, PartialEq, Eq, Structural)]
pub struct ExitStatus {
    /// The encoded status: zero for a regular exit with code zero
    pub raw: i32,
}

impl ExitStatus {
    /// The status of the given encoding.
    pub fn from_raw(raw: i32) -> (status: Self)
        ensures
            status.raw == raw,
    {
        ExitStatus { raw }
    }

    /// Whether the process exited regularly with code zero.
    pub fn success(&self) -> (success: bool)
        ensures
            success == (self.raw == 0),
    {
        self.raw == 0
    }
}

/// Errors which can occur during service management.
#[derive(Debug, Clone, Copy, PartialEq, Eq, Structural)]
pub enum ServiceError {
    /// The process exited with a failure
    ProcessExited {
        /// Exit status
        status: ExitStatus,
    },
}

/// What the end of a process means: success, or an error that keeps the status.
pub fn exit_result(status: ExitStatus) -> (result: Result<(), ServiceError>)
    ensures
        status.raw == 0 ==> result == Ok::<(), ServiceError>(()),
        status.raw != 0 ==> result == Err::<(), ServiceError>(
            ServiceError::ProcessExited { status },
        ),
{
    if status.success() {
        Ok(())
    } else {
        Err(ServiceError::ProcessExited { status })
    }
}

/// What a watched process, or the one who runs it, reports.
#[derive(Debug, Clone, Copy, PartialEq, Eq, Structural)]
pub enum WatchEvent {
    /// The run was cancelled
    Cancelled,
    /// The process ended
    Exited(ExitStatus),
}

/// What to do about a watched process.
#[derive(Debug, Clone, Copy, PartialEq, Eq, Structural)]
pub enum WatchAction {
    /// Shut the process down, then wait for its loggers
    ShutDown,
    /// Wait for the loggers of the process
    JoinLoggers,
    /// Give up with an error
    Fail(ServiceError),
}

/// What to do when a watched process ends or the run is cancelled, whichever comes first.
pub fn watch_step(event: WatchEvent) -> (action: WatchAction)
    ensures
        action == match event {
            WatchEvent::Cancelled => WatchAction::ShutDown,
            WatchEvent::Exited(status) => if status.raw == 0 {
                WatchAction::JoinLoggers
            } else {
                WatchAction::Fail(ServiceError::ProcessExited { status })
            },
        },
{
    match event {
        WatchEvent::Cancelled => WatchAction::ShutDown,
        WatchEvent::Exited(status) => match exit_result(status) {
            Ok(()) => WatchAction::JoinLoggers,
            Err(error) => WatchAction::Fail(error),
        },
    }
}

/// How a process is made to end.
#[derive(Debug, Clone, Copy, PartialEq, Eq, Structural)]
pub enum ShutdownAction {
    /// Ask the process of this id to terminate and wait for it, but not longer than the limit
    Terminate(i32),
    /// Kill the process of this id and wait for it
    Kill(i32),
    /// Kill the child, whose id is not known
    KillChild,
    /// Nothing more: the process has ended
    Done,
}

/// The process id as signals take it.
pub open spec fn signal_pid(pid: u32) -> int {
    if pid <= 0x7fff_ffff {
        pid as int
    } else {
        pid - 0x1_0000_0000
    }
}

/// How to begin a shutdown.
pub fn shutdown_begin(pid: Option<u32>) -> (action: ShutdownAction)
    ensures
        match pid {
            Some(pid) => action matches ShutdownAction::Terminate(p) && p == signal_pid(pid)
                && (p as int) % 0x1_0000_0000 == pid,
            None => action == ShutdownAction::KillChild,
        },
{
    match pid {
        Some(pid) => ShutdownAction::Terminate(to_signal_pid(pid)),
        None => ShutdownAction::KillChild,
    }
}

fn to_signal_pid(pid: u32) -> (p: i32)
    ensures
        p == signal_pid(pid),
{
    if pid <= 0x7fff_ffff {
        pid as i32
    } else {
        (pid as i64 - 0x1_0000_0000) as i32
    }
}

/// What follows an action of a shutdown: a process that did not end in time is killed.
pub open spec fn action_after(done: ShutdownAction, timed_out: bool) -> ShutdownAction {
    match done {
        ShutdownAction::Terminate(pid) => if timed_out {
            ShutdownAction::Kill(pid)
        } else {
            ShutdownAction::Done
        },
        _ => ShutdownAction::Done,
    }
}

/// How to go on with a shutdown after an action has been carried out.
pub fn shutdown_next(done: ShutdownAction, timed_out: bool) -> (action: ShutdownAction)
    ensures
        action == action_after(done, timed_out),
        (done matches ShutdownAction::Terminate(pid) && timed_out) ==> action
            == ShutdownAction::Kill(done->Terminate_0),
        !(done is Terminate && timed_out) ==> action == ShutdownAction::Done,
{
    match done {
        ShutdownAction::Terminate(pid) => if timed_out {
            ShutdownAction::Kill(pid)
        } else {
            ShutdownAction::Done
        },
        _ => ShutdownAction::Done,
    }
}

/// A shutdown is over after two actions, and a process is only killed after it was asked to
/// terminate and did not do so in time.
pub proof fn law_shutdown_ends(begin: ShutdownAction, timed_out: bool, again: bool)
    requires
        begin is Terminate || begin is KillChild,
    ensures
        action_after(action_after(begin, timed_out), again) is Done,
        action_after(begin, timed_out) is Kill <==> begin is Terminate && timed_out,
{
}

/// A process that was asked to terminate and did not do so in time is killed, and no other
/// process is. In every other case nothing more is done.
pub proof fn law_shutdown_kills_whom_it_asked(pid: i32, done: ShutdownAction, timed_out: bool)
    ensures
        action_after(ShutdownAction::Terminate(pid), true) == ShutdownAction::Kill(pid),
        action_after(ShutdownAction::Terminate(pid), false) == ShutdownAction::Done,
        !(done is Terminate) ==> action_after(done, timed_out) == ShutdownAction::Done,
{
}

/// Signals take a process id as a signed number of the same bits.
pub proof fn law_signal_pid_keeps_the_bits(pid: u32)
    ensures
        i32::MIN <= signal_pid(pid) <= i32::MAX,
        signal_pid(pid) % 0x1_0000_0000 == pid,
{
}

} // verus!
