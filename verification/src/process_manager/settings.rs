//! Settings of the process manager.

use vstd::prelude::*;

verus! {

/// When a service is restarted after its process has exited with a failure.
#[derive(Debug, Clone, Copy)]
pub enum RestartMode {
    /// After every failure
    Always,
    /// After a limited number of failures
    UpToCount,
    /// After none
    Never,
}

/// How services are restarted.
#[derive(Debug, Clone, Copy)]
pub struct Restart {
    /// When a service is restarted
    pub mode: RestartMode,
    /// The limit that `UpToCount` refers to
    pub count: usize,
    /// Milliseconds to wait before a restart, and for a process to end
    pub time_ms: u64,
}

/// How the output of services is logged.
#[derive(Debug)]
pub struct Logging {
    /// Directory to write log files to
    pub logs_dir: Option<String>,
}

/// What happens before the services start.
#[derive(Debug)]
pub struct Startup {
    /// Binary to run before any service starts
    pub run_on_startup: Option<String>,
}

/// Settings of the process manager.
#[derive(Debug)]
pub struct Settings {
    /// How services are restarted
    pub restart: Restart,
    /// How the output of services is logged
    pub logging: Logging,
    /// What happens before the services start
    pub startup: Startup,
}

} // verus!
