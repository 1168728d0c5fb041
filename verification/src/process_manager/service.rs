//! Data representation of the services.

use crate::name_map::NameMap;
use crate::names::{duplicate_names, names};
use vstd::prelude::*;

verus! {

/// Service type, similar to systemd's `Type=`.
#[derive(Debug, Clone, Copy)]
pub enum ServiceType {
    /// Service runs continuously, expected to stay running (default).
    Simple,
    /// Service runs once and exits. Considered "started" on successful exit.
    Oneshot,
    /// Service announces that it is ready (handled like `Simple`).
    Notify,
}

impl Default for ServiceType {
    fn default() -> (kind: Self)
        ensures
            kind is Simple,
    {
        ServiceType::Simple
    }
}

/// A configuration file of a service.
#[derive(Debug)]
pub struct ConfigData {
    /// Whether the file is provided to the service
    pub enable: bool,
    /// Where the file's contents come from
    pub source: String,
}

/// A command line.
#[derive(Debug)]
pub struct ArgV {
    /// The program to run
    pub binary: String,
    /// The arguments that the program gets
    pub args: Vec<String>,
}

impl Clone for ArgV {
    fn clone(&self) -> (copy: Self)
        ensures
            copy.binary@ == self.binary@,
            names(copy.args@) == names(self.args@),
    {
        ArgV { binary: self.binary.clone(), args: duplicate_names(&self.args) }
    }
}

/// The process of a service.
#[derive(Debug)]
pub struct Process {
    /// The command line that starts the process
    pub argv: ArgV,
}

impl Clone for Process {
    fn clone(&self) -> (copy: Self)
        ensures
            copy.argv.binary@ == self.argv.binary@,
            names(copy.argv.args@) == names(self.argv.args@),
    {
        Process { argv: self.argv.clone() }
    }
}

/// Service data.
#[derive(Debug)]
pub struct Service {
    /// Configuration files for the service
    pub config_data: NameMap<String, ConfigData>,
    /// Process configuration
    pub process: Process,
    /// Optional binary to run before each start of this service
    pub pre_start: Option<String>,
    /// Optional binary to run after service starts. Runs once after spawn. If it fails, the
    /// service fails. If it succeeds, the service is marked ready.
    pub post_start: Option<String>,
    /// Service type
    pub service_type: ServiceType,
}

/// When a service should start, relative to other services.
#[derive(Debug)]
pub struct ServiceOrdering {
    /// Services that should start earlier
    pub after: Vec<String>,
    /// Services that should start later
    pub before: Vec<String>,
}

} // verus!
