//! Supervision of one service: its launch, its end and its restarts.

use crate::process_manager::exit::ExitStatus;
use crate::process_manager::service::{Service, ServiceType};
use crate::process_manager::settings::{Restart, RestartMode, Settings};
use crate::process_manager::ServiceEvent;
use std::sync::Arc;
use vstd::prelude::*;

pub use crate::process_manager::exit::ServiceError;

verus! {

/// Used to set up a service manager.
#[derive(Debug)]
pub struct ServiceManagerOpts {
    /// Directory to store logs in
    pub logs_dir: Option<String>,
    /// Temporary directory
    pub tmp_dir: String,
    /// Process manager settings
    pub settings: Arc<Settings>,
    /// Service name
    pub name: String,
    /// Service config
    pub service: Service,
}

/// Responsible for the course of one service.
#[derive(Debug)]
pub struct ServiceManager {
    /// Process manager settings
    pub settings: Arc<Settings>,
    /// Service name
    pub name: String,
    /// Service config
    pub service: Service,
    /// How often the service has been restarted, as far as restarts are counted
    pub current_restart_count: usize,
    /// Directory that holds the service's configuration files
    pub config_dir: String,
    /// Directory to store logs in
    pub logs_dir: Option<String>,
}

/// What came of a launch of the service.
#[derive(Debug, Clone, Copy, PartialEq, Eq, Structural)]
pub enum LaunchOutcome {
    /// Everything went well, up to the end of the process
    Finished,
    /// The run was cancelled, and the process has been shut down
    Stopped,
    /// The process of the service exited with a failure
    Exited(ServiceError),
    /// The pre-start binary exited with a failure, so the process was not created
    PreStartExited(ServiceError),
    /// Something else went wrong
    Broke,
}

/// What follows the end of a launch.
#[derive(Debug, Clone, Copy, PartialEq, Eq, Structural)]
pub enum NextMove {
    /// The service is done
    Stop,
    /// The service is done, with the error that came last
    Fail,
    /// Wait for the restart delay
    Delay,
    /// Launch the service again
    Launch,
}

/// What follows the end of a launch or of a delay, and the events to emit before.
#[derive(Debug)]
pub struct Verdict {
    /// What to do next
    pub next: NextMove,
    /// The events to emit, in order
    pub events: Vec<ServiceEvent>,
}

/// Whether a service is restarted that has been restarted the given number of times.
pub open spec fn restarts_again(restart: Restart, count: nat) -> bool {
    match restart.mode {
        RestartMode::Always => true,
        RestartMode::UpToCount => count < restart.count,
        RestartMode::Never => false,
    }
}

/// The number of restarts after another failure. Only restarts up to a limit are counted.
pub open spec fn next_count(restart: Restart, count: nat) -> nat {
    if restart.mode is UpToCount && count < restart.count {
        count + 1
    } else {
        count
    }
}

/// The number of restarts after several failures.
pub open spec fn count_after(restart: Restart, failures: nat) -> nat
    decreases failures,
{
    if failures == 0 {
        0
    } else {
        next_count(restart, count_after(restart, (failures - 1) as nat))
    }
}

/// The status that a failed service which runs once is announced with.
pub open spec fn failure_status(outcome: LaunchOutcome) -> ExitStatus {
    match outcome {
        LaunchOutcome::Exited(ServiceError::ProcessExited { status }) => status,
        LaunchOutcome::PreStartExited(ServiceError::ProcessExited { status }) => status,
        _ => ExitStatus { raw: 1 },
    }
}

/// A binary of the service exited with a failure.
pub open spec fn is_failed_exit(outcome: LaunchOutcome) -> bool {
    outcome is Exited || outcome is PreStartExited
}

/// The only event is that the named service is ready.
pub open spec fn only_ready(events: Seq<ServiceEvent>, name: Seq<char>) -> bool {
    events.len() == 1 && (events[0] matches ServiceEvent::Ready(n) && n@ == name)
}

/// The only event is that the named service was stopped.
pub open spec fn only_stopped(events: Seq<ServiceEvent>, name: Seq<char>) -> bool {
    events.len() == 1 && (events[0] matches ServiceEvent::Stopped(n) && n@ == name)
}

/// The first event is that the named service failed with the given status.
pub open spec fn first_failed(
    events: Seq<ServiceEvent>,
    name: Seq<char>,
    status: ExitStatus,
) -> bool {
    events.len() > 0 && (events[0] matches ServiceEvent::Failed(n, s) && n@ == name && s == status)
}

/// The last event is that the named service is being restarted.
pub open spec fn last_restarting(events: Seq<ServiceEvent>, name: Seq<char>) -> bool {
    events.len() > 0 && (events.last() matches ServiceEvent::Restarting(n) && n@ == name)
}

/// What is decided at the end of a launch of a service that runs once: it is announced as ready,
/// stopped or failed, and never restarted.
pub open spec fn is_oneshot_verdict(
    name: Seq<char>,
    outcome: LaunchOutcome,
    verdict: Verdict,
) -> bool {
    match outcome {
        LaunchOutcome::Finished => verdict.next is Stop && only_ready(verdict.events@, name),
        LaunchOutcome::Stopped => verdict.next is Stop && only_stopped(verdict.events@, name),
        _ => verdict.next is Fail && verdict.events@.len() == 1 && first_failed(
            verdict.events@,
            name,
            failure_status(outcome),
        ),
    }
}

/// What is decided at the end of a launch of any other service. After a failed exit it is
/// restarted, if the settings say so. Its failure is announced if it was its own process that
/// failed, and then its restart.
pub open spec fn is_verdict(
    name: Seq<char>,
    restart: Restart,
    count: nat,
    outcome: LaunchOutcome,
    verdict: Verdict,
) -> bool {
    match outcome {
        LaunchOutcome::Finished => verdict.next is Stop && verdict.events@.len() == 0,
        LaunchOutcome::Stopped => verdict.next is Stop && only_stopped(verdict.events@, name),
        LaunchOutcome::Broke => verdict.next is Fail && verdict.events@.len() == 0,
        _ => {
            let failures: nat = if outcome is Exited {
                1
            } else {
                0
            };
            &&& outcome is Exited ==> first_failed(verdict.events@, name, failure_status(outcome))
            &&& if restarts_again(restart, count) {
                &&& verdict.next is Delay
                &&& verdict.events@.len() == failures + 1
                &&& last_restarting(verdict.events@, name)
            } else {
                &&& verdict.next is Stop
                &&& verdict.events@.len() == failures
            }
        },
    }
}

impl ServiceManager {
    /// A manager for a service whose configuration files stand in the given directory.
    pub fn new(opts: ServiceManagerOpts, config_dir: String) -> (manager: Self)
        ensures
            manager.settings == opts.settings,
            manager.name == opts.name,
            manager.service == opts.service,
            manager.current_restart_count == 0,
            manager.config_dir == config_dir,
            manager.logs_dir == opts.logs_dir,
    {
        ServiceManager {
            settings: opts.settings,
            name: opts.name,
            service: opts.service,
            current_restart_count: 0,
            config_dir,
            logs_dir: opts.logs_dir,
        }
    }

    /// Decides what follows the end of a launch.
    ///
    /// A service that runs once is announced as ready, stopped or failed, and is never restarted.
    /// Any other service is restarted after a failed exit, as the settings say.
    pub fn after_launch(&mut self, outcome: LaunchOutcome) -> (verdict: Verdict)
        ensures
            final(self).settings == old(self).settings,
            final(self).name == old(self).name,
            final(self).service == old(self).service,
            final(self).config_dir == old(self).config_dir,
            final(self).logs_dir == old(self).logs_dir,
            final(self).current_restart_count == if !(old(self).service.service_type is Oneshot)
                && is_failed_exit(outcome) {
                next_count(old(self).settings.restart, old(self).current_restart_count as nat)
            } else {
                old(self).current_restart_count as nat
            },
            if old(self).service.service_type is Oneshot {
                is_oneshot_verdict(old(self).name@, outcome, verdict)
            } else {
                is_verdict(
                    old(self).name@,
                    old(self).settings.restart,
                    old(self).current_restart_count as nat,
                    outcome,
                    verdict,
                )
            },
            outcome is Finished || outcome is Stopped ==> verdict.next is Stop,
            outcome is Broke ==> verdict.next is Fail,
            (outcome is Exited || outcome is PreStartExited)
                && old(self).service.service_type is Oneshot ==> verdict.next is Fail,
            (outcome is Exited || outcome is PreStartExited) && !(
            old(self).service.service_type is Oneshot) ==> match old(self).settings.restart.mode {
                RestartMode::Always => verdict.next is Delay && final(self).current_restart_count
                    == old(self).current_restart_count,
                RestartMode::UpToCount => if old(self).current_restart_count < old(
                    self,
                ).settings.restart.count {
                    verdict.next is Delay && final(self).current_restart_count == old(
                        self,
                    ).current_restart_count + 1
                } else {
                    verdict.next is Stop && final(self).current_restart_count == old(
                        self,
                    ).current_restart_count
                },
                RestartMode::Never => verdict.next is Stop && final(self).current_restart_count
                    == old(self).current_restart_count,
            },
    {
        match self.service.service_type {
            ServiceType::Oneshot => self.after_oneshot(outcome),
            _ => {
                let mut events: Vec<ServiceEvent> = Vec::new();
                let next = match outcome {
                    LaunchOutcome::Finished => NextMove::Stop,
                    LaunchOutcome::Stopped => {
                        events.push(ServiceEvent::Stopped(self.name.clone()));
                        NextMove::Stop
                    },
                    LaunchOutcome::Broke => NextMove::Fail,
                    LaunchOutcome::Exited(ServiceError::ProcessExited { status }) => {
                        events.push(ServiceEvent::Failed(self.name.clone(), status));
                        self.after_exit()
                    },
                    LaunchOutcome::PreStartExited(_) => self.after_exit(),
                };
                if next == NextMove::Delay {
                    events.push(ServiceEvent::Restarting(self.name.clone()));
                }
                Verdict { next, events }
            },
        }
    }

    /// Decides what follows the end of a service that runs once.
    fn after_oneshot(&self, outcome: LaunchOutcome) -> (verdict: Verdict)
        ensures
            is_oneshot_verdict(self.name@, outcome, verdict),
    {
        let mut events: Vec<ServiceEvent> = Vec::new();
        let next = match outcome {
            LaunchOutcome::Finished => {
                events.push(ServiceEvent::Ready(self.name.clone()));
                NextMove::Stop
            },
            LaunchOutcome::Stopped => {
                events.push(ServiceEvent::Stopped(self.name.clone()));
                NextMove::Stop
            },
            LaunchOutcome::Exited(ServiceError::ProcessExited { status })
            | LaunchOutcome::PreStartExited(ServiceError::ProcessExited { status }) => {
                events.push(ServiceEvent::Failed(self.name.clone(), status));
                NextMove::Fail
            },
            LaunchOutcome::Broke => {
                events.push(ServiceEvent::Failed(self.name.clone(), ExitStatus::from_raw(1)));
                NextMove::Fail
            },
        };
        Verdict { next, events }
    }

    /// Decides whether the service is restarted after a failed exit.
    fn after_exit(&mut self) -> (next: NextMove)
        ensures
            final(self).settings == old(self).settings,
            final(self).name == old(self).name,
            final(self).service == old(self).service,
            final(self).config_dir == old(self).config_dir,
            final(self).logs_dir == old(self).logs_dir,
            final(self).current_restart_count == next_count(
                old(self).settings.restart,
                old(self).current_restart_count as nat,
            ),
            next == if restarts_again(
                old(self).settings.restart,
                old(self).current_restart_count as nat,
            ) {
                NextMove::Delay
            } else {
                NextMove::Stop
            },
    {
        match self.settings.restart.mode {
            RestartMode::Always => NextMove::Delay,
            RestartMode::UpToCount => {
                if self.current_restart_count >= self.settings.restart.count {
                    return NextMove::Stop;
                }
                self.current_restart_count = self.current_restart_count + 1;
                NextMove::Delay
            },
            RestartMode::Never => NextMove::Stop,
        }
    }

    /// Decides what follows the restart delay: another launch, or if the run was cancelled
    /// meanwhile, the announcement that the service was stopped.
    pub fn after_delay(&self, cancelled: bool) -> (verdict: Verdict)
        ensures
            if cancelled {
                verdict.next is Stop && only_stopped(verdict.events@, self.name@)
            } else {
                verdict.next is Launch && verdict.events@.len() == 0
            },
            cancelled ==> verdict.events@.len() == 1 && (verdict.events@[0] matches ServiceEvent::Stopped(
                n,
            ) && n@ == self.name@),
    {
        let mut events: Vec<ServiceEvent> = Vec::new();
        if cancelled {
            events.push(ServiceEvent::Stopped(self.name.clone()));
            Verdict { next: NextMove::Stop, events }
        } else {
            Verdict { next: NextMove::Launch, events }
        }
    }
}

/// With restarts up to a limit, exactly the failures below the limit are followed by a restart,
/// and restarts are never counted beyond it.
pub proof fn law_restarts_up_to_count(restart: Restart, failures: nat)
    requires
        restart.mode is UpToCount,
    ensures
        count_after(restart, failures) == if failures < restart.count {
            failures
        } else {
            restart.count as nat
        },
        restarts_again(restart, count_after(restart, failures)) <==> failures < restart.count,
    decreases failures,
{
    if failures > 0 {
        law_restarts_up_to_count(restart, (failures - 1) as nat);
    }
}

/// Without a limit, every failure is followed by a restart, or none is.
pub proof fn law_restarts_always_or_never(restart: Restart, failures: nat)
    ensures
        restart.mode is Always ==> restarts_again(restart, count_after(restart, failures)),
        restart.mode is Never ==> !restarts_again(restart, count_after(restart, failures)),
{
}

/// After a failed exit, whatever its status and whether it was that of the process or of the
/// pre-start binary, a service that does not run once is restarted in the mode `Always`, in the
/// mode `UpToCount` exactly if fewer restarts than the limit have happened, and in the mode
/// `Never` not at all. One that is not restarted is done.
pub proof fn law_restart_follows_any_failed_exit(
    name: Seq<char>,
    restart: Restart,
    count: nat,
    outcome: LaunchOutcome,
    verdict: Verdict,
)
    requires
        is_verdict(name, restart, count, outcome, verdict),
        outcome is Exited || outcome is PreStartExited,
    ensures
        restart.mode is Always ==> verdict.next == NextMove::Delay,
        restart.mode is UpToCount && count < restart.count ==> verdict.next == NextMove::Delay,
        restart.mode is UpToCount && count >= restart.count ==> verdict.next == NextMove::Stop,
        restart.mode is Never ==> verdict.next == NextMove::Stop,
        next_count(restart, count) == count + (if restart.mode is UpToCount && verdict.next
            == NextMove::Delay {
            1int
        } else {
            0int
        }),
{
}

/// What follows a failed exit does not depend on its status, nor on which binary it was.
pub proof fn law_status_does_not_matter(
    name: Seq<char>,
    restart: Restart,
    count: nat,
    one: LaunchOutcome,
    other: LaunchOutcome,
    first: Verdict,
    second: Verdict,
)
    requires
        one is Exited || one is PreStartExited,
        other is Exited || other is PreStartExited,
        is_verdict(name, restart, count, one, first),
        is_verdict(name, restart, count, other, second),
    ensures
        first.next == second.next,
        is_failed_exit(one) && is_failed_exit(other),
{
}

/// The events at the end of a launch of a service that does not run once: that it failed, with
/// the status of its process, exactly if its process did; that it is being restarted exactly if
/// it is; that it was stopped exactly if it was. There are no others, and all are its own.
pub proof fn law_verdict_tells_what_happens(
    name: Seq<char>,
    restart: Restart,
    count: nat,
    outcome: LaunchOutcome,
    verdict: Verdict,
)
    requires
        is_verdict(name, restart, count, outcome, verdict),
    ensures
        outcome is Finished ==> verdict.next == NextMove::Stop && verdict.events@.len() == 0,
        outcome is Broke ==> verdict.next == NextMove::Fail && verdict.events@.len() == 0,
        outcome is Stopped ==> verdict.next == NextMove::Stop && verdict.events@.len() == 1 && (
        verdict.events@[0] matches ServiceEvent::Stopped(n) && n@ == name),
        outcome matches LaunchOutcome::Exited(ServiceError::ProcessExited { status })
            ==> verdict.events@.len() > 0 && (verdict.events@[0] matches ServiceEvent::Failed(n, s)
            && n@ == name && s.raw == status.raw),
        outcome is Exited && verdict.next != NextMove::Delay ==> verdict.events@.len() == 1,
        outcome is Exited && verdict.next == NextMove::Delay ==> verdict.events@.len() == 2 && (
        verdict.events@[1] matches ServiceEvent::Restarting(n) && n@ == name),
        outcome is PreStartExited && verdict.next != NextMove::Delay ==> verdict.events@.len() == 0,
        outcome is PreStartExited && verdict.next == NextMove::Delay ==> verdict.events@.len() == 1
            && (verdict.events@[0] matches ServiceEvent::Restarting(n) && n@ == name),
{
}

/// A service that runs once is never restarted. It is announced as ready exactly if its launch
/// finished, as stopped exactly if it was stopped, and otherwise as failed: with the status of
/// the binary that exited, or with the status one if something else went wrong.
pub proof fn law_oneshot_is_never_restarted(
    name: Seq<char>,
    outcome: LaunchOutcome,
    verdict: Verdict,
)
    requires
        is_oneshot_verdict(name, outcome, verdict),
    ensures
        verdict.next == if outcome is Finished || outcome is Stopped {
            NextMove::Stop
        } else {
            NextMove::Fail
        },
        verdict.events@.len() == 1,
        match verdict.events@[0] {
            ServiceEvent::Ready(n) => n@ == name && outcome is Finished,
            ServiceEvent::Stopped(n) => n@ == name && outcome is Stopped,
            ServiceEvent::Failed(n, status) => n@ == name && match outcome {
                LaunchOutcome::Exited(ServiceError::ProcessExited { status: s }) => s.raw
                    == status.raw,
                LaunchOutcome::PreStartExited(ServiceError::ProcessExited { status: s }) => s.raw
                    == status.raw,
                LaunchOutcome::Broke => status.raw == 1,
                _ => false,
            },
            _ => false,
        },
{
}

} // verus!
