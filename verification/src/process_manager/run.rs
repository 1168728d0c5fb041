//! The course of a run of the process manager.

use crate::process_manager::settings::Settings;
use vstd::prelude::*;

verus! {

/// What the process manager does next.
#[derive(Debug, Clone, Copy, PartialEq, Eq, Structural)]
pub enum RunStep {
    /// Run the startup binary and wait for it
    RunStartup,
    /// Start the services, and then wait for one of them to end
    StartServices,
    /// Wait for another service to end
    AwaitService,
    /// End the run
    Finish,
    /// Give up with the error that came last
    Fail,
    /// Cancel the services that still run, and give up with the error that came last
    CancelAndFail,
}

/// What the process manager did, and how that went.
#[derive(Debug, Clone, Copy, PartialEq, Eq, Structural)]
pub enum RunEvent {
    /// The startup binary ended
    StartupEnded {
        /// Whether it ended well
        ok: bool,
    },
    /// The services were started, or could not be
    ServicesStarted {
        /// Whether they were
        ok: bool,
    },
    /// A service ended for good
    ServiceEnded {
        /// Whether it ended well
        ok: bool,
    },
    /// No service is left
    NoneLeft,
}

/// What follows an event of a run.
pub open spec fn step_after(event: RunEvent) -> RunStep {
    match event {
        RunEvent::StartupEnded { ok: true } => RunStep::StartServices,
        RunEvent::StartupEnded { ok: false } => RunStep::Fail,
        RunEvent::ServicesStarted { ok: true } => RunStep::AwaitService,
        RunEvent::ServicesStarted { ok: false } => RunStep::Fail,
        RunEvent::ServiceEnded { ok: true } => RunStep::AwaitService,
        RunEvent::ServiceEnded { ok: false } => RunStep::CancelAndFail,
        RunEvent::NoneLeft => RunStep::Finish,
    }
}

/// How a run begins: with the startup binary, if there is one.
pub fn run_begin(settings: &Settings) -> (step: RunStep)
    ensures
        step == if settings.startup.run_on_startup is Some {
            RunStep::RunStartup
        } else {
            RunStep::StartServices
        },
{
    match settings.startup.run_on_startup {
        Some(_) => RunStep::RunStartup,
        None => RunStep::StartServices,
    }
}

/// How a run goes on. The first failure ends it.
pub fn run_next(event: RunEvent) -> (step: RunStep)
    ensures
        step == step_after(event),
        event matches RunEvent::StartupEnded { ok } ==> step == if ok {
            RunStep::StartServices
        } else {
            RunStep::Fail
        },
        event matches RunEvent::ServicesStarted { ok } ==> step == if ok {
            RunStep::AwaitService
        } else {
            RunStep::Fail
        },
        event matches RunEvent::ServiceEnded { ok } ==> step == if ok {
            RunStep::AwaitService
        } else {
            RunStep::CancelAndFail
        },
        event is NoneLeft ==> step == RunStep::Finish,
{
    match event {
        RunEvent::StartupEnded { ok } => if ok {
            RunStep::StartServices
        } else {
            RunStep::Fail
        },
        RunEvent::ServicesStarted { ok } => if ok {
            RunStep::AwaitService
        } else {
            RunStep::Fail
        },
        RunEvent::ServiceEnded { ok } => if ok {
            RunStep::AwaitService
        } else {
            RunStep::CancelAndFail
        },
        RunEvent::NoneLeft => RunStep::Finish,
    }
}

/// Where a run gets to when the services end one after the other, each well or badly.
pub open spec fn course(ends: Seq<bool>) -> RunStep
    decreases ends.len(),
{
    if ends.len() == 0 {
        step_after(RunEvent::NoneLeft)
    } else {
        let step = step_after(RunEvent::ServiceEnded { ok: ends[0] });
        if step is AwaitService {
            course(ends.drop_first())
        } else {
            step
        }
    }
}

/// A run ends well exactly if every service does. Otherwise the services that still run are
/// cancelled and the run fails.
pub proof fn law_run_ends_as_its_services(ends: Seq<bool>)
    ensures
        course(ends) == if forall|i: int| 0 <= i < ends.len() ==> #[trigger] ends[i] {
            RunStep::Finish
        } else {
            RunStep::CancelAndFail
        },
    decreases ends.len(),
{
    if ends.len() > 0 && ends[0] {
        let rest = ends.drop_first();
        law_run_ends_as_its_services(rest);
        if forall|i: int| 0 <= i < rest.len() ==> #[trigger] rest[i] {
            assert forall|i: int| 0 <= i < ends.len() implies #[trigger] ends[i] by {
                if i > 0 {
                    assert(rest[i - 1]);
                }
            }
        } else {
            let i = choose|i: int| 0 <= i < rest.len() && !#[trigger] rest[i];
            assert(!ends[i + 1]);
        }
    }
}

/// A run fails exactly after an event that went wrong, and cancels services exactly if that was
/// the end of a service. It ends well exactly when no service is left, starts the services
/// exactly after the startup binary, and otherwise waits for a service.
pub proof fn law_run_fails_at_the_first_failure(event: RunEvent)
    ensures
        ({
            let failed = event matches RunEvent::StartupEnded { ok: false } || event
                matches RunEvent::ServicesStarted { ok: false } || event
                matches RunEvent::ServiceEnded { ok: false };
            let step = step_after(event);
            &&& step is Fail || step is CancelAndFail <==> failed
            &&& step is CancelAndFail <==> failed && event is ServiceEnded
            &&& step is Finish <==> event is NoneLeft
            &&& step is StartServices <==> event is StartupEnded && !failed
            &&& step is AwaitService <==> (event is ServicesStarted || event is ServiceEnded)
                && !failed
        }),
{
}

/// A run takes the ends of its services one by one: one that ends well leaves it to the others,
/// and one that ends badly ends it.
pub proof fn law_run_goes_service_by_service(first: bool, ends: Seq<bool>)
    ensures
        course(Seq::empty()) == RunStep::Finish,
        course(seq![first] + ends) == if first {
            course(ends)
        } else {
            RunStep::CancelAndFail
        },
{
    assert((seq![first] + ends).drop_first() =~= ends);
}

} // verus!
