//! The course of one launch of a service.

use crate::process_manager::exit::{ServiceError, WatchAction};
use crate::process_manager::service::{Service, ServiceType};
use crate::process_manager::service_manager::{LaunchOutcome, ServiceManager};
use crate::process_manager::ServiceEvent;
use vstd::prelude::*;

verus! {

/// A stage of a launch.
#[derive(Debug, Clone, Copy, PartialEq, Eq, Structural)]
pub enum LaunchPhase {
    /// Run the pre-start binary and wait for it
    PreStart,
    /// Create the process of the service
    Create,
    /// Run the post-start binary beside the process, if there is one, and watch the process
    /// until it ends
    Supervise,
    /// Wait for the post-start binary
    AwaitPostStart {
        /// Whether the process was shut down because the run was cancelled
        stopped: bool,
    },
    /// The launch is over
    Ended(LaunchOutcome),
}

/// How a stage of a launch ended.
#[derive(Debug, Clone, Copy, PartialEq, Eq, Structural)]
pub enum StageEnd {
    /// It went well
    Completed,
    /// It went well, but was cut short because the run was cancelled
    ShutDown,
    /// A binary exited with a failure
    Exited(ServiceError),
    /// Something else went wrong
    Broke,
}

/// The stage that follows another, and the events to emit before.
#[derive(Debug)]
pub struct LaunchStep {
    /// The stage that follows
    pub phase: LaunchPhase,
    /// The events to emit, in order
    pub events: Vec<ServiceEvent>,
}

/// A stage went well, cut short or not.
pub open spec fn went_well(end: StageEnd) -> bool {
    end is Completed || end is ShutDown
}

/// How the watch over a process ends the stage, once its action has been carried out.
pub open spec fn end_of_watch(action: WatchAction) -> StageEnd {
    match action {
        WatchAction::ShutDown => StageEnd::ShutDown,
        WatchAction::JoinLoggers => StageEnd::Completed,
        WatchAction::Fail(error) => StageEnd::Exited(error),
    }
}

/// How the watch over a process ends the stage, once its action has been carried out.
pub fn watched_end(action: WatchAction) -> (end: StageEnd)
    ensures
        end == end_of_watch(action),
        action is ShutDown <==> end is ShutDown,
        action is JoinLoggers <==> end is Completed,
        action matches WatchAction::Fail(error) ==> end == StageEnd::Exited(error),
{
    match action {
        WatchAction::ShutDown => StageEnd::ShutDown,
        WatchAction::JoinLoggers => StageEnd::Completed,
        WatchAction::Fail(error) => StageEnd::Exited(error),
    }
}

/// The stage that a launch begins with.
pub open spec fn first_phase(service: Service) -> LaunchPhase {
    if service.pre_start is Some {
        LaunchPhase::PreStart
    } else {
        LaunchPhase::Create
    }
}

/// What comes of a launch that ends well.
pub open spec fn good_outcome(stopped: bool) -> LaunchOutcome {
    if stopped {
        LaunchOutcome::Stopped
    } else {
        LaunchOutcome::Finished
    }
}

/// The stage that follows another one. A failed exit keeps its status if it was that of the
/// pre-start binary or of the process itself.
pub open spec fn next_phase(service: Service, phase: LaunchPhase, end: StageEnd) -> LaunchPhase {
    match phase {
        LaunchPhase::Ended(outcome) => LaunchPhase::Ended(outcome),
        LaunchPhase::PreStart => match end {
            StageEnd::Exited(error) => LaunchPhase::Ended(LaunchOutcome::PreStartExited(error)),
            StageEnd::Broke => LaunchPhase::Ended(LaunchOutcome::Broke),
            _ => LaunchPhase::Create,
        },
        LaunchPhase::Create => if went_well(end) {
            LaunchPhase::Supervise
        } else {
            LaunchPhase::Ended(LaunchOutcome::Broke)
        },
        LaunchPhase::Supervise => match end {
            StageEnd::Exited(error) => LaunchPhase::Ended(LaunchOutcome::Exited(error)),
            StageEnd::Broke => LaunchPhase::Ended(LaunchOutcome::Broke),
            _ => if service.post_start is Some {
                LaunchPhase::AwaitPostStart { stopped: end is ShutDown }
            } else {
                LaunchPhase::Ended(good_outcome(end is ShutDown))
            },
        },
        LaunchPhase::AwaitPostStart { stopped } => if went_well(end) {
            LaunchPhase::Ended(good_outcome(stopped))
        } else {
            LaunchPhase::Ended(LaunchOutcome::Broke)
        },
    }
}

/// A service counts as ready as soon as it has been spawned: there is no post-start binary to
/// wait for, nor, for a service that runs once, its end.
pub open spec fn ready_at_once(service: Service) -> bool {
    service.post_start is None && !(service.service_type is Oneshot)
}

/// The events to emit at the end of a stage: once the process has been created it is announced
/// as spawned and, if nothing more has to be waited for, as ready.
pub open spec fn are_phase_events(
    service: Service,
    name: Seq<char>,
    phase: LaunchPhase,
    end: StageEnd,
    events: Seq<ServiceEvent>,
) -> bool {
    if phase is Create && went_well(end) {
        &&& events.len() == if ready_at_once(service) {
            2nat
        } else {
            1nat
        }
        &&& events[0] matches ServiceEvent::Spawned(n) && n@ == name
        &&& ready_at_once(service) ==> (events[1] matches ServiceEvent::Ready(n) && n@ == name)
    } else {
        events.len() == 0
    }
}

impl ServiceManager {
    /// The stage that a launch begins with.
    pub fn launch_begin(&self) -> (phase: LaunchPhase)
        ensures
            phase == first_phase(self.service),
            self.service.pre_start is Some ==> phase == LaunchPhase::PreStart,
            self.service.pre_start is None ==> phase == LaunchPhase::Create,
    {
        match self.service.pre_start {
            Some(_) => LaunchPhase::PreStart,
            None => LaunchPhase::Create,
        }
    }

    /// The stage that follows another one, and the events to emit before.
    pub fn launch_next(&self, phase: LaunchPhase, end: StageEnd) -> (step: LaunchStep)
        ensures
            step.phase == next_phase(self.service, phase, end),
            are_phase_events(self.service, self.name@, phase, end, step.events@),
            phase is Ended ==> step.phase == phase,
            !(phase is Ended) && end is Broke ==> step.phase == LaunchPhase::Ended(
                LaunchOutcome::Broke,
            ),
            phase is PreStart && end is Exited ==> step.phase == LaunchPhase::Ended(
                LaunchOutcome::PreStartExited(end->0),
            ),
            phase is Supervise && end is Exited ==> step.phase == LaunchPhase::Ended(
                LaunchOutcome::Exited(end->0),
            ),
            (phase is Create || phase is AwaitPostStart) && end is Exited ==> step.phase
                == LaunchPhase::Ended(LaunchOutcome::Broke),
            end is Completed || end is ShutDown ==> match phase {
                LaunchPhase::PreStart => step.phase == LaunchPhase::Create,
                LaunchPhase::Create => step.phase == LaunchPhase::Supervise,
                LaunchPhase::Supervise => step.phase == if self.service.post_start is Some {
                    LaunchPhase::AwaitPostStart { stopped: end is ShutDown }
                } else if end is ShutDown {
                    LaunchPhase::Ended(LaunchOutcome::Stopped)
                } else {
                    LaunchPhase::Ended(LaunchOutcome::Finished)
                },
                LaunchPhase::AwaitPostStart { stopped } => step.phase == LaunchPhase::Ended(
                    if stopped {
                        LaunchOutcome::Stopped
                    } else {
                        LaunchOutcome::Finished
                    },
                ),
                LaunchPhase::Ended(_) => step.phase == phase,
            },
    {
        let has_post_start = self.service.post_start.is_some();
        let runs_once = match self.service.service_type {
            ServiceType::Oneshot => true,
            _ => false,
        };
        let stopped = match end {
            StageEnd::ShutDown => true,
            _ => false,
        };
        let well = match end {
            StageEnd::Completed | StageEnd::ShutDown => true,
            _ => false,
        };
        let mut events: Vec<ServiceEvent> = Vec::new();
        let next = match phase {
            LaunchPhase::Ended(outcome) => LaunchPhase::Ended(outcome),
            LaunchPhase::PreStart => match end {
                StageEnd::Exited(error) => LaunchPhase::Ended(LaunchOutcome::PreStartExited(error)),
                StageEnd::Broke => LaunchPhase::Ended(LaunchOutcome::Broke),
                _ => LaunchPhase::Create,
            },
            LaunchPhase::Create => if well {
                events.push(ServiceEvent::Spawned(self.name.clone()));
                if !has_post_start && !runs_once {
                    events.push(ServiceEvent::Ready(self.name.clone()));
                }
                LaunchPhase::Supervise
            } else {
                LaunchPhase::Ended(LaunchOutcome::Broke)
            },
            LaunchPhase::Supervise => match end {
                StageEnd::Exited(error) => LaunchPhase::Ended(LaunchOutcome::Exited(error)),
                StageEnd::Broke => LaunchPhase::Ended(LaunchOutcome::Broke),
                _ => if has_post_start {
                    LaunchPhase::AwaitPostStart { stopped }
                } else {
                    LaunchPhase::Ended(well_ended(stopped))
                },
            },
            LaunchPhase::AwaitPostStart { stopped: was_stopped } => if well {
                LaunchPhase::Ended(well_ended(was_stopped))
            } else {
                LaunchPhase::Ended(LaunchOutcome::Broke)
            },
        };
        LaunchStep { phase: next, events }
    }
}

fn well_ended(stopped: bool) -> (outcome: LaunchOutcome)
    ensures
        outcome == good_outcome(stopped),
{
    if stopped {
        LaunchOutcome::Stopped
    } else {
        LaunchOutcome::Finished
    }
}

/// The event to emit when the post-start binary has ended. Success marks the service ready,
/// unless it runs once: then it is ready when it has exited successfully.
pub fn post_start_event(name: &str, service_type: ServiceType, ok: bool) -> (event: Option<
    ServiceEvent,
>)
    ensures
        match event {
            Some(ServiceEvent::Ready(n)) => ok && !(service_type is Oneshot) && n@ == name@,
            Some(_) => false,
            None => !ok || service_type is Oneshot,
        },
{
    match service_type {
        ServiceType::Oneshot => None,
        _ => if ok {
            Some(ServiceEvent::Ready(name.to_owned()))
        } else {
            None
        },
    }
}

/// The number of stages that a launch goes through if all go well.
pub open spec fn stage_count(service: Service) -> nat {
    2 + (if service.pre_start is Some {
        1nat
    } else {
        0nat
    }) + (if service.post_start is Some {
        1nat
    } else {
        0nat
    })
}

/// Where a launch gets to when its stages end one after the other.
pub open spec fn phase_after(service: Service, ends: Seq<StageEnd>) -> LaunchPhase
    decreases ends.len(),
{
    if ends.len() == 0 {
        first_phase(service)
    } else {
        next_phase(service, phase_after(service, ends.drop_last()), ends.last())
    }
}

/// The first stages went well, up to the given number of them.
pub open spec fn go_well(ends: Seq<StageEnd>, stages: nat) -> bool {
    forall|i: int| 0 <= i < ends.len() && i < stages ==> went_well(#[trigger] ends[i])
}

/// The position of the stage at which the process of the service is watched.
pub open spec fn watch_stage(service: Service) -> int {
    if service.pre_start is Some {
        2
    } else {
        1
    }
}

/// A launch is over, and went wrong.
pub open spec fn ended_badly(phase: LaunchPhase) -> bool {
    phase matches LaunchPhase::Ended(outcome) && !(outcome is Finished) && !(outcome is Stopped)
}

/// The stage that a launch gets to after the given stages, which went well.
spec fn stage_at(service: Service, ends: Seq<StageEnd>) -> LaunchPhase {
    let at: int = ends.len() - watch_stage(service);
    let stopped = at > 0 && ends[watch_stage(service)] is ShutDown;
    if ends.len() >= stage_count(service) {
        LaunchPhase::Ended(good_outcome(stopped))
    } else if at == -2 {
        LaunchPhase::PreStart
    } else if at == -1 {
        LaunchPhase::Create
    } else if at == 0 {
        LaunchPhase::Supervise
    } else {
        LaunchPhase::AwaitPostStart { stopped }
    }
}

proof fn lemma_phase_after(service: Service, ends: Seq<StageEnd>)
    ensures
        if go_well(ends, stage_count(service)) {
            phase_after(service, ends) == stage_at(service, ends)
        } else {
            ended_badly(phase_after(service, ends))
        },
    decreases ends.len(),
{
    if ends.len() > 0 {
        let init = ends.drop_last();
        let stages = stage_count(service);
        lemma_phase_after(service, init);
        if go_well(ends, stages) {
            assert forall|i: int| 0 <= i < init.len() && i < stages implies went_well(
                #[trigger] init[i],
            ) by {
                assert(went_well(ends[i]));
            }
            assert(ends.len() - 1 < stages ==> went_well(ends[ends.len() - 1]));
        } else {
            let i = choose|i: int|
                0 <= i < ends.len() && i < stages && !went_well(#[trigger] ends[i]);
            if i < init.len() {
                assert(!went_well(init[i]));
            }
        }
    }
}

/// A launch ends well exactly if each of its stages does, and badly exactly if one of them does.
/// One that ends well was stopped exactly if the watch over the process was cut short.
pub proof fn law_launch_ends_as_its_stages(service: Service, ends: Seq<StageEnd>)
    requires
        ends.len() >= stage_count(service),
    ensures
        if go_well(ends, stage_count(service)) {
            phase_after(service, ends) == LaunchPhase::Ended(
                good_outcome(ends[watch_stage(service)] is ShutDown),
            )
        } else {
            ended_badly(phase_after(service, ends))
        },
{
    lemma_phase_after(service, ends);
}

/// A launch goes from stage to stage, and begins with the pre-start binary exactly if there is
/// one.
pub proof fn law_launch_goes_stage_by_stage(
    service: Service,
    ends: Seq<StageEnd>,
    end: StageEnd,
)
    ensures
        phase_after(service, Seq::empty()) == if service.pre_start is Some {
            LaunchPhase::PreStart
        } else {
            LaunchPhase::Create
        },
        phase_after(service, Seq::empty()) == first_phase(service),
        phase_after(service, ends.push(end)) == next_phase(
            service,
            phase_after(service, ends),
            end,
        ),
{
    assert(ends.push(end).drop_last() =~= ends);
}

/// A launch that is over stays as it is.
proof fn lemma_ended_stays(service: Service, ends: Seq<StageEnd>, stages: int)
    requires
        0 <= stages <= ends.len(),
        phase_after(service, ends.take(stages)) is Ended,
    ensures
        phase_after(service, ends) == phase_after(service, ends.take(stages)),
    decreases ends.len() - stages,
{
    if stages == ends.len() {
        assert(ends.take(stages) =~= ends);
    } else {
        assert(ends.take(stages + 1).drop_last() =~= ends.take(stages));
        lemma_ended_stays(service, ends, stages + 1);
    }
}

/// Where a launch is when its first stages have gone well.
proof fn lemma_reached(service: Service, ends: Seq<StageEnd>, stages: int)
    requires
        0 <= stages <= ends.len(),
        forall|i: int|
            0 <= i < stages ==> (#[trigger] ends[i] is Completed || ends[i] is ShutDown),
    ensures
        phase_after(service, ends.take(stages)) == stage_at(service, ends.take(stages)),
{
    let begun = ends.take(stages);
    lemma_phase_after(service, begun);
    assert forall|i: int| 0 <= i < begun.len() && i < stage_count(service) implies went_well(
        #[trigger] begun[i],
    ) by {
        assert(ends[i] is Completed || ends[i] is ShutDown);
    }
}

/// For every service, with or without a post-start binary: if all stages before the watch over
/// the process go well and the watch ends with a failed exit, the launch ends with that exit; if
/// the pre-start binary exits with a failure, the launch ends with that, and no process has been
/// created. Any other failure, at whatever stage, ends the launch as broken.
pub proof fn law_failed_exit_keeps_its_status(
    service: Service,
    ends: Seq<StageEnd>,
    at: int,
    error: ServiceError,
)
    requires
        0 <= at < ends.len(),
        forall|i: int| 0 <= i < at ==> (#[trigger] ends[i] is Completed || ends[i] is ShutDown),
    ensures
        ends[at] == StageEnd::Exited(error) && at == (if service.pre_start is Some {
            2int
        } else {
            1int
        }) ==> phase_after(service, ends) == LaunchPhase::Ended(LaunchOutcome::Exited(error)),
        ends[at] == StageEnd::Exited(error) && service.pre_start is Some && at == 0
            ==> phase_after(service, ends) == LaunchPhase::Ended(
            LaunchOutcome::PreStartExited(error),
        ),
        ends[at] == StageEnd::Exited(error) && at == (if service.pre_start is Some {
            1int
        } else {
            0int
        }) ==> phase_after(service, ends) == LaunchPhase::Ended(LaunchOutcome::Broke),
        ends[at] == StageEnd::Exited(error) && service.post_start is Some && at == (
        if service.pre_start is Some {
            3int
        } else {
            2int
        }) ==> phase_after(service, ends) == LaunchPhase::Ended(LaunchOutcome::Broke),
        ends[at] is Broke && at < 2 + (if service.pre_start is Some {
            1int
        } else {
            0int
        }) + (if service.post_start is Some {
            1int
        } else {
            0int
        }) ==> phase_after(service, ends) == LaunchPhase::Ended(LaunchOutcome::Broke),
{
    lemma_reached(service, ends, at);
    let begun = ends.take(at + 1);
    assert(begun.drop_last() =~= ends.take(at));
    assert(begun.last() == ends[at]);
    if phase_after(service, begun) is Ended {
        lemma_ended_stays(service, ends, at + 1);
    }
}

/// A launch whose stages go well first runs the pre-start binary, if there is one, then creates
/// the process, then watches it, then waits for the post-start binary, if there is one. It is
/// over then: stopped, if the watch was cut short, and otherwise finished.
pub proof fn law_launch_goes_through_its_stages(service: Service, ends: Seq<StageEnd>)
    requires
        forall|i: int|
            0 <= i < ends.len() ==> (#[trigger] ends[i] is Completed || ends[i] is ShutDown),
    ensures
        ({
            let watch: int = if service.pre_start is Some {
                2
            } else {
                1
            };
            let over: int = if service.post_start is Some {
                watch + 2
            } else {
                watch + 1
            };
            let phase = phase_after(service, ends);
            &&& ends.len() < watch - 1 ==> phase == LaunchPhase::PreStart
            &&& ends.len() == watch - 1 ==> phase == LaunchPhase::Create
            &&& ends.len() == watch ==> phase == LaunchPhase::Supervise
            &&& ends.len() == watch + 1 && service.post_start is Some ==> phase
                == LaunchPhase::AwaitPostStart { stopped: ends[watch] is ShutDown }
            &&& ends.len() >= over && ends[watch] is ShutDown ==> phase == LaunchPhase::Ended(
                LaunchOutcome::Stopped,
            )
            &&& ends.len() >= over && ends[watch] is Completed ==> phase == LaunchPhase::Ended(
                LaunchOutcome::Finished,
            )
        }),
{
    lemma_reached(service, ends, ends.len() as int);
    assert(ends.take(ends.len() as int) =~= ends);
}

/// The events at the end of a stage: the first one, that the service was spawned, comes exactly
/// when its process has been created; a second one, that it is ready, comes with it exactly if
/// the service has no post-start binary and does not run once. There are no others, and both
/// carry its name.
pub proof fn law_spawn_is_announced_once_created(
    service: Service,
    name: Seq<char>,
    phase: LaunchPhase,
    end: StageEnd,
    events: Seq<ServiceEvent>,
)
    requires
        are_phase_events(service, name, phase, end, events),
    ensures
        events.len() > 0 <==> phase is Create && (end is Completed || end is ShutDown),
        events.len() > 0 ==> (events[0] matches ServiceEvent::Spawned(n) && n@ == name),
        events.len() > 1 <==> phase is Create && (end is Completed || end is ShutDown)
            && service.post_start is None && !(service.service_type is Oneshot),
        events.len() > 1 ==> (events[1] matches ServiceEvent::Ready(n) && n@ == name),
        events.len() <= 2,
{
}

/// What is done about a watched process ends its stage: a shutdown cuts it short, waiting for the
/// loggers ends it well, and giving up ends it with the error.
pub proof fn law_watch_ends_as_its_action(error: ServiceError)
    ensures
        end_of_watch(WatchAction::ShutDown) == StageEnd::ShutDown,
        end_of_watch(WatchAction::JoinLoggers) == StageEnd::Completed,
        end_of_watch(WatchAction::Fail(error)) == StageEnd::Exited(error),
{
}

} // verus!
