//! What is started for the services of a process manager.

use crate::name_map::NameMap;
use crate::names::{duplicate_names, holds_name, names};
use crate::ordering::graph::{acyclic, lists_after, lists_before, must_precede};
use crate::ordering::laws::law_start_never_stuck;
use crate::ordering::start::is_startable;
use crate::process_manager::gate::{all_satisfied, awaiting, observed_all, some_satisfies};
use crate::process_manager::gate::{awaited_of, law_gate_awaits_its_list, AwaitedService};
use crate::process_manager::gate::{law_gate_opens_when_each_is_satisfied, satisfies};
use crate::process_manager::service::Process;
use crate::process_manager::{after_names, lemma_known_graph, lemma_take_contains};
use crate::process_manager::{law_graph_states_the_ordering, ordering_known};
use crate::process_manager::{OrderingError, ProcessManager, Service, ServiceEvent, ServiceType};
use vstd::prelude::*;

verus! {

/// How one service is started.
#[derive(Debug)]
pub struct StartPlan {
    /// Name of the service
    pub name: String,
    /// The services that it waits for
    pub after: Vec<AwaitedService>,
}

/// The signal that stops a process.
#[derive(Debug, Clone, Copy, PartialEq, Eq, Structural)]
pub enum StopSignal {
    /// The polite request to terminate
    Sigterm,
}

/// How one service is shown and run in the terminal interface.
#[derive(Debug)]
pub struct ProcConfig {
    /// Name of the service
    pub name: String,
    /// Process of the service
    pub cmd: Process,
    /// Directory to run the process in
    pub cwd: Option<String>,
    /// Environment of its own that the process gets
    pub env: Option<NameMap<String, String>>,
    /// Whether the process is started at once
    pub autostart: bool,
    /// Whether the process is restarted when it ends
    pub autorestart: bool,
    /// How the process is stopped
    pub stop: StopSignal,
    /// Names of the services that it waits for
    pub deps: Vec<String>,
    /// Lines per turn of the mouse wheel
    pub mouse_scroll_speed: usize,
    /// Lines of output that are kept
    pub scrollback_len: usize,
    /// File that the output is written to
    pub log: Option<String>,
}

/// The named service runs once and exits.
pub open spec fn runs_once(services: Map<Seq<char>, Service>, name: Seq<char>) -> bool {
    services.contains_key(name) && services[name].service_type is Oneshot
}

/// A list of awaited services holds one of the given name.
pub open spec fn awaits(awaited: Seq<AwaitedService>, name: Seq<char>) -> bool {
    exists|i: int| 0 <= i < awaited.len() && (#[trigger] awaited[i]).name@ == name
}

/// Each of the awaited services is marked as running once exactly if it does.
pub open spec fn rightly_marked(
    services: Map<Seq<char>, Service>,
    awaited: Seq<AwaitedService>,
) -> bool {
    forall|i: int|
        0 <= i < awaited.len() ==> (#[trigger] awaited[i]).runs_once == runs_once(
            services,
            awaited[i].name@,
        )
}

/// What the named service waits for: exactly those that must precede it, whichever of the two
/// demands that, each with whether it runs once.
pub open spec fn are_awaited(
    manager: ProcessManager,
    name: Seq<char>,
    awaited: Seq<AwaitedService>,
) -> bool {
    &&& forall|n: Seq<char>| #[trigger]
        awaits(awaited, n) <==> must_precede(manager.graph(), n, name)
    &&& rightly_marked(manager.services@, awaited)
}

/// The plan for a service of the given process manager.
pub open spec fn is_plan_for(manager: ProcessManager, name: Seq<char>, plan: StartPlan) -> bool {
    plan.name@ == name && are_awaited(manager, name, plan.after@)
}

/// The terminal configuration for a service of the given process manager.
pub open spec fn is_config_for(
    manager: ProcessManager,
    name: Seq<char>,
    autorestart: bool,
    cwd: Option<String>,
    config: ProcConfig,
) -> bool {
    &&& config.name@ == name
    &&& config.cmd.argv.binary@ == manager.services@[name].process.argv.binary@
    &&& names(config.cmd.argv.args@) == names(manager.services@[name].process.argv.args@)
    &&& match (config.cwd, cwd) {
        (Some(a), Some(b)) => a@ == b@,
        (None, None) => true,
        _ => false,
    }
    &&& config.env is None
    &&& config.autostart
    &&& config.autorestart == autorestart
    &&& config.stop == StopSignal::Sigterm
    &&& names(config.deps@) == after_names(manager.ordering@, name)
    &&& config.mouse_scroll_speed == 5
    &&& config.scrollback_len == 1000
    &&& config.log is None
}

impl ProcessManager {
    /// The services that the named one should start after.
    pub fn after_deps(&self, name: &str) -> (deps: Vec<String>)
        ensures
            names(deps@) == after_names(self.ordering@, name@),
            deps@.len() == if self.ordering@.contains_key(name@) {
                self.ordering@[name@].after@.len()
            } else {
                0
            },
            forall|i: int|
                0 <= i < deps@.len() ==> (#[trigger] deps@[i])@
                    == self.ordering@[name@].after@[i]@,
    {
        match self.ordering.get(name) {
            Some(order) => duplicate_names(&order.after),
            None => {
                let deps: Vec<String> = Vec::new();
                proof {
                    assert(names(deps@) =~= Seq::empty());
                }
                deps
            },
        }
    }

    /// Whether the named service runs once and exits.
    fn runs_once(&self, name: &str) -> (once: bool)
        ensures
            once == runs_once(self.services@, name@),
    {
        match self.services.get(name) {
            Some(service) => match service.service_type {
                ServiceType::Oneshot => true,
                _ => false,
            },
            None => false,
        }
    }

    /// Adds a service to a list of awaited ones.
    fn push_awaited(&self, awaited: &mut Vec<AwaitedService>, name: &str)
        requires
            rightly_marked(self.services@, old(awaited)@),
        ensures
            rightly_marked(self.services@, final(awaited)@),
            forall|n: Seq<char>| #[trigger]
                awaits(final(awaited)@, n) <==> awaits(old(awaited)@, n) || n == name@,
    {
        let once = self.runs_once(name);
        let ghost before = awaited@;
        awaited.push(AwaitedService { name: name.to_owned(), runs_once: once });
        proof {
            assert forall|i: int| 0 <= i < awaited@.len() implies (
            #[trigger] awaited@[i]).runs_once == runs_once(self.services@, awaited@[i].name@) by {
                if i < before.len() {
                    assert(awaited@[i] == before[i]);
                }
            }
            assert forall|n: Seq<char>| #[trigger] awaits(awaited@, n) <==> awaits(before, n) || n
                == name@ by {
                if awaits(before, n) {
                    let i = choose|i: int| 0 <= i < before.len() && (#[trigger] before[i]).name@ == n;
                    assert(awaited@[i].name@ == n);
                }
                if awaits(awaited@, n) {
                    let i = choose|i: int|
                        0 <= i < awaited@.len() && (#[trigger] awaited@[i]).name@ == n;
                    if i < before.len() {
                        assert(before[i].name@ == n);
                    }
                }
                assert(awaited@[before.len() as int].name@ == name@);
            }
        }
    }

    /// The services that the named one waits for: those on its own `after` list, and those that
    /// name it on their `before` list.
    pub fn awaited_services(&self, name: &str) -> (awaited: Vec<AwaitedService>)
        ensures
            are_awaited(*self, name@, awaited@),
    {
        let ghost g = self.graph();
        let deps = self.after_deps(name);
        let mut awaited: Vec<AwaitedService> = Vec::new();
        let mut i: usize = 0;
        while i < deps.len()
            invariant
                0 <= i <= deps@.len(),
                forall|n: Seq<char>| #[trigger]
                    awaits(awaited@, n) <==> names(deps@).take(i as int).contains(n),
                rightly_marked(self.services@, awaited@),
            decreases deps@.len() - i,
        {
            self.push_awaited(&mut awaited, deps[i].as_str());
            proof {
                lemma_take_contains(names(deps@), i as int);
            }
            i += 1;
        }
        proof {
            assert(names(deps@).take(i as int) =~= names(deps@));
        }
        let total: usize = self.ordering.len();
        let ghost entries = self.ordering.order();
        let mut i: usize = 0;
        while i < total
            invariant
                0 <= i <= total,
                total == entries.len(),
                entries == self.ordering.order(),
                forall|n: Seq<char>| #[trigger]
                    awaits(awaited@, n) <==> names(deps@).contains(n) || (entries.take(
                        i as int,
                    ).contains(n) && names(self.ordering@[n].before@).contains(name@)),
                rightly_marked(self.services@, awaited@),
            decreases total - i,
        {
            let other = self.ordering.key_at(i);
            if holds_name(&self.ordering.value_at(i).before, name) {
                self.push_awaited(&mut awaited, other.as_str());
            }
            proof {
                lemma_take_contains(entries, i as int);
            }
            i += 1;
        }
        proof {
            assert(entries.take(i as int) =~= entries);
            self.ordering.lemma_order();
            assert forall|n: Seq<char>| #[trigger] awaits(awaited@, n) <==> must_precede(
                g,
                n,
                name@,
            ) by {
                assert(lists_after(g, name@, n) <==> names(deps@).contains(n));
                assert(lists_before(g, n, name@) <==> entries.contains(n) && names(
                    self.ordering@[n].before@,
                ).contains(name@));
            }
        }
        awaited
    }

    /// How all services are started, if the ordering is valid.
    pub fn start_plan(&self) -> (result: Result<Vec<StartPlan>, OrderingError>)
        ensures
            result is Ok <==> ordering_known(self.known(), self.ordering@) && acyclic(self.graph()),
            match result {
                Ok(plans) => {
                    &&& plans@.len() == self.services.order().len()
                    &&& forall|i: int|
                        0 <= i < plans@.len() ==> is_plan_for(
                            *self,
                            self.services.order()[i],
                            #[trigger] plans@[i],
                        )
                },
                Err(error) => self.is_ordering_error(error),
            },
    {
        match self.validate_ordering() {
            Ok(()) => {},
            Err(error) => {
                return Err(error);
            },
        }
        let total: usize = self.services.len();
        let mut plans: Vec<StartPlan> = Vec::new();
        let mut i: usize = 0;
        while i < total
            invariant
                0 <= i <= total,
                total == self.services.order().len(),
                plans@.len() == i,
                forall|k: int|
                    0 <= k < i ==> is_plan_for(*self, self.services.order()[k], #[trigger] plans@[k]),
            decreases total - i,
        {
            let name = self.services.key_at(i);
            let after = self.awaited_services(name.as_str());
            plans.push(StartPlan { name: name.clone(), after });
            i += 1;
        }
        Ok(plans)
    }

    /// How all services are shown and run in the terminal interface.
    pub fn proc_configs(&self, autorestart: bool, cwd: &Option<String>) -> (configs: Vec<
        ProcConfig,
    >)
        ensures
            configs@.len() == self.services.order().len(),
            forall|i: int|
                0 <= i < configs@.len() ==> is_config_for(
                    *self,
                    self.services.order()[i],
                    autorestart,
                    *cwd,
                    #[trigger] configs@[i],
                ),
    {
        let total: usize = self.services.len();
        let mut configs: Vec<ProcConfig> = Vec::new();
        let mut i: usize = 0;
        while i < total
            invariant
                0 <= i <= total,
                total == self.services.order().len(),
                configs@.len() == i,
                forall|k: int|
                    0 <= k < i ==> is_config_for(
                        *self,
                        self.services.order()[k],
                        autorestart,
                        *cwd,
                        #[trigger] configs@[k],
                    ),
            decreases total - i,
        {
            let name = self.services.key_at(i);
            let service = self.services.value_at(i);
            let deps = self.after_deps(name.as_str());
            let dir = match cwd {
                Some(dir) => Some(dir.clone()),
                None => None,
            };
            configs.push(
                ProcConfig {
                    name: name.clone(),
                    cmd: service.process.clone(),
                    cwd: dir,
                    env: None,
                    autostart: true,
                    autorestart,
                    stop: StopSignal::Sigterm,
                    deps,
                    mouse_scroll_speed: 5,
                    scrollback_len: 1000,
                    log: None,
                },
            );
            i += 1;
        }
        configs
    }
}

/// By one of the events, a service has got as far as others that wait for it want it to.
pub open spec fn is_up(
    manager: ProcessManager,
    events: Seq<ServiceEvent>,
    name: Seq<char>,
) -> bool {
    some_satisfies(events, name, runs_once(manager.services@, name))
}

/// By the events, the service of the given plan can start.
pub open spec fn may_start(plan: StartPlan, events: Seq<ServiceEvent>) -> bool {
    all_satisfied(observed_all(awaiting(plan.after@), events))
}

/// A service can start exactly if all that must precede it have got far enough.
pub proof fn law_may_start_when_all_are_up(
    manager: ProcessManager,
    events: Seq<ServiceEvent>,
    name: Seq<char>,
    plan: StartPlan,
)
    requires
        is_plan_for(manager, name, plan),
    ensures
        may_start(plan, events) <==> forall|n: Seq<char>| #[trigger]
            must_precede(manager.graph(), n, name) ==> is_up(manager, events, n),
{
    let awaited = awaiting(plan.after@);
    law_gate_opens_when_each_is_satisfied(awaited, events);
    assert forall|n: Seq<char>| #[trigger] awaited.contains_key(n) <==> must_precede(
        manager.graph(),
        n,
        name,
    ) by {
        law_gate_awaits_its_list(plan.after@, n);
        assert(awaits(plan.after@, n) <==> must_precede(manager.graph(), n, name));
    }
    assert forall|n: Seq<char>| #[trigger] awaited.contains_key(n) implies awaited[n]
        == awaited_of(runs_once(manager.services@, n)) by {
        law_gate_awaits_its_list(plan.after@, n);
        let i = choose|i: int|
            0 <= i < plan.after@.len() && (#[trigger] plan.after@[i]).name@ == n && awaited[n]
                == awaited_of(plan.after@[i].runs_once);
        assert(plan.after@[i].runs_once == runs_once(manager.services@, n));
    }
    if forall|n: Seq<char>| #[trigger]
        must_precede(manager.graph(), n, name) ==> is_up(manager, events, n) {
        assert forall|n: Seq<char>| #[trigger] awaited.contains_key(n) implies some_satisfies(
            events,
            n,
            awaited[n] is Completion,
        ) by {
            assert(must_precede(manager.graph(), n, name));
            assert(is_up(manager, events, n));
        }
    }
    if may_start(plan, events) {
        assert forall|n: Seq<char>| #[trigger] must_precede(
            manager.graph(),
            n,
            name,
        ) implies is_up(manager, events, n) by {
            assert(awaited.contains_key(n));
        }
    }
}

/// Services never wait for each other in vain: as long as a service has not got far enough,
/// there is such a service that can start.
pub proof fn law_some_wait_is_over(
    manager: ProcessManager,
    events: Seq<ServiceEvent>,
    x: Seq<char>,
)
    requires
        ordering_known(manager.known(), manager.ordering@),
        acyclic(manager.graph()),
        manager.known().contains(x),
        !is_up(manager, events, x),
    ensures
        exists|y: Seq<char>|
            manager.known().contains(y) && !#[trigger] is_up(manager, events, y) && (forall|
                plan: StartPlan,
            |
                #[trigger] is_plan_for(manager, y, plan) ==> may_start(plan, events)),
{
    let g = manager.graph();
    let started = Map::new(
        |n: Seq<char>| manager.known().contains(n),
        |n: Seq<char>| is_up(manager, events, n),
    );
    lemma_known_graph(manager.known(), manager.ordering@);
    manager.services.lemma_order();
    vstd::seq_lib::seq_to_set_is_finite(manager.services.order());
    law_start_never_stuck(g, started, x);
    let y = choose|y: Seq<char>|
        !(started.contains_key(y) && started[y]) && #[trigger] is_startable(g, started, y) && (
        forall|d: Seq<char>| #[trigger]
            must_precede(g, d, y) ==> started.contains_key(d) && started[d]);
    assert forall|plan: StartPlan| #[trigger] is_plan_for(manager, y, plan) implies may_start(
        plan,
        events,
    ) by {
        assert forall|n: Seq<char>| #[trigger] must_precede(g, n, y) implies is_up(
            manager,
            events,
            n,
        ) by {
            assert(started.contains_key(n) && started[n]);
        }
        law_may_start_when_all_are_up(manager, events, y, plan);
    }
    assert(!is_up(manager, events, y));
}

/// What a plan waits for stands in the ordering: each awaited service is anywhere on the `after`
/// list of the service's own entry, or has the service anywhere on the `before` list of its
/// entry, and all such services are awaited. Each is marked as running once exactly if it does.
pub proof fn law_plan_waits_as_the_ordering_says(
    manager: ProcessManager,
    name: Seq<char>,
    plan: StartPlan,
    x: Seq<char>,
)
    requires
        is_plan_for(manager, name, plan),
    ensures
        plan.name@ == name,
        (exists|i: int| 0 <= i < plan.after@.len() && (#[trigger] plan.after@[i]).name@ == x) <==> (
        manager.ordering@.contains_key(name) && exists|k: int|
            0 <= k < manager.ordering@[name].after@.len() && (
            #[trigger] manager.ordering@[name].after@[k])@ == x) || (manager.ordering@.contains_key(x)
            && exists|k: int|
            0 <= k < manager.ordering@[x].before@.len() && (
            #[trigger] manager.ordering@[x].before@[k])@ == name),
        forall|i: int|
            0 <= i < plan.after@.len() ==> (#[trigger] plan.after@[i]).runs_once == (
            manager.services@.contains_key(plan.after@[i].name@)
                && manager.services@[plan.after@[i].name@].service_type is Oneshot),
{
    law_graph_states_the_ordering(manager, x, name);
    assert(awaits(plan.after@, x) <==> must_precede(manager.graph(), x, name));
    assert forall|i: int| 0 <= i < plan.after@.len() implies (#[trigger] plan.after@[i]).runs_once
        == (manager.services@.contains_key(plan.after@[i].name@)
        && manager.services@[plan.after@[i].name@].service_type is Oneshot) by {
        assert(plan.after@[i].runs_once == runs_once(manager.services@, plan.after@[i].name@));
    }
}

/// A terminal configuration is for the named service: it runs the service's own command line in
/// the given directory, waits for the names on the `after` list of its entry, one for one, and is
/// started at once and stopped politely.
pub proof fn law_config_runs_its_service(
    manager: ProcessManager,
    name: Seq<char>,
    autorestart: bool,
    cwd: Option<String>,
    config: ProcConfig,
)
    requires
        is_config_for(manager, name, autorestart, cwd, config),
    ensures
        config.name@ == name,
        config.cmd.argv.binary@ == manager.services@[name].process.argv.binary@,
        config.cmd.argv.args@.len() == manager.services@[name].process.argv.args@.len(),
        forall|i: int|
            0 <= i < config.cmd.argv.args@.len() ==> (#[trigger] config.cmd.argv.args@[i])@
                == manager.services@[name].process.argv.args@[i]@,
        config.cwd is Some <==> cwd is Some,
        cwd is Some ==> config.cwd->0@ == cwd->0@,
        config.env is None && config.log is None,
        config.autostart && config.autorestart == autorestart,
        config.stop == StopSignal::Sigterm,
        config.mouse_scroll_speed == 5 && config.scrollback_len == 1000,
        config.deps@.len() == if manager.ordering@.contains_key(name) {
            manager.ordering@[name].after@.len()
        } else {
            0
        },
        forall|i: int|
            0 <= i < config.deps@.len() ==> (#[trigger] config.deps@[i])@
                == manager.ordering@[name].after@[i]@,
{
    let args = manager.services@[name].process.argv.args@;
    assert(names(config.cmd.argv.args@).len() == names(args).len());
    assert forall|i: int| 0 <= i < config.cmd.argv.args@.len() implies (
    #[trigger] config.cmd.argv.args@[i])@ == args[i]@ by {
        assert(names(config.cmd.argv.args@)[i] == names(args)[i]);
    }
    assert(names(config.deps@).len() == config.deps@.len());
    assert forall|i: int| 0 <= i < config.deps@.len() implies (#[trigger] config.deps@[i])@
        == manager.ordering@[name].after@[i]@ by {
        assert(names(config.deps@)[i] == config.deps@[i]@);
    }
}

/// The service of a plan can start exactly if for each service that must precede it an event has
/// come in: that it is ready, that it has failed, or, if it does not run once, that it was
/// spawned.
pub proof fn law_plan_starts_by_the_events(
    manager: ProcessManager,
    events: Seq<ServiceEvent>,
    name: Seq<char>,
    plan: StartPlan,
)
    requires
        is_plan_for(manager, name, plan),
    ensures
        may_start(plan, events) <==> forall|x: Seq<char>| #[trigger]
            must_precede(manager.graph(), x, name) ==> exists|j: int|
                0 <= j < events.len() && match #[trigger] events[j] {
                    ServiceEvent::Spawned(n) => n@ == x && !(manager.services@.contains_key(x)
                        && manager.services@[x].service_type is Oneshot),
                    ServiceEvent::Ready(n) => n@ == x,
                    ServiceEvent::Failed(n, _) => n@ == x,
                    _ => false,
                },
{
    law_may_start_when_all_are_up(manager, events, name, plan);
    assert forall|x: Seq<char>| is_up(manager, events, x) <==> exists|j: int|
        0 <= j < events.len() && match #[trigger] events[j] {
            ServiceEvent::Spawned(n) => n@ == x && !(manager.services@.contains_key(x)
                && manager.services@[x].service_type is Oneshot),
            ServiceEvent::Ready(n) => n@ == x,
            ServiceEvent::Failed(n, _) => n@ == x,
            _ => false,
        } by {
        let once = runs_once(manager.services@, x);
        if is_up(manager, events, x) {
            let j = choose|j: int| 0 <= j < events.len() && satisfies(#[trigger] events[j], x, once);
            assert(satisfies(events[j], x, once));
        }
        if exists|j: int|
            0 <= j < events.len() && match #[trigger] events[j] {
                ServiceEvent::Spawned(n) => n@ == x && !(manager.services@.contains_key(x)
                    && manager.services@[x].service_type is Oneshot),
                ServiceEvent::Ready(n) => n@ == x,
                ServiceEvent::Failed(n, _) => n@ == x,
                _ => false,
            } {
            let j = choose|j: int|
                0 <= j < events.len() && match #[trigger] events[j] {
                    ServiceEvent::Spawned(n) => n@ == x && !(manager.services@.contains_key(x)
                        && manager.services@[x].service_type is Oneshot),
                    ServiceEvent::Ready(n) => n@ == x,
                    ServiceEvent::Failed(n, _) => n@ == x,
                    _ => false,
                };
            assert(satisfies(events[j], x, once));
        }
    }
}

} // verus!
