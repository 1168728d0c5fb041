//! Holding a service back until the services that it should start after are far enough.

use crate::name_map::NameMap;
use crate::process_manager::ServiceEvent;
use vstd::prelude::*;

verus! {

/// A service that another one should start after.
#[derive(Debug)]
pub struct AwaitedService {
    /// Name of the awaited service
    pub name: String,
    /// Whether the awaited service runs once and exits
    pub runs_once: bool,
}

/// How far an awaited service has to get.
#[derive(Debug, Clone, Copy, PartialEq, Eq, Structural)]
pub enum Awaited {
    /// It has to be spawned
    Spawn,
    /// It runs once, and has to complete
    Completion,
    /// It is far enough
    Satisfied,
}

/// How far a service has to get, at first.
pub open spec fn awaited_of(runs_once: bool) -> Awaited {
    if runs_once {
        Awaited::Completion
    } else {
        Awaited::Spawn
    }
}

/// Whether an event brings the named service far enough. A service that runs once has to be
/// ready or to have failed; for any other it is enough to have been spawned. The order is soft,
/// so a failure holds nobody back.
pub open spec fn satisfies(event: ServiceEvent, name: Seq<char>, runs_once: bool) -> bool {
    match event {
        ServiceEvent::Spawned(n) => n@ == name && !runs_once,
        ServiceEvent::Ready(n) => n@ == name,
        ServiceEvent::Failed(n, _) => n@ == name,
        _ => false,
    }
}

/// One of the events brings the named service far enough.
pub open spec fn some_satisfies(
    events: Seq<ServiceEvent>,
    name: Seq<char>,
    runs_once: bool,
) -> bool {
    exists|i: int| 0 <= i < events.len() && satisfies(#[trigger] events[i], name, runs_once)
}

/// How far the services of a list have to get. Of several entries for a name, the last counts.
pub open spec fn awaiting(deps: Seq<AwaitedService>) -> Map<Seq<char>, Awaited>
    decreases deps.len(),
{
    if deps.len() == 0 {
        Map::empty()
    } else {
        awaiting(deps.drop_last()).insert(deps.last().name@, awaited_of(deps.last().runs_once))
    }
}

/// How far services still have to get once an event has been observed.
pub open spec fn observed(
    awaited: Map<Seq<char>, Awaited>,
    event: ServiceEvent,
) -> Map<Seq<char>, Awaited> {
    Map::new(
        |n: Seq<char>| awaited.contains_key(n),
        |n: Seq<char>|
            if satisfies(event, n, awaited[n] is Completion) {
                Awaited::Satisfied
            } else {
                awaited[n]
            },
    )
}

/// How far services still have to get once several events have been observed, in order.
pub open spec fn observed_all(
    awaited: Map<Seq<char>, Awaited>,
    events: Seq<ServiceEvent>,
) -> Map<Seq<char>, Awaited>
    decreases events.len(),
{
    if events.len() == 0 {
        awaited
    } else {
        observed(observed_all(awaited, events.drop_last()), events.last())
    }
}

/// Every awaited service is far enough.
pub open spec fn all_satisfied(awaited: Map<Seq<char>, Awaited>) -> bool {
    forall|n: Seq<char>| #[trigger] awaited.contains_key(n) ==> awaited[n] is Satisfied
}

/// What comes in while a service waits.
#[derive(Debug)]
pub enum GateInput {
    /// A lifecycle event of some service
    Event(ServiceEvent),
    /// The event channel broke
    ChannelClosed,
    /// The run was cancelled
    Cancelled,
}

/// What a waiting service does.
#[derive(Debug, Clone, Copy, PartialEq, Eq, Structural)]
pub enum GateAction {
    /// Wait for what comes in next
    Wait,
    /// Start
    Start,
    /// Give up with an error: no event can come in any more
    Fail,
    /// End without having started
    Stop,
}

/// Tracks the services that one service should start after.
#[derive(Debug)]
pub struct StartGate {
    awaited: NameMap<String, Awaited>,
}

impl View for StartGate {
    type V = Map<Seq<char>, Awaited>;

    closed spec fn view(&self) -> Map<Seq<char>, Awaited> {
        self.awaited@
    }
}

impl StartGate {
    /// A gate for a service that should start after the given ones.
    pub fn new(deps: &Vec<AwaitedService>) -> (gate: Self)
        ensures
            gate@ == awaiting(deps@),
    {
        let mut awaited: NameMap<String, Awaited> = NameMap::new();
        let mut i: usize = 0;
        proof {
            assert(deps@.take(0) =~= Seq::empty());
        }
        while i < deps.len()
            invariant
                0 <= i <= deps@.len(),
                awaited@ == awaiting(deps@.take(i as int)),
            decreases deps@.len() - i,
        {
            let state = if deps[i].runs_once {
                Awaited::Completion
            } else {
                Awaited::Spawn
            };
            awaited.insert(deps[i].name.clone(), state);
            proof {
                assert(deps@.take(i + 1).drop_last() =~= deps@.take(i as int));
            }
            i += 1;
        }
        proof {
            assert(deps@.take(i as int) =~= deps@);
        }
        StartGate { awaited }
    }

    /// Whether every awaited service is far enough.
    pub fn is_open(&self) -> (open: bool)
        ensures
            open == all_satisfied(self@),
    {
        let total: usize = self.awaited.len();
        let mut i: usize = 0;
        while i < total
            invariant
                0 <= i <= total,
                total == self.awaited.order().len(),
                self.awaited.order().to_set() == self.awaited@.dom(),
                forall|k: int|
                    0 <= k < i ==> self.awaited@[#[trigger] self.awaited.order()[k]] is Satisfied,
            decreases total - i,
        {
            if *self.awaited.value_at(i) != Awaited::Satisfied {
                proof {
                    assert(self@.contains_key(self.awaited.order()[i as int]));
                }
                return false;
            }
            i += 1;
        }
        proof {
            assert forall|n: Seq<char>| #[trigger] self@.contains_key(n) implies self@[n] is Satisfied by {
                assert(self.awaited.order().to_set().contains(n));
                let k = choose|k: int|
                    0 <= k < self.awaited.order().len() && self.awaited.order()[k] == n;
                assert(self.awaited@[self.awaited.order()[k]] is Satisfied);
            }
        }
        true
    }

    /// Takes note of an event.
    pub fn observe(&mut self, event: &ServiceEvent)
        ensures
            final(self)@ == observed(old(self)@, *event),
    {
        let ghost before = self@;
        match event {
            ServiceEvent::Spawned(dep) => {
                let awaits_spawn = match self.awaited.get(dep.as_str()) {
                    Some(Awaited::Spawn) => true,
                    _ => false,
                };
                if awaits_spawn {
                    self.awaited.insert(dep.clone(), Awaited::Satisfied);
                }
            },
            ServiceEvent::Ready(dep) | ServiceEvent::Failed(dep, _) => {
                if self.awaited.contains_key(dep.as_str()) {
                    self.awaited.insert(dep.clone(), Awaited::Satisfied);
                }
            },
            _ => {},
        }
        proof {
            assert(self@ =~= observed(before, *event));
        }
    }

    /// What to do before anything has come in: start at once if every awaited service is far
    /// enough.
    pub fn begin(&self) -> (action: GateAction)
        ensures
            action == if all_satisfied(self@) {
                GateAction::Start
            } else {
                GateAction::Wait
            },
    {
        if self.is_open() {
            GateAction::Start
        } else {
            GateAction::Wait
        }
    }

    /// Takes note of what came in, and says what to do.
    pub fn step(&mut self, input: &GateInput) -> (action: GateAction)
        ensures
            match *input {
                GateInput::Event(event) => {
                    &&& final(self)@ == observed(old(self)@, event)
                    &&& action == if all_satisfied(final(self)@) {
                        GateAction::Start
                    } else {
                        GateAction::Wait
                    }
                },
                GateInput::ChannelClosed => final(self)@ == old(self)@ && action
                    == GateAction::Fail,
                GateInput::Cancelled => final(self)@ == old(self)@ && action == GateAction::Stop,
            },
    {
        match input {
            GateInput::Event(event) => {
                self.observe(event);
                self.begin()
            },
            GateInput::ChannelClosed => GateAction::Fail,
            GateInput::Cancelled => GateAction::Stop,
        }
    }
}

proof fn lemma_observed_all(
    awaited: Map<Seq<char>, Awaited>,
    events: Seq<ServiceEvent>,
    n: Seq<char>,
)
    ensures
        observed_all(awaited, events).contains_key(n) <==> awaited.contains_key(n),
        awaited.contains_key(n) ==> observed_all(awaited, events)[n] == if some_satisfies(
            events,
            n,
            awaited[n] is Completion,
        ) {
            Awaited::Satisfied
        } else {
            awaited[n]
        },
    decreases events.len(),
{
    if events.len() > 0 {
        let init = events.drop_last();
        let last = events.len() - 1;
        let once = awaited[n] is Completion;
        lemma_observed_all(awaited, init, n);
        if some_satisfies(init, n, once) {
            let i = choose|i: int| 0 <= i < init.len() && satisfies(#[trigger] init[i], n, once);
            assert(satisfies(events[i], n, once));
        }
        if some_satisfies(events, n, once) {
            let i = choose|i: int| 0 <= i < events.len() && satisfies(#[trigger] events[i], n, once);
            if i < last {
                assert(satisfies(init[i], n, once));
            }
        }
        assert(satisfies(events.last(), n, once) ==> satisfies(events[last], n, once));
    }
}

/// A service starts exactly when each service that it should start after has got far enough by
/// one of the events so far: one that runs once by being ready or having failed, any other also
/// by having been spawned.
pub proof fn law_gate_opens_when_each_is_satisfied(
    awaited: Map<Seq<char>, Awaited>,
    events: Seq<ServiceEvent>,
)
    ensures
        all_satisfied(observed_all(awaited, events)) <==> forall|n: Seq<char>| #[trigger]
            awaited.contains_key(n) ==> awaited[n] is Satisfied || some_satisfies(
                events,
                n,
                awaited[n] is Completion,
            ),
{
    let seen = observed_all(awaited, events);
    assert forall|n: Seq<char>| #[trigger] seen.contains_key(n) <==> awaited.contains_key(n) by {
        lemma_observed_all(awaited, events, n);
    }
    assert forall|n: Seq<char>| #[trigger] awaited.contains_key(n) implies (seen[n] is Satisfied
        <==> awaited[n] is Satisfied || some_satisfies(events, n, awaited[n] is Completion)) by {
        lemma_observed_all(awaited, events, n);
    }
    if all_satisfied(seen) {
        assert forall|n: Seq<char>| #[trigger] awaited.contains_key(n) implies awaited[n] is Satisfied
            || some_satisfies(events, n, awaited[n] is Completion) by {
            assert(seen.contains_key(n));
        }
    }
}

/// A gate that is open stays open.
pub proof fn law_open_gate_stays_open(awaited: Map<Seq<char>, Awaited>, event: ServiceEvent)
    requires
        all_satisfied(awaited),
    ensures
        all_satisfied(observed(awaited, event)),
{
}

/// A gate awaits the services of a list, and no others.
pub proof fn law_gate_awaits_its_list(deps: Seq<AwaitedService>, n: Seq<char>)
    ensures
        awaiting(deps).contains_key(n) <==> exists|i: int|
            0 <= i < deps.len() && (#[trigger] deps[i]).name@ == n,
        awaiting(deps).contains_key(n) ==> exists|i: int|
            0 <= i < deps.len() && (#[trigger] deps[i]).name@ == n && awaiting(deps)[n]
                == awaited_of(deps[i].runs_once),
    decreases deps.len(),
{
    if deps.len() > 0 {
        let init = deps.drop_last();
        let last = deps.len() - 1;
        law_gate_awaits_its_list(init, n);
        assert(deps[last] == deps.last());
        if awaiting(init).contains_key(n) && n != deps.last().name@ {
            let i = choose|i: int|
                0 <= i < init.len() && (#[trigger] init[i]).name@ == n && awaiting(init)[n]
                    == awaited_of(init[i].runs_once);
            assert(deps[i].name@ == n);
        }
        if exists|i: int| 0 <= i < deps.len() && (#[trigger] deps[i]).name@ == n {
            let i = choose|i: int| 0 <= i < deps.len() && (#[trigger] deps[i]).name@ == n;
            if i < last {
                assert(init[i].name@ == n);
            }
        }
    }
}

/// An event changes nothing for other services than its own. Its own service is far enough if it
/// is ready or has failed, and if it was spawned, unless it has to complete. That it was stopped
/// or is being restarted changes nothing at all.
pub proof fn law_event_concerns_its_service(
    awaited: Map<Seq<char>, Awaited>,
    event: ServiceEvent,
    n: Seq<char>,
)
    ensures
        observed(awaited, event).contains_key(n) <==> awaited.contains_key(n),
        awaited.contains_key(n) ==> observed(awaited, event)[n] == match event {
            ServiceEvent::Spawned(name) => if name@ == n && !(awaited[n] is Completion) {
                Awaited::Satisfied
            } else {
                awaited[n]
            },
            ServiceEvent::Ready(name) => if name@ == n {
                Awaited::Satisfied
            } else {
                awaited[n]
            },
            ServiceEvent::Failed(name, _) => if name@ == n {
                Awaited::Satisfied
            } else {
                awaited[n]
            },
            ServiceEvent::Stopped(_) => awaited[n],
            ServiceEvent::Restarting(_) => awaited[n],
        },
{
}

/// Events are observed one by one.
pub proof fn law_events_are_observed_in_turn(
    awaited: Map<Seq<char>, Awaited>,
    events: Seq<ServiceEvent>,
    event: ServiceEvent,
)
    ensures
        observed_all(awaited, Seq::empty()) == awaited,
        observed_all(awaited, events.push(event)) == observed(
            observed_all(awaited, events),
            event,
        ),
{
    assert(events.push(event).drop_last() =~= events);
}

/// Of several entries for a name the last one says how far the service has to get.
pub proof fn law_last_entry_counts(deps: Seq<AwaitedService>, i: int)
    requires
        0 <= i < deps.len(),
        forall|k: int| i < k < deps.len() ==> (#[trigger] deps[k]).name@ != deps[i].name@,
    ensures
        awaiting(deps).contains_key(deps[i].name@),
        deps[i].runs_once ==> awaiting(deps)[deps[i].name@] == Awaited::Completion,
        !deps[i].runs_once ==> awaiting(deps)[deps[i].name@] == Awaited::Spawn,
    decreases deps.len(),
{
    let init = deps.drop_last();
    if i < init.len() {
        assert forall|k: int| i < k < init.len() implies (#[trigger] init[k]).name@
            != init[i].name@ by {
            assert(deps[k].name@ != deps[i].name@);
        }
        law_last_entry_counts(init, i);
        assert(deps[deps.len() - 1].name@ != deps[i].name@);
    }
}

proof fn lemma_last_entry(deps: Seq<AwaitedService>, n: Seq<char>) -> (i: int)
    requires
        awaiting(deps).contains_key(n),
    ensures
        0 <= i < deps.len(),
        deps[i].name@ == n,
        forall|k: int| i < k < deps.len() ==> (#[trigger] deps[k]).name@ != n,
    decreases deps.len(),
{
    let last = deps.len() - 1;
    if deps[last].name@ == n {
        last
    } else {
        let init = deps.drop_last();
        let i = lemma_last_entry(init, n);
        assert forall|k: int| i < k < deps.len() implies (#[trigger] deps[k]).name@ != n by {
            if k < last {
                assert(init[k].name@ != n);
            }
        }
        i
    }
}

/// A service that should start after the given ones starts exactly when, for the last entry of
/// each name, an event has come in that names it: that it is ready, that it has failed, or, if it
/// does not run once, that it was spawned.
pub proof fn law_gate_opens_by_the_events(deps: Seq<AwaitedService>, events: Seq<ServiceEvent>)
    ensures
        all_satisfied(observed_all(awaiting(deps), events)) <==> forall|i: int|
            0 <= i < deps.len() && (forall|k: int|
                i < k < deps.len() ==> (#[trigger] deps[k]).name@ != deps[i].name@) ==> exists|
                j: int,
            |
                0 <= j < events.len() && match #[trigger] events[j] {
                    ServiceEvent::Spawned(n) => n@ == (#[trigger] deps[i]).name@
                        && !deps[i].runs_once,
                    ServiceEvent::Ready(n) => n@ == deps[i].name@,
                    ServiceEvent::Failed(n, _) => n@ == deps[i].name@,
                    _ => false,
                },
{
    let awaited = awaiting(deps);
    law_gate_opens_when_each_is_satisfied(awaited, events);
    if all_satisfied(observed_all(awaited, events)) {
        assert forall|i: int|
            0 <= i < deps.len() && (forall|k: int|
                i < k < deps.len() ==> (#[trigger] deps[k]).name@ != deps[i].name@) implies exists|
            j: int,
        |
            0 <= j < events.len() && match #[trigger] events[j] {
                ServiceEvent::Spawned(n) => n@ == (#[trigger] deps[i]).name@ && !deps[i].runs_once,
                ServiceEvent::Ready(n) => n@ == deps[i].name@,
                ServiceEvent::Failed(n, _) => n@ == deps[i].name@,
                _ => false,
            } by {
            law_last_entry_counts(deps, i);
            let name = deps[i].name@;
            assert(some_satisfies(events, name, awaited[name] is Completion));
            let j = choose|j: int|
                0 <= j < events.len() && satisfies(
                    #[trigger] events[j],
                    name,
                    awaited[name] is Completion,
                );
            assert(satisfies(events[j], name, deps[i].runs_once));
        }
    }
    if forall|i: int|
        0 <= i < deps.len() && (forall|k: int|
            i < k < deps.len() ==> (#[trigger] deps[k]).name@ != deps[i].name@) ==> exists|j: int|
            0 <= j < events.len() && match #[trigger] events[j] {
                ServiceEvent::Spawned(n) => n@ == (#[trigger] deps[i]).name@ && !deps[i].runs_once,
                ServiceEvent::Ready(n) => n@ == deps[i].name@,
                ServiceEvent::Failed(n, _) => n@ == deps[i].name@,
                _ => false,
            } {
        assert forall|n: Seq<char>| #[trigger] awaited.contains_key(n) implies awaited[n] is Satisfied
            || some_satisfies(events, n, awaited[n] is Completion) by {
            let i = lemma_last_entry(deps, n);
            law_last_entry_counts(deps, i);
            let d = deps[i];
            let j = choose|j: int|
                0 <= j < events.len() && match #[trigger] events[j] {
                    ServiceEvent::Spawned(n) => n@ == d.name@ && !d.runs_once,
                    ServiceEvent::Ready(n) => n@ == d.name@,
                    ServiceEvent::Failed(n, _) => n@ == d.name@,
                    _ => false,
                };
            assert(satisfies(events[j], n, awaited[n] is Completion));
        }
    }
}

} // verus!
