//! The process manager: which services run, in what order they start and how they are watched.

use crate::name_map::NameMap;
use crate::names::names;
use crate::ordering::graph::{acyclic, is_start_order, lists_after, lists_before, must_precede};
use crate::ordering::graph::{self_contained, unit_graph, UnitGraph};
use crate::ordering::laws::{law_acyclic_accepted, law_graph_states_the_table};
use crate::ordering::laws::{law_cycle_goes_round, law_report_names_each_unit_once};
use crate::ordering::laws::law_reported_circle_is_cycle;
use crate::ordering::laws::{law_start_order_keeps_the_lists, law_valid_iff_start_order};
use crate::ordering::sanity::{circle_names, is_check_report, sanity_check_dependencies};
use crate::ordering::{Dependencies, DependenciesView, SanityCheckError, UnitId};
use crate::process_manager::exit::ExitStatus;
use crate::process_manager::service::ServiceOrdering;
use vstd::prelude::*;

pub use crate::process_manager::service::{Service, ServiceType};
pub use crate::process_manager::service_manager::ServiceManager;
pub use crate::process_manager::settings::Settings;

pub mod child;
pub mod exit;
pub mod gate;
pub mod launch;
pub mod logs;
pub mod plan;
pub mod run;
pub mod service;
pub mod service_manager;
pub mod settings;

verus! {

/// Lifecycle events that services emit.
#[derive(Debug)]
pub enum ServiceEvent {
    /// Service process has been successfully spawned
    Spawned(String),
    /// Service is ready: its post-start binary succeeded, if it has one, or, for a service that
    /// runs once, it exited successfully
    Ready(String),
    /// Service process failed with the given exit status
    Failed(String, ExitStatus),
    /// Service was stopped (graceful shutdown)
    Stopped(String),
    /// Service is being restarted
    Restarting(String),
}

impl Clone for ServiceEvent {
    fn clone(&self) -> (copy: Self)
        ensures
            copy == *self,
    {
        match self {
            ServiceEvent::Spawned(name) => ServiceEvent::Spawned(name.clone()),
            ServiceEvent::Ready(name) => ServiceEvent::Ready(name.clone()),
            ServiceEvent::Failed(name, status) => ServiceEvent::Failed(name.clone(), *status),
            ServiceEvent::Stopped(name) => ServiceEvent::Stopped(name.clone()),
            ServiceEvent::Restarting(name) => ServiceEvent::Restarting(name.clone()),
        }
    }
}

/// Errors from the validation of the ordering.
#[derive(Debug)]
pub enum OrderingError {
    /// The ordering has an entry for a service that does not exist
    UnknownService {
        /// Name of the entry
        name: String,
    },
    /// An entry wants to start after a service that does not exist
    UnknownAfter {
        /// Name of the entry
        name: String,
        /// Name of the service that does not exist
        dep: String,
    },
    /// An entry wants to start before a service that does not exist
    UnknownBefore {
        /// Name of the entry
        name: String,
        /// Name of the service that does not exist
        dep: String,
    },
    /// The entries contradict each other
    DependencyCycle(SanityCheckError),
}

/// The text of an unknown entry of the ordering.
pub open spec fn unknown_service_text(name: Seq<char>) -> Seq<char> {
    "ordering references unknown service: "@ + name
}

/// The text of an unknown name in one of the two lists of an entry.
pub open spec fn unknown_dep_text(name: Seq<char>, list: Seq<char>, dep: Seq<char>) -> Seq<char> {
    "ordering."@ + name + "."@ + list + " references unknown service: "@ + dep
}

fn unknown_dep_message(name: &str, list: &str, dep: &str) -> (text: String)
    ensures
        text@ == unknown_dep_text(name@, list@, dep@),
{
    let mut text: String = "ordering.".to_owned();
    text.append(name);
    text.append(".");
    text.append(list);
    text.append(" references unknown service: ");
    text.append(dep);
    text
}

/// What is said of an unknown name tells whose list it stands on, and which one.
pub proof fn law_unknown_name_texts(name: Seq<char>, dep: Seq<char>)
    ensures
        unknown_dep_text(name, "after"@, dep) == "ordering."@ + name
            + ".after references unknown service: "@ + dep,
        unknown_dep_text(name, "before"@, dep) == "ordering."@ + name
            + ".before references unknown service: "@ + dep,
        unknown_service_text(name) == "ordering references unknown service: "@ + name,
{
    reveal_strlit(".");
    reveal_strlit("after");
    reveal_strlit("before");
    reveal_strlit(" references unknown service: ");
    reveal_strlit(".after references unknown service: ");
    reveal_strlit(".before references unknown service: ");
    assert(unknown_dep_text(name, "after"@, dep) =~= "ordering."@ + name
        + ".after references unknown service: "@ + dep);
    assert(unknown_dep_text(name, "before"@, dep) =~= "ordering."@ + name
        + ".before references unknown service: "@ + dep);
}

impl OrderingError {
    /// What the error says.
    pub open spec fn text(&self) -> Seq<char> {
        match *self {
            OrderingError::UnknownService { name } => unknown_service_text(name@),
            OrderingError::UnknownAfter { name, dep } => unknown_dep_text(name@, "after"@, dep@),
            OrderingError::UnknownBefore { name, dep } => unknown_dep_text(name@, "before"@, dep@),
            OrderingError::DependencyCycle(error) => "Dependency cycle detected: "@ + error.text(),
        }
    }

    /// What the error says.
    pub fn message(&self) -> (text: String)
        ensures
            text@ == self.text(),
            *self matches OrderingError::UnknownService { name } ==> text@
                == "ordering references unknown service: "@ + name@,
            *self matches OrderingError::UnknownAfter { name, dep } ==> text@ == "ordering."@ + name@
                + ".after references unknown service: "@ + dep@,
            *self matches OrderingError::UnknownBefore { name, dep } ==> text@ == "ordering."@
                + name@ + ".before references unknown service: "@ + dep@,
            *self matches OrderingError::DependencyCycle(error) ==> text@
                == "Dependency cycle detected: "@ + error.text(),
    {
        match self {
            OrderingError::UnknownService { name } => {
                let mut text: String = "ordering references unknown service: ".to_owned();
                text.append(name.as_str());
                text
            },
            OrderingError::UnknownAfter { name, dep } => {
                proof {
                    law_unknown_name_texts(name@, dep@);
                }
                unknown_dep_message(name.as_str(), "after", dep.as_str())
            },
            OrderingError::UnknownBefore { name, dep } => {
                proof {
                    law_unknown_name_texts(name@, dep@);
                }
                unknown_dep_message(name.as_str(), "before", dep.as_str())
            },
            OrderingError::DependencyCycle(error) => {
                let mut text: String = "Dependency cycle detected: ".to_owned();
                text.append(error.message().as_str());
                text
            },
        }
    }
}

/// Every name in a list belongs to a service.
pub open spec fn all_known(known: Set<Seq<char>>, deps: Seq<Seq<char>>) -> bool {
    forall|i: int| 0 <= i < deps.len() ==> known.contains(#[trigger] deps[i])
}

/// The first name in a list that belongs to no service.
pub open spec fn is_first_unknown(
    known: Set<Seq<char>>,
    deps: Seq<Seq<char>>,
    dep: Seq<char>,
) -> bool {
    exists|i: int|
        0 <= i < deps.len() && #[trigger] deps[i] == dep && !known.contains(dep) && all_known(
            known,
            deps.take(i),
        )
}

/// An entry of the ordering and all names in it belong to services.
pub open spec fn entry_known(
    known: Set<Seq<char>>,
    name: Seq<char>,
    entry: ServiceOrdering,
) -> bool {
    &&& known.contains(name)
    &&& all_known(known, names(entry.after@))
    &&& all_known(known, names(entry.before@))
}

/// The error that says what is unknown in an entry of the ordering: its own name, or else the
/// first unknown name on its `after` list, or else the one on its `before` list.
pub open spec fn is_entry_error(
    known: Set<Seq<char>>,
    name: Seq<char>,
    entry: ServiceOrdering,
    error: OrderingError,
) -> bool {
    match error {
        OrderingError::UnknownService { name: n } => n@ == name && !known.contains(name),
        OrderingError::UnknownAfter { name: n, dep } => {
            &&& n@ == name
            &&& known.contains(name)
            &&& is_first_unknown(known, names(entry.after@), dep@)
        },
        OrderingError::UnknownBefore { name: n, dep } => {
            &&& n@ == name
            &&& known.contains(name)
            &&& all_known(known, names(entry.after@))
            &&& is_first_unknown(known, names(entry.before@), dep@)
        },
        OrderingError::DependencyCycle(_) => false,
    }
}

/// Every entry of the ordering and all names in it belong to services.
pub open spec fn ordering_known(
    known: Set<Seq<char>>,
    ordering: Map<Seq<char>, ServiceOrdering>,
) -> bool {
    forall|n: Seq<char>| #[trigger]
        ordering.contains_key(n) ==> entry_known(known, n, ordering[n])
}

/// The dependency graph of the services under an ordering.
pub open spec fn ordering_graph(
    known: Set<Seq<char>>,
    ordering: Map<Seq<char>, ServiceOrdering>,
) -> UnitGraph {
    Map::new(
        |n: Seq<char>| known.contains(n) || ordering.contains_key(n),
        |n: Seq<char>|
            if ordering.contains_key(n) {
                DependenciesView {
                    before: names(ordering[n].before@),
                    after: names(ordering[n].after@),
                }
            } else {
                DependenciesView { before: Seq::empty(), after: Seq::empty() }
            },
    )
}

/// The services that a service should start after.
pub open spec fn after_names(
    ordering: Map<Seq<char>, ServiceOrdering>,
    name: Seq<char>,
) -> Seq<Seq<char>> {
    if ordering.contains_key(name) {
        names(ordering[name].after@)
    } else {
        Seq::empty()
    }
}

pub(crate) proof fn lemma_known_graph(known: Set<Seq<char>>, ordering: Map<Seq<char>, ServiceOrdering>)
    requires
        ordering_known(known, ordering),
    ensures
        self_contained(ordering_graph(known, ordering)),
        ordering_graph(known, ordering).dom() == known,
{
    let g = ordering_graph(known, ordering);
    assert(g.dom() =~= known) by {
        assert forall|n: Seq<char>| ordering.contains_key(n) implies known.contains(n) by {
            assert(entry_known(known, n, ordering[n]));
        }
    }
    assert forall|x: Seq<char>, y: Seq<char>| #[trigger] lists_before(g, x, y) implies g.contains_key(
        y,
    ) by {
        assert(entry_known(known, x, ordering[x]));
        let i = choose|i: int| 0 <= i < g[x].before.len() && g[x].before[i] == y;
        assert(known.contains(names(ordering[x].before@)[i]));
    }
    assert forall|x: Seq<char>, y: Seq<char>| #[trigger] lists_after(g, x, y) implies g.contains_key(
        y,
    ) by {
        assert(entry_known(known, x, ordering[x]));
        let i = choose|i: int| 0 <= i < g[x].after.len() && g[x].after[i] == y;
        assert(known.contains(names(ordering[x].after@)[i]));
    }
}

/// Unit identifiers of the given names.
fn unit_ids(list: &Vec<String>) -> (ids: Vec<UnitId>)
    ensures
        names(ids@) == names(list@),
{
    let mut ids: Vec<UnitId> = Vec::new();
    let mut i: usize = 0;
    while i < list.len()
        invariant
            0 <= i <= list@.len(),
            names(ids@) == names(list@).take(i as int),
        decreases list@.len() - i,
    {
        let ghost so_far = names(ids@);
        ids.push(UnitId::new(list[i].as_str()));
        proof {
            assert(names(ids@) =~= so_far.push(names(list@)[i as int]));
            assert(names(list@).take(i + 1) =~= so_far.push(names(list@)[i as int]));
        }
        i += 1;
    }
    proof {
        assert(names(list@).take(i as int) =~= names(list@));
    }
    ids
}

/// Responsible for the services and for the order in which they start.
#[derive(Debug)]
pub struct ProcessManager {
    /// The services, by name
    pub services: NameMap<String, Service>,
    /// Settings that hold for all services
    pub settings: Settings,
    /// When services should start, relative to each other
    pub ordering: NameMap<String, ServiceOrdering>,
}

impl ProcessManager {
    /// Names of the services.
    pub open spec fn known(&self) -> Set<Seq<char>> {
        self.services@.dom()
    }

    /// The dependency graph of the services.
    pub open spec fn graph(&self) -> UnitGraph {
        ordering_graph(self.known(), self.ordering@)
    }

    /// What the validation of the ordering says if it fails: what is unknown in the first entry
    /// with something unknown, or where nothing is unknown, that the dependencies form a cycle.
    pub open spec fn is_ordering_error(&self, error: OrderingError) -> bool {
        match error {
            OrderingError::DependencyCycle(error) => {
                &&& ordering_known(self.known(), self.ordering@)
                &&& !acyclic(self.graph())
                &&& error matches SanityCheckError::CirclesFound(circles) && is_check_report(
                    self.graph(),
                    circle_names(circles@),
                )
            },
            _ => exists|i: int|
                0 <= i < self.ordering.order().len() && is_entry_error(
                    self.known(),
                    #[trigger] self.ordering.order()[i],
                    self.ordering@[self.ordering.order()[i]],
                    error,
                ) && forall|k: int|
                    0 <= k < i ==> entry_known(
                        self.known(),
                        #[trigger] self.ordering.order()[k],
                        self.ordering@[self.ordering.order()[k]],
                    ),
        }
    }

    /// A process manager for the given services.
    pub fn new(
        services: NameMap<String, Service>,
        settings: Settings,
        ordering: NameMap<String, ServiceOrdering>,
    ) -> (manager: Self)
        ensures
            manager.services == services,
            manager.settings == settings,
            manager.ordering == ordering,
    {
        ProcessManager { services, settings, ordering }
    }

    /// The position of the first name in a list that belongs to no service.
    fn first_unknown(&self, deps: &Vec<String>) -> (at: Option<usize>)
        ensures
            match at {
                Some(i) => i < deps@.len() && is_first_unknown(
                    self.known(),
                    names(deps@),
                    deps@[i as int]@,
                ),
                None => all_known(self.known(), names(deps@)),
            },
    {
        let mut i: usize = 0;
        while i < deps.len()
            invariant
                0 <= i <= deps@.len(),
                forall|k: int| 0 <= k < i ==> self.known().contains(#[trigger] names(deps@)[k]),
            decreases deps@.len() - i,
        {
            if !self.services.contains_key(deps[i].as_str()) {
                proof {
                    let list = names(deps@);
                    assert(list[i as int] == deps@[i as int]@);
                    assert forall|k: int| 0 <= k < list.take(i as int).len() implies self.known().contains(
                        #[trigger] list.take(i as int)[k],
                    ) by {
                        assert(list.take(i as int)[k] == list[k]);
                    }
                }
                return Some(i);
            }
            i += 1;
        }
        None
    }

    /// What is unknown in the entry at a position of the ordering, if anything is.
    fn entry_error(&self, at: usize) -> (error: Option<OrderingError>)
        requires
            at < self.ordering.order().len(),
        ensures
            match error {
                Some(error) => is_entry_error(
                    self.known(),
                    self.ordering.order()[at as int],
                    self.ordering@[self.ordering.order()[at as int]],
                    error,
                ),
                None => entry_known(
                    self.known(),
                    self.ordering.order()[at as int],
                    self.ordering@[self.ordering.order()[at as int]],
                ),
            },
    {
        let name = self.ordering.key_at(at);
        let order = self.ordering.value_at(at);
        if !self.services.contains_key(name.as_str()) {
            return Some(OrderingError::UnknownService { name: name.clone() });
        }
        match self.first_unknown(&order.after) {
            Some(i) => {
                return Some(
                    OrderingError::UnknownAfter { name: name.clone(), dep: order.after[i].clone() },
                );
            },
            None => {},
        }
        match self.first_unknown(&order.before) {
            Some(i) => {
                return Some(
                    OrderingError::UnknownBefore {
                        name: name.clone(),
                        dep: order.before[i].clone(),
                    },
                );
            },
            None => {},
        }
        None
    }

    /// Validates that the ordering is consistent with the services.
    ///
    /// Every name in the ordering has to belong to a service, and the dependency graph has to be
    /// acyclic. Of several unknown names, the first one of the first entry that has one is
    /// reported.
    pub fn validate_ordering(&self) -> (result: Result<(), OrderingError>)
        ensures
            result is Ok <==> ordering_known(self.known(), self.ordering@) && acyclic(self.graph()),
            result matches Err(error) ==> self.is_ordering_error(error),
    {
        let total: usize = self.ordering.len();
        let mut i: usize = 0;
        while i < total
            invariant
                0 <= i <= total,
                total == self.ordering.order().len(),
                self.ordering.order().to_set() == self.ordering@.dom(),
                forall|k: int|
                    0 <= k < i ==> entry_known(
                        self.known(),
                        #[trigger] self.ordering.order()[k],
                        self.ordering@[self.ordering.order()[k]],
                    ),
            decreases total - i,
        {
            match self.entry_error(i) {
                Some(error) => {
                    proof {
                        let n = self.ordering.order()[i as int];
                        assert(self.ordering.order().to_set().contains(n));
                        assert(self.ordering@.contains_key(n));
                        lemma_entry_error(self.known(), n, self.ordering@[n], error);
                    }
                    return Err(error);
                },
                None => {},
            }
            i += 1;
        }
        proof {
            assert forall|n: Seq<char>| #[trigger] self.ordering@.contains_key(n) implies entry_known(
                self.known(),
                n,
                self.ordering@[n],
            ) by {
                assert(self.ordering.order().to_set().contains(n));
                let k = choose|k: int|
                    0 <= k < self.ordering.order().len() && self.ordering.order()[k] == n;
                assert(self.ordering.order()[k] == n);
            }
            lemma_known_graph(self.known(), self.ordering@);
        }
        let unit_table = self.build_unit_table();
        proof {
            let g = self.graph();
            self.services.lemma_order();
            vstd::seq_lib::seq_to_set_is_finite(self.services.order());
            if acyclic(g) {
                law_acyclic_accepted(g);
            }
        }
        match sanity_check_dependencies(&unit_table) {
            Ok(()) => Ok(()),
            Err(error) => Err(OrderingError::DependencyCycle(error)),
        }
    }

    /// The dependencies of all services, as the ordering states them.
    pub fn build_unit_table(&self) -> (table: NameMap<UnitId, Dependencies>)
        ensures
            unit_graph(table@) == self.graph(),
            forall|n: Seq<char>| #[trigger]
                table@.contains_key(n) <==> self.services@.contains_key(n)
                    || self.ordering@.contains_key(n),
            forall|n: Seq<char>| #[trigger]
                self.ordering@.contains_key(n) ==> table@[n].before@.len()
                    == self.ordering@[n].before@.len() && table@[n].after@.len()
                    == self.ordering@[n].after@.len(),
            forall|n: Seq<char>, i: int|
                self.ordering@.contains_key(n) && 0 <= i < self.ordering@[n].before@.len() ==> (
                #[trigger] table@[n].before@[i]).name@ == self.ordering@[n].before@[i]@,
            forall|n: Seq<char>, i: int|
                self.ordering@.contains_key(n) && 0 <= i < self.ordering@[n].after@.len() ==> (
                #[trigger] table@[n].after@[i]).name@ == self.ordering@[n].after@[i]@,
            forall|n: Seq<char>| #[trigger]
                table@.contains_key(n) && !self.ordering@.contains_key(n)
                    ==> table@[n].before@.len() == 0 && table@[n].after@.len() == 0,
    {
        let mut unit_table: NameMap<UnitId, Dependencies> = NameMap::new();
        let total: usize = self.services.len();
        let ghost services = self.services.order();
        let mut i: usize = 0;
        while i < total
            invariant
                0 <= i <= total,
                total == services.len(),
                services == self.services.order(),
                forall|n: Seq<char>| #[trigger]
                    unit_table@.contains_key(n) <==> services.take(i as int).contains(n),
                forall|n: Seq<char>| #[trigger]
                    unit_table@.contains_key(n) ==> unit_table@[n]@.before.len() == 0
                        && unit_table@[n]@.after.len() == 0,
            decreases total - i,
        {
            unit_table.insert(UnitId::new(self.services.key_at(i).as_str()), Dependencies::default());
            proof {
                lemma_take_contains(services, i as int);
            }
            i += 1;
        }
        proof {
            assert(services.take(i as int) =~= services);
            self.services.lemma_order();
        }
        let ghost known = self.known();
        let ghost entries = self.ordering.order();
        let total: usize = self.ordering.len();
        let mut i: usize = 0;
        while i < total
            invariant
                0 <= i <= total,
                total == entries.len(),
                known == self.known(),
                entries == self.ordering.order(),
                entries.no_duplicates(),
                forall|n: Seq<char>| #[trigger]
                    unit_table@.contains_key(n) <==> known.contains(n) || entries.take(
                        i as int,
                    ).contains(n),
                forall|n: Seq<char>| #[trigger]
                    unit_table@.contains_key(n) ==> if entries.take(i as int).contains(n) {
                        &&& unit_table@[n]@.before == names(self.ordering@[n].before@)
                        &&& unit_table@[n]@.after == names(self.ordering@[n].after@)
                    } else {
                        unit_table@[n]@.before.len() == 0 && unit_table@[n]@.after.len() == 0
                    },
            decreases total - i,
        {
            let name = self.ordering.key_at(i);
            let order = self.ordering.value_at(i);
            let mut deps = match unit_table.get(name.as_str()) {
                Some(deps) => deps.clone(),
                None => Dependencies::default(),
            };
            proof {
                lemma_take_contains(entries, i as int);
                assert(!entries.take(i as int).contains(name@));
            }
            let mut after = unit_ids(&order.after);
            let mut before = unit_ids(&order.before);
            let ghost listed = (names(after@), names(before@));
            let ghost held = deps;
            deps.after.append(&mut after);
            deps.before.append(&mut before);
            proof {
                assert(deps@.after =~= held@.after + listed.0);
                assert(deps@.before =~= held@.before + listed.1);
                assert(deps@.after =~= names(order.after@));
                assert(deps@.before =~= names(order.before@));
            }
            unit_table.insert(UnitId::new(name.as_str()), deps);
            i += 1;
        }
        proof {
            assert(entries.take(i as int) =~= entries);
            self.ordering.lemma_order();
            let g = self.graph();
            let t = unit_graph(unit_table@);
            assert forall|n: Seq<char>| t.contains_key(n) <==> g.contains_key(n) by {
                assert(unit_table@.contains_key(n) <==> known.contains(n) || entries.contains(n));
            }
            assert forall|n: Seq<char>| #[trigger] g.contains_key(n) implies t[n] == g[n] by {
                assert(unit_table@.contains_key(n));
                assert(t[n].before =~= g[n].before);
                assert(t[n].after =~= g[n].after);
            }
            assert(t =~= g);
            lemma_table_states(unit_table@, *self);
        }
        unit_table
    }
}

/// A table that describes the graph of the ordering holds the entries' lists, name for name.
proof fn lemma_table_states(table: Map<Seq<char>, Dependencies>, manager: ProcessManager)
    requires
        unit_graph(table) == manager.graph(),
    ensures
        forall|n: Seq<char>| #[trigger]
            table.contains_key(n) <==> manager.services@.contains_key(n)
                || manager.ordering@.contains_key(n),
        forall|n: Seq<char>| #[trigger]
            manager.ordering@.contains_key(n) ==> table[n].before@.len()
                == manager.ordering@[n].before@.len() && table[n].after@.len()
                == manager.ordering@[n].after@.len(),
        forall|n: Seq<char>, i: int|
            manager.ordering@.contains_key(n) && 0 <= i < manager.ordering@[n].before@.len() ==> (
            #[trigger] table[n].before@[i]).name@ == manager.ordering@[n].before@[i]@,
        forall|n: Seq<char>, i: int|
            manager.ordering@.contains_key(n) && 0 <= i < manager.ordering@[n].after@.len() ==> (
            #[trigger] table[n].after@[i]).name@ == manager.ordering@[n].after@[i]@,
        forall|n: Seq<char>| #[trigger]
            table.contains_key(n) && !manager.ordering@.contains_key(n) ==> table[n].before@.len()
                == 0 && table[n].after@.len() == 0,
{
    let g = manager.graph();
    assert forall|n: Seq<char>| #[trigger] table.contains_key(n) <==> g.contains_key(n) by {
        law_graph_states_the_table(table, n);
    }
    assert forall|n: Seq<char>| #[trigger]
        table.contains_key(n) && !manager.ordering@.contains_key(n) implies table[n].before@.len()
        == 0 && table[n].after@.len() == 0 by {
        law_graph_states_the_table(table, n);
        assert(g[n].before.len() == 0 && g[n].after.len() == 0);
    }
    assert forall|n: Seq<char>| #[trigger] manager.ordering@.contains_key(n) implies table[n].before@.len()
        == manager.ordering@[n].before@.len() && table[n].after@.len()
        == manager.ordering@[n].after@.len() by {
        law_graph_states_the_table(table, n);
        assert(g.contains_key(n));
    }
    assert forall|n: Seq<char>, i: int|
        manager.ordering@.contains_key(n) && 0 <= i < manager.ordering@[n].before@.len() implies (
    #[trigger] table[n].before@[i]).name@ == manager.ordering@[n].before@[i]@ by {
        law_graph_states_the_table(table, n);
        assert(g.contains_key(n));
        assert(unit_graph(table)[n].before[i] == g[n].before[i]);
    }
    assert forall|n: Seq<char>, i: int|
        manager.ordering@.contains_key(n) && 0 <= i < manager.ordering@[n].after@.len() implies (
    #[trigger] table[n].after@[i]).name@ == manager.ordering@[n].after@[i]@ by {
        law_graph_states_the_table(table, n);
        assert(g.contains_key(n));
        assert(unit_graph(table)[n].after[i] == g[n].after[i]);
    }
}

pub(crate) proof fn lemma_take_contains(s: Seq<Seq<char>>, i: int)
    requires
        0 <= i < s.len(),
    ensures
        forall|n: Seq<char>| #[trigger]
            s.take(i + 1).contains(n) <==> s.take(i).contains(n) || n == s[i],
{
    assert forall|n: Seq<char>| #[trigger] s.take(i + 1).contains(n) <==> s.take(i).contains(n) || n
        == s[i] by {
        if s.take(i + 1).contains(n) {
            let more = s.take(i + 1);
            let k = choose|k: int| 0 <= k < more.len() && more[k] == n;
            if k < i {
                assert(s.take(i)[k] == n);
            }
        }
        if s.take(i).contains(n) {
            let less = s.take(i);
            let k = choose|k: int| 0 <= k < less.len() && less[k] == n;
            assert(s.take(i + 1)[k] == n);
        }
        assert(s.take(i + 1)[i] == s[i]);
    }
}

/// An error about an entry shows that not everything in the entry is known.
proof fn lemma_entry_error(
    known: Set<Seq<char>>,
    name: Seq<char>,
    entry: ServiceOrdering,
    error: OrderingError,
)
    requires
        is_entry_error(known, name, entry, error),
    ensures
        !entry_known(known, name, entry),
{
}

/// The dependency graph states what the entries of the ordering do, whatever else they hold: a
/// service names another on its `before` list exactly if that name stands anywhere on the
/// `before` list of its entry, likewise for `after`, and it must precede another exactly if one
/// of the two entries says so.
pub proof fn law_graph_states_the_ordering(manager: ProcessManager, x: Seq<char>, y: Seq<char>)
    ensures
        manager.known().contains(x) <==> manager.services@.contains_key(x),
        manager.graph().contains_key(x) <==> manager.services@.contains_key(x)
            || manager.ordering@.contains_key(x),
        lists_before(manager.graph(), x, y) <==> manager.ordering@.contains_key(x) && exists|i: int|
            0 <= i < manager.ordering@[x].before@.len() && (#[trigger] manager.ordering@[x].before@[i])@
                == y,
        lists_after(manager.graph(), x, y) <==> manager.ordering@.contains_key(x) && exists|i: int|
            0 <= i < manager.ordering@[x].after@.len() && (#[trigger] manager.ordering@[x].after@[i])@
                == y,
        must_precede(manager.graph(), x, y) <==> (manager.ordering@.contains_key(x) && exists|
            i: int,
        |
            0 <= i < manager.ordering@[x].before@.len() && (#[trigger] manager.ordering@[x].before@[i])@
                == y) || (manager.ordering@.contains_key(y) && exists|i: int|
            0 <= i < manager.ordering@[y].after@.len() && (#[trigger] manager.ordering@[y].after@[i])@
                == x),
{
    lemma_listed(manager, x, y);
    lemma_listed(manager, y, x);
}

proof fn lemma_listed(manager: ProcessManager, x: Seq<char>, y: Seq<char>)
    ensures
        lists_before(manager.graph(), x, y) <==> manager.ordering@.contains_key(x) && exists|i: int|
            0 <= i < manager.ordering@[x].before@.len() && (#[trigger] manager.ordering@[x].before@[i])@
                == y,
        lists_after(manager.graph(), x, y) <==> manager.ordering@.contains_key(x) && exists|i: int|
            0 <= i < manager.ordering@[x].after@.len() && (#[trigger] manager.ordering@[x].after@[i])@
                == y,
{
    let g = manager.graph();
    if manager.ordering@.contains_key(x) {
        let entry = manager.ordering@[x];
        if lists_before(g, x, y) {
            let i = choose|i: int| 0 <= i < g[x].before.len() && g[x].before[i] == y;
            assert(entry.before@[i]@ == y);
        }
        if exists|i: int| 0 <= i < entry.before@.len() && (#[trigger] entry.before@[i])@ == y {
            let i = choose|i: int| 0 <= i < entry.before@.len() && (#[trigger] entry.before@[i])@ == y;
            assert(g[x].before[i] == y);
        }
        if lists_after(g, x, y) {
            let i = choose|i: int| 0 <= i < g[x].after.len() && g[x].after[i] == y;
            assert(entry.after@[i]@ == y);
        }
        if exists|i: int| 0 <= i < entry.after@.len() && (#[trigger] entry.after@[i])@ == y {
            let i = choose|i: int| 0 <= i < entry.after@.len() && (#[trigger] entry.after@[i])@ == y;
            assert(g[x].after[i] == y);
        }
    }
}

/// Everything in an ordering is known exactly if every entry has the name of a service, and so
/// does every position of its two lists.
pub proof fn law_known_means_all_are_services(
    known: Set<Seq<char>>,
    ordering: Map<Seq<char>, ServiceOrdering>,
)
    ensures
        ordering_known(known, ordering) <==> {
            &&& forall|n: Seq<char>| #[trigger] ordering.contains_key(n) ==> known.contains(n)
            &&& forall|n: Seq<char>, i: int|
                ordering.contains_key(n) && 0 <= i < ordering[n].after@.len() ==> known.contains(
                    (#[trigger] ordering[n].after@[i])@,
                )
            &&& forall|n: Seq<char>, i: int|
                ordering.contains_key(n) && 0 <= i < ordering[n].before@.len() ==> known.contains(
                    (#[trigger] ordering[n].before@[i])@,
                )
        },
{
    if ordering_known(known, ordering) {
        assert forall|n: Seq<char>, i: int|
            ordering.contains_key(n) && 0 <= i < ordering[n].after@.len() implies known.contains(
            (#[trigger] ordering[n].after@[i])@,
        ) by {
            assert(entry_known(known, n, ordering[n]));
            assert(known.contains(names(ordering[n].after@)[i]));
        }
        assert forall|n: Seq<char>, i: int|
            ordering.contains_key(n) && 0 <= i < ordering[n].before@.len() implies known.contains(
            (#[trigger] ordering[n].before@[i])@,
        ) by {
            assert(entry_known(known, n, ordering[n]));
            assert(known.contains(names(ordering[n].before@)[i]));
        }
    }
    if {
        &&& forall|n: Seq<char>| #[trigger] ordering.contains_key(n) ==> known.contains(n)
        &&& forall|n: Seq<char>, i: int|
            ordering.contains_key(n) && 0 <= i < ordering[n].after@.len() ==> known.contains(
                (#[trigger] ordering[n].after@[i])@,
            )
        &&& forall|n: Seq<char>, i: int|
            ordering.contains_key(n) && 0 <= i < ordering[n].before@.len() ==> known.contains(
                (#[trigger] ordering[n].before@[i])@,
            )
    } {
        assert forall|n: Seq<char>| #[trigger] ordering.contains_key(n) implies entry_known(
            known,
            n,
            ordering[n],
        ) by {
            let entry = ordering[n];
            assert forall|i: int| 0 <= i < names(entry.after@).len() implies known.contains(
                #[trigger] names(entry.after@)[i],
            ) by {
                assert(known.contains(ordering[n].after@[i]@));
            }
            assert forall|i: int| 0 <= i < names(entry.before@).len() implies known.contains(
                #[trigger] names(entry.before@)[i],
            ) by {
                assert(known.contains(ordering[n].before@[i]@));
            }
        }
    }
}

/// An error about unknown names tells of the first entry, in the order of the ordering, that
/// holds one. It tells of the entry's own name if that is unknown, or else of the first unknown
/// name on the `after` list, or else of the first one on the `before` list.
pub proof fn law_first_unknown_name_is_told(manager: ProcessManager, error: OrderingError)
    requires
        manager.is_ordering_error(error),
        !(error is DependencyCycle),
    ensures
        exists|at: int|
            #![trigger manager.ordering.order()[at]]
            0 <= at < manager.ordering.order().len() && (forall|k: int|
                0 <= k < at ==> manager.services@.contains_key(
                    #[trigger] manager.ordering.order()[k],
                )) && (forall|k: int, i: int|
                0 <= k < at && 0 <= i
                    < manager.ordering@[manager.ordering.order()[k]].after@.len()
                    ==> manager.services@.contains_key(
                    (#[trigger] manager.ordering@[manager.ordering.order()[k]].after@[i])@,
                )) && (forall|k: int, i: int|
                0 <= k < at && 0 <= i
                    < manager.ordering@[manager.ordering.order()[k]].before@.len()
                    ==> manager.services@.contains_key(
                    (#[trigger] manager.ordering@[manager.ordering.order()[k]].before@[i])@,
                )) && match error {
                OrderingError::UnknownService { name } => name@ == manager.ordering.order()[at]
                    && !manager.services@.contains_key(name@),
                OrderingError::UnknownAfter { name, dep } => name@ == manager.ordering.order()[at]
                    && manager.services@.contains_key(name@) && !manager.services@.contains_key(
                    dep@,
                ) && exists|i: int|
                    #![trigger manager.ordering@[name@].after@[i]]
                    0 <= i < manager.ordering@[name@].after@.len()
                        && manager.ordering@[name@].after@[i]@ == dep@ && (forall|k: int|
                        0 <= k < i ==> manager.services@.contains_key(
                            (#[trigger] manager.ordering@[name@].after@[k])@,
                        )),
                OrderingError::UnknownBefore { name, dep } => name@ == manager.ordering.order()[at]
                    && manager.services@.contains_key(name@) && !manager.services@.contains_key(
                    dep@,
                ) && (forall|k: int|
                    0 <= k < manager.ordering@[name@].after@.len()
                        ==> manager.services@.contains_key(
                        (#[trigger] manager.ordering@[name@].after@[k])@,
                    )) && exists|i: int|
                    #![trigger manager.ordering@[name@].before@[i]]
                    0 <= i < manager.ordering@[name@].before@.len()
                        && manager.ordering@[name@].before@[i]@ == dep@ && (forall|k: int|
                        0 <= k < i ==> manager.services@.contains_key(
                            (#[trigger] manager.ordering@[name@].before@[k])@,
                        )),
                OrderingError::DependencyCycle(_) => false,
            },
{
    let known = manager.known();
    let order = manager.ordering.order();
    let at = choose|i: int|
        0 <= i < order.len() && is_entry_error(
            known,
            #[trigger] order[i],
            manager.ordering@[order[i]],
            error,
        ) && forall|k: int|
            0 <= k < i ==> entry_known(known, #[trigger] order[k], manager.ordering@[order[k]]);
    let entry = manager.ordering@[order[at]];
    assert forall|k: int, i: int|
        0 <= k < at && 0 <= i < manager.ordering@[order[k]].after@.len() implies manager.services@.contains_key(
        (#[trigger] manager.ordering@[order[k]].after@[i])@,
    ) by {
        assert(entry_known(known, order[k], manager.ordering@[order[k]]));
        assert(known.contains(names(manager.ordering@[order[k]].after@)[i]));
    }
    assert forall|k: int, i: int|
        0 <= k < at && 0 <= i < manager.ordering@[order[k]].before@.len() implies manager.services@.contains_key(
        (#[trigger] manager.ordering@[order[k]].before@[i])@,
    ) by {
        assert(entry_known(known, order[k], manager.ordering@[order[k]]));
        assert(known.contains(names(manager.ordering@[order[k]].before@)[i]));
    }
    assert forall|k: int| 0 <= k < at implies manager.services@.contains_key(#[trigger] order[k]) by {
        assert(entry_known(known, order[k], manager.ordering@[order[k]]));
    }
    match error {
        OrderingError::UnknownAfter { name, dep } => {
            lemma_first_unknown(known, entry.after, dep@);
        },
        OrderingError::UnknownBefore { name, dep } => {
            lemma_first_unknown(known, entry.before, dep@);
            assert forall|k: int| 0 <= k < entry.after@.len() implies known.contains(
                (#[trigger] entry.after@[k])@,
            ) by {
                assert(known.contains(names(entry.after@)[k]));
            }
        },
        _ => {},
    }
    assert(order[at] == manager.ordering.order()[at]);
}

proof fn lemma_first_unknown(known: Set<Seq<char>>, list: Vec<String>, dep: Seq<char>)
    requires
        is_first_unknown(known, names(list@), dep),
    ensures
        !known.contains(dep),
        exists|i: int|
            #![trigger list@[i]]
            0 <= i < list@.len() && list@[i]@ == dep && (forall|k: int|
                0 <= k < i ==> known.contains((#[trigger] list@[k])@)),
{
    let all = names(list@);
    let i = choose|i: int|
        0 <= i < all.len() && #[trigger] all[i] == dep && !known.contains(dep) && all_known(
            known,
            all.take(i),
        );
    assert(list@[i]@ == dep);
    assert forall|k: int| 0 <= k < i implies known.contains((#[trigger] list@[k])@) by {
        assert(known.contains(all.take(i)[k]));
    }
}

/// An ordering is valid exactly if it names services only and all services can be listed, each
/// once, so that every one comes ahead of those on the `before` list of its entry and behind
/// those on its `after` list.
pub proof fn law_valid_iff_services_can_be_listed(manager: ProcessManager)
    requires
        ordering_known(manager.known(), manager.ordering@),
    ensures
        acyclic(manager.graph()) <==> exists|order: Seq<Seq<char>>|
            #[trigger] order.no_duplicates() && (forall|n: Seq<char>| #[trigger]
                order.contains(n) <==> manager.services@.contains_key(n)) && (forall|
                n: Seq<char>,
                i: int,
            |
                manager.ordering@.contains_key(n) && 0 <= i < manager.ordering@[n].before@.len()
                    ==> order.index_of(n) < order.index_of(
                    (#[trigger] manager.ordering@[n].before@[i])@,
                )) && (forall|n: Seq<char>, i: int|
                manager.ordering@.contains_key(n) && 0 <= i < manager.ordering@[n].after@.len()
                    ==> order.index_of((#[trigger] manager.ordering@[n].after@[i])@)
                    < order.index_of(n)),
{
    let g = manager.graph();
    lemma_known_graph(manager.known(), manager.ordering@);
    manager.services.lemma_order();
    vstd::seq_lib::seq_to_set_is_finite(manager.services.order());
    law_valid_iff_start_order(g);
    law_known_means_all_are_services(manager.known(), manager.ordering@);
    if acyclic(g) {
        law_acyclic_accepted(g);
        let order = choose|order: Seq<Seq<char>>| is_start_order(g, order);
        law_start_order_keeps_the_lists(g, order);
        assert forall|n: Seq<char>| #[trigger] order.contains(n) <==> manager.services@.contains_key(
            n,
        ) by {
            assert(g.dom().contains(n) <==> manager.known().contains(n));
        }
        assert forall|n: Seq<char>, i: int|
            manager.ordering@.contains_key(n) && 0 <= i < manager.ordering@[n].before@.len() implies order.index_of(
            n,
        ) < order.index_of((#[trigger] manager.ordering@[n].before@[i])@) by {
            let y = g[n].before[i];
            assert(y == manager.ordering@[n].before@[i]@);
            assert(manager.known().contains(y));
            assert(g.dom().contains(y));
        }
        assert forall|n: Seq<char>, i: int|
            manager.ordering@.contains_key(n) && 0 <= i < manager.ordering@[n].after@.len() implies order.index_of(
            (#[trigger] manager.ordering@[n].after@[i])@,
        ) < order.index_of(n) by {
            let y = g[n].after[i];
            assert(y == manager.ordering@[n].after@[i]@);
            assert(manager.known().contains(y));
            assert(g.dom().contains(y));
        }
        assert(order.no_duplicates());
    }
    if exists|order: Seq<Seq<char>>|
        #[trigger] order.no_duplicates() && (forall|n: Seq<char>| #[trigger]
            order.contains(n) <==> manager.services@.contains_key(n)) && (forall|
            n: Seq<char>,
            i: int,
        |
            manager.ordering@.contains_key(n) && 0 <= i < manager.ordering@[n].before@.len()
                ==> order.index_of(n) < order.index_of(
                (#[trigger] manager.ordering@[n].before@[i])@,
            )) && (forall|n: Seq<char>, i: int|
            manager.ordering@.contains_key(n) && 0 <= i < manager.ordering@[n].after@.len()
                ==> order.index_of((#[trigger] manager.ordering@[n].after@[i])@) < order.index_of(
                n,
            )) {
        let order = choose|order: Seq<Seq<char>>|
            #[trigger] order.no_duplicates() && (forall|n: Seq<char>| #[trigger]
                order.contains(n) <==> manager.services@.contains_key(n)) && (forall|
                n: Seq<char>,
                i: int,
            |
                manager.ordering@.contains_key(n) && 0 <= i < manager.ordering@[n].before@.len()
                    ==> order.index_of(n) < order.index_of(
                    (#[trigger] manager.ordering@[n].before@[i])@,
                )) && (forall|n: Seq<char>, i: int|
                manager.ordering@.contains_key(n) && 0 <= i < manager.ordering@[n].after@.len()
                    ==> order.index_of((#[trigger] manager.ordering@[n].after@[i])@)
                    < order.index_of(n));
        assert forall|n: Seq<char>| #[trigger] order.contains(n) <==> g.contains_key(n) by {
            assert(g.dom().contains(n) <==> manager.known().contains(n));
        }
        assert forall|x: Seq<char>, k: int|
            g.contains_key(x) && 0 <= k < g[x].before.len() && g.contains_key(
                g[x].before[k],
            ) implies order.index_of(x) < order.index_of(#[trigger] g[x].before[k]) by {
            assert(g[x].before[k] == manager.ordering@[x].before@[k]@);
        }
        assert forall|x: Seq<char>, k: int|
            g.contains_key(x) && 0 <= k < g[x].after.len() && g.contains_key(
                g[x].after[k],
            ) implies order.index_of(#[trigger] g[x].after[k]) < order.index_of(x) by {
            assert(g[x].after[k] == manager.ordering@[x].after@[k]@);
        }
        law_start_order_keeps_the_lists(g, order);
        assert(is_start_order(g, order));
    }
}

/// The circles in an error of the validation consist of services. Each service of a circle
/// has the next one, or the last one the first, anywhere on the `before` list of its entry, or
/// stands itself anywhere on the `after` list of that one's entry.
pub proof fn law_reported_services_wait_for_each_other(
    manager: ProcessManager,
    circles: Vec<Vec<UnitId>>,
    j: int,
    i: int,
)
    requires
        manager.is_ordering_error(
            OrderingError::DependencyCycle(SanityCheckError::CirclesFound(circles)),
        ),
        0 <= j < circles@.len(),
        0 <= i < circles@[j]@.len(),
    ensures
        manager.services@.contains_key(circles@[j]@[i].name@),
        ({
            let x = circles@[j]@[i].name@;
            let y = circles@[j]@[(i + 1) % (circles@[j]@.len() as int)].name@;
            ||| manager.ordering@.contains_key(x) && exists|k: int|
                0 <= k < manager.ordering@[x].before@.len() && (
                #[trigger] manager.ordering@[x].before@[k])@ == y
            ||| manager.ordering@.contains_key(y) && exists|k: int|
                0 <= k < manager.ordering@[y].after@.len() && (
                #[trigger] manager.ordering@[y].after@[k])@ == x
        }),
{
    let g = manager.graph();
    lemma_known_graph(manager.known(), manager.ordering@);
    law_reported_circle_is_cycle(g, circle_names(circles@), j);
    let c = circle_names(circles@)[j];
    law_cycle_goes_round(g, c);
    let x = circles@[j]@[i].name@;
    let n = c.len() as int;
    let m = (i + 1) % n;
    assert(0 <= m < n) by (nonlinear_arith)
        requires
            m == (i + 1) % n,
            n > 0,
    ;
    assert(c[i] == x);
    assert(c[m] == circles@[j]@[m].name@);
    assert(g.contains_key(c[i]) && must_precede(g, c[i], c[m]));
    assert(g.dom().contains(x));
    law_graph_states_the_ordering(manager, x, c[m]);
}

/// A cycle is reported only where all names are known, and only if the services cannot be put in
/// order. It comes with the circles found.
pub proof fn law_cycle_is_told_if_all_is_known(manager: ProcessManager, error: SanityCheckError)
    requires
        manager.is_ordering_error(OrderingError::DependencyCycle(error)),
    ensures
        error is CirclesFound,
        error->CirclesFound_0@.len() > 0,
        !acyclic(manager.graph()),
        forall|n: Seq<char>| #[trigger]
            manager.ordering@.contains_key(n) ==> manager.services@.contains_key(n),
        forall|n: Seq<char>, i: int|
            manager.ordering@.contains_key(n) && 0 <= i < manager.ordering@[n].after@.len()
                ==> manager.services@.contains_key((#[trigger] manager.ordering@[n].after@[i])@),
        forall|n: Seq<char>, i: int|
            manager.ordering@.contains_key(n) && 0 <= i < manager.ordering@[n].before@.len()
                ==> manager.services@.contains_key((#[trigger] manager.ordering@[n].before@[i])@),
{
    law_known_means_all_are_services(manager.known(), manager.ordering@);
    let circles = error->CirclesFound_0;
    law_report_names_each_unit_once(manager.graph(), circle_names(circles@));
    assert forall|n: Seq<char>, i: int|
        manager.ordering@.contains_key(n) && 0 <= i < manager.ordering@[n].after@.len() implies manager.services@.contains_key(
        (#[trigger] manager.ordering@[n].after@[i])@,
    ) by {
        assert(manager.known().contains(manager.ordering@[n].after@[i]@));
    }
    assert forall|n: Seq<char>, i: int|
        manager.ordering@.contains_key(n) && 0 <= i < manager.ordering@[n].before@.len() implies manager.services@.contains_key(
        (#[trigger] manager.ordering@[n].before@[i])@,
    ) by {
        assert(manager.known().contains(manager.ordering@[n].before@[i]@));
    }
}

} // verus!
