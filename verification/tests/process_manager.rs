use nimi::name_map::NameMap;
use nimi::ordering::SanityCheckError;
use nimi::process_manager::exit::ExitStatus;
use nimi::process_manager::gate::{AwaitedService, GateAction, GateInput, StartGate};
use nimi::process_manager::logs::{after_create, CreateOutcome, LogsDirAction, LogsDirSearch};
use nimi::process_manager::plan::StopSignal;
use nimi::process_manager::run::{run_begin, run_next, RunEvent, RunStep};
use nimi::process_manager::service::{ArgV, Process, ServiceOrdering};
use nimi::process_manager::settings::{Logging, Restart, RestartMode, Startup};
use nimi::process_manager::{
    OrderingError, ProcessManager, Service, ServiceEvent, ServiceType, Settings,
};

fn strings(words: &[&str]) -> Vec<String> {
    words.iter().map(|w| w.to_string()).collect()
}

fn awaited(names: &[&str]) -> Vec<AwaitedService> {
    names.iter().map(|n| AwaitedService { name: n.to_string(), runs_once: false }).collect()
}

fn settings(startup: Option<&str>) -> Settings {
    Settings {
        restart: Restart { mode: RestartMode::Never, count: 0, time_ms: 10 },
        logging: Logging { logs_dir: None },
        startup: Startup { run_on_startup: startup.map(|s| s.to_string()) },
    }
}

fn service(binary: &str, args: &[&str]) -> Service {
    Service {
        config_data: NameMap::new(),
        process: Process { argv: ArgV { binary: binary.to_string(), args: strings(args) } },
        pre_start: None,
        post_start: None,
        service_type: ServiceType::default(),
    }
}

fn manager(names: &[&str], orders: &[(&str, &[&str], &[&str])]) -> ProcessManager {
    let mut services = NameMap::new();
    for name in names {
        services.insert(name.to_string(), service(&format!("/bin/{name}"), &["-x", name]));
    }
    let mut ordering = NameMap::new();
    for (name, after, before) in orders {
        let order = ServiceOrdering { after: strings(after), before: strings(before) };
        ordering.insert(name.to_string(), order);
    }
    ProcessManager::new(services, settings(None), ordering)
}

fn message(m: &ProcessManager) -> String {
    m.validate_ordering().unwrap_err().message()
}

#[test]
fn valid_ordering_passes() {
    assert!(manager(&[], &[]).validate_ordering().is_ok());
    let m = manager(&["a", "b", "c"], &[("b", &["a"], &["c"]), ("c", &["a"], &[])]);
    assert!(m.validate_ordering().is_ok());
}

#[test]
fn unknown_entry_is_reported() {
    let m = manager(&["a"], &[("ghost", &["nobody"], &[])]);
    assert_eq!(message(&m), "ordering references unknown service: ghost");
    assert!(matches!(m.validate_ordering(), Err(OrderingError::UnknownService { .. })));
}

#[test]
fn unknown_after_is_reported() {
    let m = manager(&["a", "b"], &[("a", &["b", "x", "y"], &["z"])]);
    assert_eq!(message(&m), "ordering.a.after references unknown service: x");
    assert!(matches!(m.validate_ordering(), Err(OrderingError::UnknownAfter { .. })));
}

#[test]
fn unknown_before_is_reported() {
    let m = manager(&["a", "b"], &[("b", &[], &["a"]), ("a", &["b"], &["b", "z"])]);
    assert_eq!(message(&m), "ordering.a.before references unknown service: z");
    assert!(matches!(m.validate_ordering(), Err(OrderingError::UnknownBefore { .. })));
}

#[test]
fn cycle_is_reported() {
    let m = manager(&["a", "b"], &[("a", &["b"], &[]), ("b", &["a"], &[])]);
    assert_eq!(
        message(&m),
        "Dependency cycle detected: \
         Cycles found: [UnitId { name: \"a\" }, UnitId { name: \"b\" }]"
    );
    let m = manager(&["a", "b"], &[("a", &[], &["b"]), ("b", &[], &["a"])]);
    assert!(matches!(
        m.validate_ordering(),
        Err(OrderingError::DependencyCycle(SanityCheckError::CirclesFound(_)))
    ));
}

#[test]
fn cycle_across_both_lists_is_reported() {
    let m = manager(&["a", "b"], &[("a", &["b"], &["b"])]);
    assert!(matches!(m.validate_ordering(), Err(OrderingError::DependencyCycle(_))));
    let m = manager(&["r", "x", "y"], &[("r", &[], &["x", "y"]), ("x", &["y"], &[]), ("y", &["x"], &[])]);
    assert!(matches!(m.validate_ordering(), Err(OrderingError::DependencyCycle(_))));
}

#[test]
fn unit_table_holds_what_the_ordering_states() {
    let m = manager(&["a", "b"], &[("b", &["a", "a"], &["b"]), ("extra", &[], &["a"])]);
    let table = m.build_unit_table();
    assert_eq!(table.len(), 3);
    assert!(table.get("a").unwrap().after.is_empty());
    assert!(table.get("a").unwrap().before.is_empty());
    assert_eq!(table.get("b").unwrap().after.len(), 2);
    assert!(table.get("b").unwrap().comes_after("a"));
    assert!(table.get("b").unwrap().comes_before("b"));
    assert!(table.get("extra").unwrap().comes_before("a"));
}

#[test]
fn start_plan_lists_what_each_service_waits_for() {
    let m = manager(&["a", "b", "c"], &[("c", &["b", "a"], &[]), ("a", &[], &["b"])]);
    let plans: Vec<(String, Vec<String>)> = m
        .start_plan()
        .unwrap()
        .into_iter()
        .map(|p| (p.name, p.after.into_iter().map(|a| a.name).collect()))
        .collect();
    assert_eq!(
        plans,
        [
            ("a".to_string(), strings(&[])),
            ("b".to_string(), strings(&["a"])),
            ("c".to_string(), strings(&["b", "a"])),
        ]
    );
}

#[test]
fn start_plan_knows_which_services_run_once() {
    let mut services = NameMap::new();
    let mut setup = service("/bin/setup", &[]);
    setup.service_type = ServiceType::Oneshot;
    services.insert("setup".to_string(), setup);
    services.insert("db".to_string(), service("/bin/db", &[]));
    services.insert("app".to_string(), service("/bin/app", &[]));
    let mut ordering = NameMap::new();
    let order = ServiceOrdering { after: strings(&["setup", "db"]), before: Vec::new() };
    ordering.insert("app".to_string(), order);
    let m = ProcessManager::new(services, settings(None), ordering);
    let plans = m.start_plan().unwrap();
    let app: Vec<(String, bool)> =
        plans[2].after.iter().map(|a| (a.name.clone(), a.runs_once)).collect();
    assert_eq!(app, [("setup".to_string(), true), ("db".to_string(), false)]);

    let mut gate = StartGate::new(&plans[2].after);
    gate.observe(&ServiceEvent::Spawned("setup".to_string()));
    gate.observe(&ServiceEvent::Spawned("db".to_string()));
    assert!(!gate.is_open());
    gate.observe(&ServiceEvent::Ready("setup".to_string()));
    assert!(gate.is_open());
}

#[test]
fn before_entries_are_waited_for() {
    let m = manager(&["a", "b"], &[("a", &[], &["b"])]);
    let plans = m.start_plan().unwrap();
    assert!(plans[0].after.is_empty());
    let mut gate = StartGate::new(&plans[1].after);
    assert_eq!(gate.begin(), GateAction::Wait);
    let spawned = GateInput::Event(ServiceEvent::Spawned("a".to_string()));
    assert_eq!(gate.step(&spawned), GateAction::Start);
    assert!(m.awaited_services("a").is_empty());
    assert_eq!(m.awaited_services("b").len(), 1);
    assert!(m.after_deps("b").is_empty());
}

#[test]
fn start_plan_needs_a_valid_ordering() {
    assert!(manager(&["a"], &[("a", &["a"], &[])]).start_plan().is_err());
    assert!(manager(&["a"], &[("a", &["b"], &[])]).start_plan().is_err());
}

#[test]
fn terminal_configuration() {
    let m = manager(&["a", "b"], &[("b", &["a"], &[])]);
    let configs = m.proc_configs(true, &Some("/work".to_string()));
    assert_eq!(configs.len(), 2);
    assert_eq!(configs[0].name, "a");
    assert!(configs[0].deps.is_empty());
    assert_eq!(configs[1].name, "b");
    assert_eq!(configs[1].cmd.argv.binary, "/bin/b");
    assert_eq!(configs[1].cmd.argv.args, ["-x", "b"]);
    assert_eq!(configs[1].cwd, Some("/work".to_string()));
    assert!(configs[1].autostart);
    assert!(configs[1].autorestart);
    assert!(configs[1].stop == StopSignal::Sigterm);
    assert_eq!(configs[1].deps, ["a"]);
    assert_eq!(configs[1].mouse_scroll_speed, 5);
    assert_eq!(configs[1].scrollback_len, 1000);
    assert!(configs[1].env.is_none());
    assert!(configs[1].log.is_none());
    let configs = m.proc_configs(false, &None);
    assert!(!configs[0].autorestart);
    assert_eq!(configs[0].cwd, None);
}

#[test]
fn service_without_dependencies_starts_at_once() {
    assert_eq!(StartGate::new(&awaited(&[])).begin(), GateAction::Start);
}

#[test]
fn gate_opens_when_every_dependency_is_satisfied() {
    let mut gate = StartGate::new(&awaited(&["a", "b", "c", "a"]));
    assert_eq!(gate.begin(), GateAction::Wait);
    let spawned = GateInput::Event(ServiceEvent::Spawned("a".to_string()));
    assert_eq!(gate.step(&spawned), GateAction::Wait);
    let other = GateInput::Event(ServiceEvent::Spawned("x".to_string()));
    assert_eq!(gate.step(&other), GateAction::Wait);
    let stopped = GateInput::Event(ServiceEvent::Stopped("b".to_string()));
    assert_eq!(gate.step(&stopped), GateAction::Wait);
    let restarting = GateInput::Event(ServiceEvent::Restarting("c".to_string()));
    assert_eq!(gate.step(&restarting), GateAction::Wait);
    let ready = GateInput::Event(ServiceEvent::Ready("b".to_string()));
    assert_eq!(gate.step(&ready), GateAction::Wait);
    let failed = GateInput::Event(ServiceEvent::Failed("c".to_string(), ExitStatus::from_raw(256)));
    assert_eq!(gate.step(&failed), GateAction::Start);
    assert_eq!(gate.step(&other), GateAction::Start);
    assert!(gate.is_open());
}

#[test]
fn service_that_runs_once_is_awaited_to_its_end() {
    let deps = vec![AwaitedService { name: "a".to_string(), runs_once: true }];
    let mut gate = StartGate::new(&deps);
    let spawned = GateInput::Event(ServiceEvent::Spawned("a".to_string()));
    assert_eq!(gate.step(&spawned), GateAction::Wait);
    let failed = GateInput::Event(ServiceEvent::Failed("a".to_string(), ExitStatus::from_raw(1)));
    assert_eq!(gate.step(&failed), GateAction::Start);
}

#[test]
fn waiting_ends_with_the_channel_or_the_run() {
    let mut gate = StartGate::new(&awaited(&["a"]));
    assert_eq!(gate.step(&GateInput::ChannelClosed), GateAction::Fail);
    assert_eq!(gate.step(&GateInput::Cancelled), GateAction::Stop);
    assert!(!gate.is_open());
    gate.observe(&ServiceEvent::Spawned("a".to_string()));
    assert!(gate.is_open());
}

#[test]
fn some_service_can_always_start() {
    let m = manager(&["a", "b", "c", "d"], &[("a", &["b", "c"], &[]), ("b", &["d"], &[]), ("c", &["d"], &[])]);
    let plans = m.start_plan().unwrap();
    let mut gates: Vec<(String, StartGate)> =
        plans.into_iter().map(|p| (p.name, StartGate::new(&p.after))).collect();
    let mut started: Vec<String> = Vec::new();
    while !gates.is_empty() {
        let at = gates.iter().position(|(_, gate)| gate.is_open()).unwrap();
        let (name, _) = gates.remove(at);
        for (_, gate) in gates.iter_mut() {
            gate.observe(&ServiceEvent::Spawned(name.clone()));
        }
        started.push(name);
    }
    assert_eq!(started, ["d", "b", "c", "a"]);
}

#[test]
fn logs_directories_are_numbered() {
    let mut search = LogsDirSearch::new();
    assert!(search.has_next());
    assert_eq!(search.next_name(), "logs-0");
    assert_eq!(search.next_name(), "logs-1");
    for _ in 2..12 {
        search.next_name();
    }
    assert_eq!(search.next_name(), "logs-12");
}

#[test]
fn logs_directory_search_goes_on_while_names_are_taken() {
    assert_eq!(after_create(CreateOutcome::Created), LogsDirAction::Use);
    assert_eq!(after_create(CreateOutcome::AlreadyExists), LogsDirAction::TryNext);
    assert_eq!(after_create(CreateOutcome::Failed), LogsDirAction::Fail);
}

#[test]
fn run_begins_with_the_startup_binary() {
    assert_eq!(run_begin(&settings(Some("/bin/setup"))), RunStep::RunStartup);
    assert_eq!(run_begin(&settings(None)), RunStep::StartServices);
}

#[test]
fn first_failure_ends_the_run() {
    assert_eq!(run_next(RunEvent::StartupEnded { ok: true }), RunStep::StartServices);
    assert_eq!(run_next(RunEvent::StartupEnded { ok: false }), RunStep::Fail);
    assert_eq!(run_next(RunEvent::ServicesStarted { ok: true }), RunStep::AwaitService);
    assert_eq!(run_next(RunEvent::ServicesStarted { ok: false }), RunStep::Fail);
    assert_eq!(run_next(RunEvent::ServiceEnded { ok: true }), RunStep::AwaitService);
    assert_eq!(run_next(RunEvent::ServiceEnded { ok: false }), RunStep::CancelAndFail);
    assert_eq!(run_next(RunEvent::NoneLeft), RunStep::Finish);
}
