use nimi::name_map::NameMap;
use nimi::process_manager::child::{child_env, expand_args, lookup, plan_child};
use nimi::process_manager::exit::{
    exit_result, shutdown_begin, shutdown_next, watch_step, ExitStatus, ShutdownAction,
    WatchAction, WatchEvent,
};
use nimi::process_manager::launch::{post_start_event, watched_end, LaunchPhase, StageEnd};
use nimi::process_manager::service::{ArgV, ConfigData, Process};
use nimi::process_manager::service_manager::{
    LaunchOutcome, NextMove, ServiceError, ServiceManager, ServiceManagerOpts,
};
use nimi::process_manager::settings::{Logging, Restart, RestartMode, Startup};
use nimi::process_manager::{Service, ServiceEvent, ServiceType, Settings};
use std::sync::Arc;

fn strings(words: &[&str]) -> Vec<String> {
    words.iter().map(|w| w.to_string()).collect()
}

fn pairs(vars: &[(&str, &str)]) -> Vec<(String, String)> {
    vars.iter().map(|(k, v)| (k.to_string(), v.to_string())).collect()
}

fn service(kind: ServiceType, pre: Option<&str>, post: Option<&str>, args: &[&str]) -> Service {
    let mut config_data = NameMap::new();
    config_data.insert(
        "b.conf".to_string(),
        ConfigData { enable: true, source: "/nix/b".to_string() },
    );
    config_data.insert(
        "off.conf".to_string(),
        ConfigData { enable: false, source: "/nix/off".to_string() },
    );
    config_data.insert(
        "a.conf".to_string(),
        ConfigData { enable: true, source: "/nix/a".to_string() },
    );
    Service {
        config_data,
        process: Process { argv: ArgV { binary: "/bin/web".to_string(), args: strings(args) } },
        pre_start: pre.map(|s| s.to_string()),
        post_start: post.map(|s| s.to_string()),
        service_type: kind,
    }
}

fn manager(service: Service, mode: RestartMode, count: usize) -> ServiceManager {
    let settings = Settings {
        restart: Restart { mode, count, time_ms: 1 },
        logging: Logging { logs_dir: None },
        startup: Startup { run_on_startup: None },
    };
    let opts = ServiceManagerOpts {
        logs_dir: Some("/logs".to_string()),
        tmp_dir: "/tmp".to_string(),
        settings: Arc::new(settings),
        name: "web".to_string(),
        service,
    };
    ServiceManager::new(opts, "/tmp/cfg".to_string())
}

fn simple(mode: RestartMode, count: usize) -> ServiceManager {
    manager(service(ServiceType::Simple, None, None, &[]), mode, count)
}

fn exited(raw: i32) -> LaunchOutcome {
    LaunchOutcome::Exited(ServiceError::ProcessExited { status: ExitStatus::from_raw(raw) })
}

#[test]
fn new_manager_has_not_restarted() {
    let m = simple(RestartMode::Always, 3);
    assert_eq!(m.current_restart_count, 0);
    assert_eq!(m.name, "web");
    assert_eq!(m.config_dir, "/tmp/cfg");
    assert_eq!(m.logs_dir, Some("/logs".to_string()));
}

#[test]
fn up_to_count_restarts_that_often() {
    let mut m = simple(RestartMode::UpToCount, 3);
    for n in 0..3 {
        assert_eq!(m.current_restart_count, n);
        assert_eq!(m.after_launch(exited(256)).next, NextMove::Delay);
    }
    assert_eq!(m.after_launch(exited(256)).next, NextMove::Stop);
    assert_eq!(m.after_launch(exited(256)).next, NextMove::Stop);
    assert_eq!(m.current_restart_count, 3);
}

#[test]
fn up_to_zero_never_restarts() {
    assert_eq!(simple(RestartMode::UpToCount, 0).after_launch(exited(9)).next, NextMove::Stop);
}

#[test]
fn always_restarts_without_counting() {
    let mut m = simple(RestartMode::Always, 1);
    for _ in 0..10 {
        assert_eq!(m.after_launch(exited(256)).next, NextMove::Delay);
    }
    assert_eq!(m.current_restart_count, 0);
}

#[test]
fn never_does_not_restart() {
    assert_eq!(simple(RestartMode::Never, 5).after_launch(exited(256)).next, NextMove::Stop);
}

fn is_failed(event: &ServiceEvent, raw: i32) -> bool {
    matches!(event, ServiceEvent::Failed(name, status) if name == "web" && status.raw == raw)
}

fn is_restarting(event: &ServiceEvent) -> bool {
    matches!(event, ServiceEvent::Restarting(name) if name == "web")
}

fn is_stopped(event: &ServiceEvent) -> bool {
    matches!(event, ServiceEvent::Stopped(name) if name == "web")
}

#[test]
fn only_failed_exits_are_restarted() {
    let mut m = simple(RestartMode::Always, 0);
    let verdict = m.after_launch(LaunchOutcome::Finished);
    assert_eq!(verdict.next, NextMove::Stop);
    assert!(verdict.events.is_empty());
    let verdict = m.after_launch(LaunchOutcome::Broke);
    assert_eq!(verdict.next, NextMove::Fail);
    assert!(verdict.events.is_empty());
}

#[test]
fn restart_is_announced() {
    let mut m = simple(RestartMode::UpToCount, 1);
    let verdict = m.after_launch(exited(256));
    assert_eq!(verdict.next, NextMove::Delay);
    assert_eq!(verdict.events.len(), 2);
    assert!(is_failed(&verdict.events[0], 256));
    assert!(is_restarting(&verdict.events[1]));
    let verdict = m.after_launch(exited(9));
    assert_eq!(verdict.next, NextMove::Stop);
    assert_eq!(verdict.events.len(), 1);
    assert!(is_failed(&verdict.events[0], 9));
}

#[test]
fn failed_pre_start_is_restarted_but_no_failure_of_the_process() {
    let error = ServiceError::ProcessExited { status: ExitStatus::from_raw(256) };
    let mut m = simple(RestartMode::UpToCount, 1);
    let verdict = m.after_launch(LaunchOutcome::PreStartExited(error));
    assert_eq!(verdict.next, NextMove::Delay);
    assert_eq!(verdict.events.len(), 1);
    assert!(is_restarting(&verdict.events[0]));
    let verdict = m.after_launch(LaunchOutcome::PreStartExited(error));
    assert_eq!(verdict.next, NextMove::Stop);
    assert!(verdict.events.is_empty());
}

#[test]
fn graceful_shutdown_is_announced() {
    for kind in [ServiceType::Simple, ServiceType::Oneshot, ServiceType::Notify] {
        let mut m = manager(service(kind, None, None, &[]), RestartMode::Always, 0);
        let verdict = m.after_launch(LaunchOutcome::Stopped);
        assert_eq!(verdict.next, NextMove::Stop);
        assert_eq!(verdict.events.len(), 1);
        assert!(is_stopped(&verdict.events[0]));
    }
}

#[test]
fn delay_ends_in_a_launch_or_the_end() {
    let m = simple(RestartMode::Always, 0);
    let verdict = m.after_delay(false);
    assert_eq!(verdict.next, NextMove::Launch);
    assert!(verdict.events.is_empty());
    let verdict = m.after_delay(true);
    assert_eq!(verdict.next, NextMove::Stop);
    assert_eq!(verdict.events.len(), 1);
    assert!(is_stopped(&verdict.events[0]));
}

#[test]
fn oneshot_is_announced_and_never_restarted() {
    let mut m = manager(service(ServiceType::Oneshot, None, None, &[]), RestartMode::Always, 9);
    let verdict = m.after_launch(LaunchOutcome::Finished);
    assert_eq!(verdict.next, NextMove::Stop);
    assert_eq!(verdict.events.len(), 1);
    assert!(matches!(&verdict.events[0], ServiceEvent::Ready(name) if name == "web"));
    let status = ExitStatus::from_raw(768);
    let pre_start = LaunchOutcome::PreStartExited(ServiceError::ProcessExited { status });
    for (outcome, raw) in [(exited(512), 512), (pre_start, 768), (LaunchOutcome::Broke, 1)] {
        let verdict = m.after_launch(outcome);
        assert_eq!(verdict.next, NextMove::Fail);
        assert_eq!(verdict.events.len(), 1);
        assert!(is_failed(&verdict.events[0], raw));
    }
    assert_eq!(m.current_restart_count, 0);
}

#[test]
fn notify_is_handled_like_simple() {
    let mut m = manager(service(ServiceType::Notify, None, None, &[]), RestartMode::Always, 0);
    assert_eq!(m.after_launch(exited(256)).next, NextMove::Delay);
}

#[test]
fn plain_launch() {
    let m = simple(RestartMode::Never, 0);
    assert_eq!(m.launch_begin(), LaunchPhase::Create);
    let step = m.launch_next(LaunchPhase::Create, StageEnd::Completed);
    assert_eq!(step.phase, LaunchPhase::Supervise);
    assert_eq!(step.events.len(), 2);
    assert!(matches!(&step.events[0], ServiceEvent::Spawned(name) if name == "web"));
    assert!(matches!(&step.events[1], ServiceEvent::Ready(name) if name == "web"));
    let step = m.launch_next(LaunchPhase::Supervise, StageEnd::Completed);
    assert_eq!(step.phase, LaunchPhase::Ended(LaunchOutcome::Finished));
    assert!(step.events.is_empty());
    let step = m.launch_next(LaunchPhase::Supervise, StageEnd::ShutDown);
    assert_eq!(step.phase, LaunchPhase::Ended(LaunchOutcome::Stopped));
}

#[test]
fn oneshot_is_not_ready_before_its_end() {
    for post in [None, Some("/bin/post")] {
        let m = manager(service(ServiceType::Oneshot, None, post, &[]), RestartMode::Never, 0);
        let step = m.launch_next(LaunchPhase::Create, StageEnd::Completed);
        assert_eq!(step.phase, LaunchPhase::Supervise);
        assert_eq!(step.events.len(), 1);
        assert!(matches!(&step.events[0], ServiceEvent::Spawned(name) if name == "web"));
    }
    assert!(post_start_event("web", ServiceType::Oneshot, true).is_none());
}

#[test]
fn launch_with_all_stages() {
    let svc = service(ServiceType::Simple, Some("/bin/pre"), Some("/bin/post"), &[]);
    let m = manager(svc, RestartMode::Never, 0);
    let mut phase = m.launch_begin();
    let mut seen = Vec::new();
    let mut events = 0;
    while phase != LaunchPhase::Ended(LaunchOutcome::Finished) {
        seen.push(phase);
        let step = m.launch_next(phase, StageEnd::Completed);
        events += step.events.len();
        phase = step.phase;
    }
    assert_eq!(
        seen,
        [
            LaunchPhase::PreStart,
            LaunchPhase::Create,
            LaunchPhase::Supervise,
            LaunchPhase::AwaitPostStart { stopped: false },
        ]
    );
    assert_eq!(events, 1);
    for phase in seen {
        let step = m.launch_next(phase, StageEnd::Broke);
        assert_eq!(step.phase, LaunchPhase::Ended(LaunchOutcome::Broke));
        assert!(step.events.is_empty());
    }
    let broke = LaunchPhase::Ended(LaunchOutcome::Broke);
    assert_eq!(m.launch_next(broke, StageEnd::Completed).phase, broke);
}

#[test]
fn failed_exit_keeps_its_status() {
    let svc = service(ServiceType::Simple, Some("/bin/pre"), Some("/bin/post"), &[]);
    let m = manager(svc, RestartMode::Never, 0);
    let error = ServiceError::ProcessExited { status: ExitStatus::from_raw(512) };
    let end = StageEnd::Exited(error);
    let ended = |phase| match m.launch_next(phase, end).phase {
        LaunchPhase::Ended(outcome) => outcome,
        other => panic!("not over: {:?}", other),
    };
    assert_eq!(ended(LaunchPhase::PreStart), LaunchOutcome::PreStartExited(error));
    assert_eq!(ended(LaunchPhase::Create), LaunchOutcome::Broke);
    assert_eq!(ended(LaunchPhase::Supervise), LaunchOutcome::Exited(error));
    assert_eq!(ended(LaunchPhase::AwaitPostStart { stopped: true }), LaunchOutcome::Broke);
}

#[test]
fn shutdown_is_remembered_while_the_post_start_binary_runs() {
    let m = manager(service(ServiceType::Simple, None, Some("/bin/post"), &[]), RestartMode::Never, 0);
    let step = m.launch_next(LaunchPhase::Supervise, StageEnd::ShutDown);
    assert_eq!(step.phase, LaunchPhase::AwaitPostStart { stopped: true });
    let step = m.launch_next(step.phase, StageEnd::Completed);
    assert_eq!(step.phase, LaunchPhase::Ended(LaunchOutcome::Stopped));
}

#[test]
fn watch_ends_the_stage() {
    let error = ServiceError::ProcessExited { status: ExitStatus::from_raw(9) };
    assert_eq!(watched_end(WatchAction::ShutDown), StageEnd::ShutDown);
    assert_eq!(watched_end(WatchAction::JoinLoggers), StageEnd::Completed);
    assert_eq!(watched_end(WatchAction::Fail(error)), StageEnd::Exited(error));
}

#[test]
fn post_start_success_marks_ready() {
    let event = post_start_event("web", ServiceType::Simple, true);
    assert!(matches!(event, Some(ServiceEvent::Ready(n)) if n == "web"));
    assert!(post_start_event("web", ServiceType::Simple, false).is_none());
}

#[test]
fn exit_status_zero_is_success() {
    let ok = ExitStatus::from_raw(0);
    let bad = ExitStatus::from_raw(256);
    assert!(ok.success());
    assert!(!bad.success());
    assert_eq!(exit_result(ok), Ok(()));
    assert_eq!(exit_result(bad), Err(ServiceError::ProcessExited { status: bad }));
}

#[test]
fn watched_process_ends_or_is_shut_down() {
    let bad = ExitStatus::from_raw(9);
    assert_eq!(watch_step(WatchEvent::Cancelled), WatchAction::ShutDown);
    assert_eq!(watch_step(WatchEvent::Exited(ExitStatus::from_raw(0))), WatchAction::JoinLoggers);
    assert_eq!(
        watch_step(WatchEvent::Exited(bad)),
        WatchAction::Fail(ServiceError::ProcessExited { status: bad })
    );
}

#[test]
fn shutdown_asks_before_it_kills() {
    let begin = shutdown_begin(Some(1234));
    assert_eq!(begin, ShutdownAction::Terminate(1234));
    assert_eq!(shutdown_next(begin, false), ShutdownAction::Done);
    let kill = shutdown_next(begin, true);
    assert_eq!(kill, ShutdownAction::Kill(1234));
    assert_eq!(shutdown_next(kill, true), ShutdownAction::Done);
    assert_eq!(shutdown_begin(None), ShutdownAction::KillChild);
    assert_eq!(shutdown_next(ShutdownAction::KillChild, false), ShutdownAction::Done);
    assert_eq!(shutdown_begin(Some(4294967295)), ShutdownAction::Terminate(-1));
}

#[test]
fn config_home_overrides_the_environment() {
    let vars = pairs(&[("A", "1"), ("XDG_CONFIG_HOME", "/home/.config"), ("A", "2")]);
    let env = child_env(&vars, "/tmp/cfg");
    assert_eq!(env.len(), 2);
    assert_eq!(lookup(&env, "A"), Some("2".to_string()));
    assert_eq!(lookup(&env, "XDG_CONFIG_HOME"), Some("/tmp/cfg".to_string()));
    assert_eq!(lookup(&env, "B"), None);
}

#[test]
fn arguments_are_expanded() {
    let env = child_env(&pairs(&[("HOME", "/root"), ("A", "x"), ("T", "~")]), "/tmp/cfg");
    let args = strings(&[
        "plain",
        "~/file",
        "--config=${XDG_CONFIG_HOME}/web.conf",
        "$XDG_CONFIG_HOME/a",
        "${A}${A}-${MISSING}",
        "$MISSING",
        "${MISSING:-default}",
        "$$A",
        "${T}/x",
        "cost: 5$",
    ]);
    assert_eq!(
        expand_args(&args, &env),
        [
            "plain",
            "~/file",
            "--config=/tmp/cfg/web.conf",
            "/tmp/cfg/a",
            "xx-${MISSING}",
            "$MISSING",
            "default",
            "$A",
            "~/x",
            "cost: 5$",
        ]
    );
}

#[test]
fn child_plan_of_a_service() {
    let args = ["--dir", "${XDG_CONFIG_HOME}/d"];
    let m = manager(service(ServiceType::Simple, None, None, &args), RestartMode::Never, 0);
    let plan = m.child_plan(&pairs(&[("Z", "26"), ("B", "2"), ("XDG_CONFIG_HOME", "/elsewhere")]));
    assert_eq!(plan.binary, "/bin/web");
    assert_eq!(plan.args, ["--dir", "/tmp/cfg/d"]);
    assert_eq!(plan.config_home, "/tmp/cfg");
    assert_eq!(
        plan.log,
        [
            "Config: b.conf -> /nix/b",
            "Config: a.conf -> /nix/a",
            "Environment: B=2",
            "Environment: XDG_CONFIG_HOME=/tmp/cfg",
            "Environment: Z=26",
            "XDG_CONFIG_HOME=/tmp/cfg",
            "Running: /bin/web --dir /tmp/cfg/d",
        ]
    );
}

#[test]
fn child_plan_takes_the_expanded_arguments_as_they_are() {
    let svc = service(ServiceType::Simple, None, None, &["$A"]);
    let env = child_env(&pairs(&[]), "/c");
    let plan = plan_child(&svc, &env, "/c", strings(&["$B", "c d"]));
    assert_eq!(plan.args, ["$B", "c d"]);
    assert_eq!(plan.log.last().map(|s| s.as_str()), Some("Running: /bin/web $B c d"));
    let plan = plan_child(&svc, &env, "/c", Vec::new());
    assert_eq!(plan.log.last().map(|s| s.as_str()), Some("Running: /bin/web "));
}
