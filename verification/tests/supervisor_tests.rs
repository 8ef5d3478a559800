use piercast::health::HealthState;
use piercast::launch::{open_url, open_wait_step, stop_wait_step, StopAction, StopWait};
use piercast::schema::{
    AppConfig, CommandSpec, Commands, HealthConfig, HealthKind, Ports, RestartPolicy, StartCommands,
    StartMode,
};
use piercast::supervisor::{DaemonEvent, Registry, RuntimeStatus, SupervisorError};

fn sleep_app(id: &str, root: &str, depends_on: Vec<String>) -> AppConfig {
    AppConfig {
        id: id.into(),
        name: id.into(),
        description: None,
        icon: None,
        root: root.into(),
        tags: None,
        commands: Commands {
            install: None,
            clean: None,
            build: None,
            start: StartCommands {
                development: CommandSpec {
                    argv: vec!["sleep".into(), "60".into()],
                    cwd: None,
                    env: None,
                    shell: false,
                },
                production: None,
            },
            deploy: None,
            stop: None,
        },
        env: None,
        env_files: None,
        ports: None,
        open_url: None,
        health: None,
        depends_on,
        restart: RestartPolicy::Never,
        expose: None,
        resources: None,
    }
}

fn http_server_app(id: &str, root: &str, port: u16) -> AppConfig {
    let mut app = sleep_app(id, root, vec![]);
    app.commands.start.development = CommandSpec {
        argv: vec![
            "python3".into(),
            "-m".into(),
            "http.server".into(),
            port.to_string(),
            "--bind".into(),
            "127.0.0.1".into(),
        ],
        cwd: None,
        env: None,
        shell: false,
    };
    app.ports = Some(Ports { primary: Some(port), extra: None });
    app.health = Some(HealthConfig {
        kind: HealthKind::Http,
        target: format!("http://127.0.0.1:{port}/"),
        interval_ms: 200,
        timeout_ms: 500,
        healthy_threshold: 1,
        unhealthy_threshold: 3,
    });
    app.open_url = Some(format!("http://127.0.0.1:{port}/"));
    app
}

#[test]
fn start_respects_dependency_order_b_before_a() {
    let mut reg = Registry::new();
    reg.upsert(sleep_app("b", "/tmp/b", vec![]));
    reg.upsert(sleep_app("a", "/tmp/a", vec!["b".into()]));
    let steps = reg.plan_start("a", StartMode::Development, false).unwrap();
    let ids: Vec<&str> = steps.iter().map(|s| s.id.as_str()).collect();
    assert_eq!(ids, vec!["b", "a"]);
    assert_eq!(steps[1].mode, StartMode::Development);
}

#[test]
fn plan_start_skips_running_dependencies_and_stops_at_running_root() {
    let mut reg = Registry::new();
    reg.upsert(sleep_app("b", "/tmp/b", vec![]));
    reg.upsert(sleep_app("a", "/tmp/a", vec!["b".into()]));
    reg.mark_running("b", 11, StartMode::Production);
    let steps = reg.plan_start("a", StartMode::Development, true).unwrap();
    assert_eq!(steps.len(), 1);
    assert_eq!(steps[0].id, "a");
    assert!(steps[0].force_install);
    reg.mark_running("a", 12, StartMode::Development);
    assert!(reg.plan_start("a", StartMode::Development, false).unwrap().is_empty());
}

#[test]
fn plan_start_uses_last_mode_for_dependencies() {
    let mut reg = Registry::new();
    reg.load(sleep_app("b", "/tmp/b", vec![]), Some(StartMode::Production));
    reg.upsert(sleep_app("a", "/tmp/a", vec!["b".into()]));
    let steps = reg.plan_start("a", StartMode::Development, true).unwrap();
    assert_eq!(steps[0].mode, StartMode::Production);
    assert!(!steps[0].force_install);
    assert_eq!(steps[1].mode, StartMode::Development);
}

#[test]
fn plan_start_reports_cycle_and_missing() {
    let mut reg = Registry::new();
    reg.upsert(sleep_app("a", "/tmp/a", vec!["b".into()]));
    reg.upsert(sleep_app("b", "/tmp/b", vec!["a".into()]));
    assert!(matches!(
        reg.plan_start("a", StartMode::Development, false),
        Err(SupervisorError::DependencyCycle)
    ));
    match reg.plan_start("zzz", StartMode::Development, false) {
        Err(SupervisorError::Graph(e)) => {
            assert_eq!(e, piercast::graph::GraphError::MissingDependency("zzz".into()))
        }
        other => panic!("expected missing dependency, got {other:?}"),
    }
}

#[test]
fn missing_mode_returns_mode_unavailable() {
    let mut reg = Registry::new();
    reg.upsert(sleep_app("only-dev", "/tmp/x", vec![]));
    match reg.prepare_start("only-dev", StartMode::Production) {
        Err(SupervisorError::ModeUnavailable { configured, requested }) => {
            assert_eq!(requested, "production");
            assert!(configured.contains(&"development".to_string()));
            assert!(!configured.iter().any(|m| m == "production"));
        }
        other => panic!("expected mode_unavailable, got {other:?}"),
    }
    assert!(reg.prepare_start("only-dev", StartMode::Development).is_ok());
    assert!(matches!(
        reg.prepare_start("nope", StartMode::Development),
        Err(SupervisorError::NotFound(s)) if s == "nope"
    ));
}

#[test]
fn open_auto_starts_when_not_running() {
    let mut reg = Registry::new();
    reg.upsert(http_server_app("fixture", "/tmp/f", 18765));
    assert!(!reg.is_running("fixture").unwrap());
    let t = reg.open_target("fixture").unwrap();
    assert!(t.needs_start);
    assert_eq!(t.mode, StartMode::Development);
    assert_eq!(t.url.as_deref(), Some("http://127.0.0.1:18765/"));
    reg.mark_running("fixture", 4242, StartMode::Development);
    assert!(reg.is_running("fixture").unwrap());
    assert!(!reg.open_target("fixture").unwrap().needs_start);
}

#[test]
fn kill_terminates_process() {
    let mut reg = Registry::new();
    reg.upsert(sleep_app("victim", "/tmp/v", vec![]));
    reg.mark_starting("victim");
    reg.mark_running("victim", 777, StartMode::Development);
    assert!(reg.is_running("victim").unwrap());
    assert_eq!(reg.pid("victim").unwrap(), Some(777));
    let ev = reg.finalize_stopped("victim");
    assert!(!reg.is_running("victim").unwrap());
    assert_eq!(reg.pid("victim").unwrap(), None);
    match ev {
        Some(DaemonEvent::Status { app_id, status, health }) => {
            assert_eq!(app_id, "victim");
            assert_eq!(status, RuntimeStatus::Stopped);
            assert_eq!(health.as_deref(), Some("unknown"));
        }
        other => panic!("unexpected event {other:?}"),
    }
}

#[test]
fn running_app_without_health_check_is_healthy() {
    let mut reg = Registry::new();
    reg.upsert(sleep_app("s", "/tmp/s", vec![]));
    reg.mark_running("s", 5, StartMode::Development);
    assert_eq!(reg.health_of("s"), HealthState::Healthy);
    reg.upsert(http_server_app("h", "/tmp/h", 9000));
    reg.mark_running("h", 6, StartMode::Development);
    assert_eq!(reg.health_of("h"), HealthState::Unknown);
    let ev = reg.apply_probe("h", true);
    assert_eq!(reg.health_of("h"), HealthState::Healthy);
    assert!(ev.is_some());
    assert!(reg.apply_probe("h", true).is_none());
    assert_eq!(reg.health_poll_targets(), vec!["h".to_string()]);
    assert_eq!(reg.metrics_targets(), vec![("s".to_string(), 5), ("h".to_string(), 6)]);
}

#[test]
fn restart_uses_last_mode() {
    let mut reg = Registry::new();
    reg.upsert(sleep_app("r", "/tmp/r", vec![]));
    assert_eq!(reg.restart_mode("r").unwrap(), StartMode::Development);
    reg.mark_running("r", 1, StartMode::Production);
    reg.finalize_stopped("r");
    assert_eq!(reg.restart_mode("r").unwrap(), StartMode::Production);
    assert!(reg.restart_mode("x").is_err());
}

#[test]
fn upsert_keeps_runtime_and_remove_forgets() {
    let mut reg = Registry::new();
    reg.upsert(sleep_app("k", "/tmp/k", vec![]));
    reg.mark_running("k", 3, StartMode::Development);
    reg.upsert(sleep_app("k", "/tmp/other", vec![]));
    assert_eq!(reg.get("k").unwrap().root, "/tmp/other");
    assert!(reg.is_running("k").unwrap());
    assert_eq!(reg.list().len(), 1);
    reg.remove("k");
    assert!(reg.get("k").is_none());
    assert!(reg.list().is_empty());
}

#[test]
fn stop_action_prefers_stop_command_then_pid() {
    let mut reg = Registry::new();
    let mut with_stop = sleep_app("w", "/srv/w", vec![]);
    with_stop.commands.stop = Some(CommandSpec {
        argv: vec!["docker".into(), "compose".into(), "down".into()],
        cwd: None,
        env: None,
        shell: false,
    });
    reg.upsert(with_stop);
    reg.upsert(sleep_app("p", "/srv/p", vec![]));
    match reg.stop_action("w").unwrap() {
        StopAction::RunCommand { command, root } => {
            assert_eq!(command.argv[2], "down");
            assert_eq!(root, "/srv/w");
        }
        other => panic!("unexpected {other:?}"),
    }
    assert!(matches!(reg.stop_action("p").unwrap(), StopAction::Nothing));
    reg.mark_running("p", 99, StartMode::Development);
    assert!(matches!(reg.stop_action("p").unwrap(), StopAction::Terminate(99)));
    assert!(matches!(reg.stop_action("q"), Err(SupervisorError::NotFound(_))));
}

#[test]
fn stop_wait_escalates_after_deadline() {
    assert_eq!(stop_wait_step(false, true, Some(1)), StopWait::Finish);
    assert_eq!(stop_wait_step(true, false, Some(1)), StopWait::Wait);
    assert_eq!(stop_wait_step(true, true, Some(1)), StopWait::KillThenFinish(1));
    assert_eq!(stop_wait_step(true, true, None), StopWait::Finish);
}

#[test]
fn open_wait_times_out() {
    assert!(matches!(open_wait_step(HealthState::Healthy, true), Ok(true)));
    assert!(matches!(open_wait_step(HealthState::Unknown, false), Ok(false)));
    assert!(matches!(
        open_wait_step(HealthState::Unhealthy, true),
        Err(SupervisorError::StartTimeout)
    ));
}

#[test]
fn open_url_fills_port_template() {
    assert_eq!(
        open_url(Some("http://127.0.0.1:{port}/x/{port}"), Some(3000)).as_deref(),
        Some("http://127.0.0.1:3000/x/3000")
    );
    assert_eq!(open_url(Some("http://h:{port}"), None).as_deref(), Some("http://h:0"));
    assert_eq!(open_url(None, Some(8080)).as_deref(), Some("http://127.0.0.1:8080"));
    assert_eq!(open_url(None, None), None);
    assert_eq!(open_url(Some("{port{port}}"), Some(7)).as_deref(), Some("{port7}"));
}

#[test]
fn logs_tail_and_expose_url() {
    let mut reg = Registry::new();
    reg.upsert(sleep_app("l", "/tmp/l", vec![]));
    assert!(reg.logs("l", 10).unwrap().is_empty());
    assert!(reg.logs("m", 10).is_err());
    assert_eq!(reg.expose_url("l"), None);
    reg.set_expose_url("l", Some("https://x.ts.net/".into()));
    assert_eq!(reg.expose_url("l").as_deref(), Some("https://x.ts.net/"));
}

#[test]
fn api_status_codes() {
    assert_eq!(SupervisorError::NotFound("x".into()).api_status(), (404, "app_not_found"));
    assert_eq!(SupervisorError::DependencyCycle.api_status(), (400, "dependency_cycle"));
    assert_eq!(SupervisorError::StartTimeout.api_status(), (504, "start_timeout"));
    assert_eq!(SupervisorError::Other("e".into()).api_status(), (500, "error"));
    let m = SupervisorError::ModeUnavailable { requested: "production".into(), configured: vec![] };
    assert_eq!(m.api_status(), (400, "mode_unavailable"));
}

#[test]
fn loaded_apps_start_stopped_and_expose_url_follows_sets() {
    let mut reg = Registry::new();
    reg.load(http_server_app("l", "/tmp/l", 9100), Some(StartMode::Production));
    reg.ids_are_distinct();
    assert_eq!(reg.runtime_snapshot("l"), Some((RuntimeStatus::Stopped, HealthState::Unknown, None)));
    assert_eq!(reg.restart_mode("l").unwrap(), StartMode::Production);
    assert_eq!(reg.expose_url("l"), None);
    reg.set_expose_url("l", Some("https://l.ts.net/".into()));
    reg.set_expose_url("ghost", Some("https://g".into()));
    assert_eq!(reg.expose_url("l").as_deref(), Some("https://l.ts.net/"));
    assert_eq!(reg.expose_url("ghost"), None);
    reg.set_expose_url("l", None);
    assert_eq!(reg.expose_url("l"), None);
}
