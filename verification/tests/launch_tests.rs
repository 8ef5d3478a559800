use piercast::launch::{
    checked_config, command_plan, command_probe_argv, install_needed, join_words, launch_commands,
    probe_argv, resolved_root, should_run_install, InstallProbe,
};
use piercast::schema::{
    AppConfig, CommandSpec, Commands, RestartPolicy, StartCommands, StartMode,
};
use piercast::supervisor::SupervisorError;

fn cmd(words: &[&str]) -> CommandSpec {
    CommandSpec {
        argv: words.iter().map(|w| w.to_string()).collect(),
        cwd: None,
        env: None,
        shell: false,
    }
}

fn app(id: &str) -> AppConfig {
    AppConfig {
        id: id.into(),
        name: id.into(),
        description: None,
        icon: None,
        root: "/srv/app".into(),
        tags: None,
        commands: Commands {
            install: None,
            clean: None,
            build: None,
            start: StartCommands { development: cmd(&["npm", "run", "dev"]), production: None },
            deploy: Some(cmd(&["./deploy.sh"])),
            stop: None,
        },
        env: None,
        env_files: None,
        ports: None,
        open_url: None,
        health: None,
        depends_on: vec![],
        restart: RestartPolicy::OnFailure,
        expose: None,
        resources: None,
    }
}

const NOTHING: InstallProbe = InstallProbe {
    node_modules_present: false,
    venv_present: false,
    skip_venv_check: false,
    marker_present: false,
};

#[test]
fn install_rules_by_tool() {
    assert!(install_needed("npm install", NOTHING));
    assert!(!install_needed("pnpm i", InstallProbe { node_modules_present: true, ..NOTHING }));
    assert!(install_needed("pip install -r requirements.txt", NOTHING));
    assert!(!install_needed("uv sync", InstallProbe { skip_venv_check: true, ..NOTHING }));
    assert!(!install_needed("poetry install", InstallProbe { venv_present: true, ..NOTHING }));
    assert!(!install_needed("cargo fetch", NOTHING));
    assert!(!install_needed("docker compose pull", NOTHING));
    assert!(install_needed("make deps", NOTHING));
    assert!(!install_needed("make deps", InstallProbe { marker_present: true, ..NOTHING }));
}

#[test]
fn install_command_is_lower_cased_before_matching() {
    assert!(!should_run_install(&cmd(&["NPM", "Install"]), InstallProbe { node_modules_present: true, ..NOTHING }));
    assert!(should_run_install(&cmd(&["Yarn"]), NOTHING));
    assert!(!should_run_install(&cmd(&["CARGO", "build"]), NOTHING));
}

#[test]
fn join_words_puts_separator_between() {
    assert_eq!(join_words(&vec!["a".into(), "b".into(), "c".into()], " "), "a b c");
    assert_eq!(join_words(&vec![], " "), "");
    assert_eq!(join_words(&vec!["x".into()], ", "), "x");
}

#[test]
fn start_never_runs_deploy() {
    let mut a = app("d");
    a.commands.install = Some(cmd(&["npm", "install"]));
    a.commands.build = Some(cmd(&["npm", "run", "build"]));
    a.commands.start.production = Some(cmd(&["npm", "start"]));
    let l = launch_commands(&a, StartMode::Production, false, NOTHING).unwrap();
    assert_eq!(l.install.unwrap().argv[1], "install");
    assert_eq!(l.build.unwrap().argv[2], "build");
    assert_eq!(l.start.argv[1], "start");
    let dev = launch_commands(&a, StartMode::Development, false, InstallProbe { node_modules_present: true, ..NOTHING }).unwrap();
    assert!(dev.install.is_none());
    assert!(dev.build.is_none());
    assert_eq!(dev.start.argv[2], "dev");
    let forced = launch_commands(&a, StartMode::Development, true, InstallProbe { node_modules_present: true, ..NOTHING }).unwrap();
    assert!(forced.install.is_some());
    assert!(launch_commands(&app("p"), StartMode::Production, false, NOTHING).is_none());
}

#[test]
fn command_plan_direct_and_shell() {
    let p = command_plan(&cmd(&["python3", "-m", "http.server"]), "/root", "/bin/sh", "-lc").unwrap();
    assert_eq!(p.program, "python3");
    assert_eq!(p.args, vec!["-m".to_string(), "http.server".to_string()]);
    assert_eq!(p.cwd, "/root");
    let mut s = cmd(&["echo hi && sleep 1"]);
    s.shell = true;
    s.cwd = Some("/work".into());
    let p = command_plan(&s, "/root", "/bin/bash", "-lc").unwrap();
    assert_eq!(p.program, "/bin/bash");
    assert_eq!(p.args, vec!["-lc".to_string(), "echo hi && sleep 1".to_string()]);
    assert_eq!(p.cwd, "/work");
    match command_plan(&cmd(&[]), "/", "/bin/sh", "-lc") {
        Err(SupervisorError::Other(m)) => assert_eq!(m, "empty argv"),
        other => panic!("unexpected {other:?}"),
    }
}

#[test]
fn checked_config_reports_validation_message() {
    assert!(checked_config(&app("good-id")).is_ok());
    match checked_config(&app("Bad_ID!")) {
        Err(SupervisorError::Other(m)) => assert!(m.starts_with("validation failed: ")),
        other => panic!("unexpected {other:?}"),
    }
}

#[test]
fn resolved_root_keeps_absolute_roots() {
    assert_eq!(resolved_root("/abs/app", "/etc/x"), "/abs/app");
    assert_eq!(resolved_root("./rel", "/etc/x"), "/etc/x");
    assert_eq!(resolved_root("", "/etc/x"), "/etc/x");
}

#[test]
fn command_probe_parses_json_argv() {
    assert_eq!(
        command_probe_argv(r#"["curl", "-f", "http://x"]"#),
        Some(vec!["curl".to_string(), "-f".to_string(), "http://x".to_string()])
    );
    assert_eq!(command_probe_argv("[]"), None);
    assert_eq!(command_probe_argv("curl -f"), None);
    assert_eq!(probe_argv(Some(vec![])), None);
    assert_eq!(probe_argv(Some(vec!["a".into()])), Some(vec!["a".to_string()]));
}
