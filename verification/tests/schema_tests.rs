use piercast::schema::{
    AppConfig, CommandSpec, Commands, HealthConfig, HealthKind, RestartPolicy, SchemaError,
    StartCommands, StartMode,
};

fn demo(id: &str) -> AppConfig {
    AppConfig {
        id: id.into(),
        name: "Demo".into(),
        description: None,
        icon: None,
        root: "/tmp/demo".into(),
        tags: None,
        commands: Commands {
            install: None,
            clean: None,
            build: None,
            start: StartCommands {
                development: CommandSpec {
                    argv: vec!["echo".into(), "hi".into()],
                    cwd: None,
                    env: None,
                    shell: false,
                },
                production: None,
            },
            deploy: None,
            stop: None,
        },
        env: None,
        env_files: None,
        ports: None,
        open_url: None,
        health: None,
        depends_on: vec![],
        restart: RestartPolicy::OnFailure,
        expose: None,
        resources: None,
    }
}

#[test]
fn schema_validation_accepts_valid_and_rejects_bad_id() {
    let ok = AppConfig::accept_parsed(Ok(demo("demo-app"))).expect("valid yaml");
    assert_eq!(ok.id, "demo-app");
    assert!(AppConfig::accept_parsed(Ok(demo("Bad_ID!"))).is_err());
}

fn message(r: Result<(), SchemaError>) -> String {
    match r {
        Err(e) => e.message(),
        Ok(()) => String::new(),
    }
}

#[test]
fn validation_messages() {
    assert_eq!(message(demo("").validate()), "validation failed: id length invalid");
    assert_eq!(message(demo("_x").validate()), "validation failed: id must start with [a-z0-9]");
    assert_eq!(
        message(demo("a.b").validate()),
        "validation failed: id must match ^[a-z0-9][a-z0-9_-]*$"
    );
    let mut a = demo("a");
    a.name = String::new();
    assert_eq!(message(a.validate()), "validation failed: name length invalid");
    let mut a = demo("a");
    a.root = String::new();
    assert_eq!(message(a.validate()), "validation failed: root is required");
    let mut a = demo("a");
    a.commands.start.development.argv.clear();
    assert_eq!(message(a.validate()), "validation failed: start.development.argv must be non-empty");
    let mut a = demo("a");
    a.commands.stop = Some(CommandSpec { argv: vec!["a".into(), "b".into()], cwd: None, env: None, shell: true });
    assert_eq!(message(a.validate()), "validation failed: stop: shell=true requires argv length 1");
    let mut a = demo("a");
    a.health = Some(HealthConfig {
        kind: HealthKind::Tcp,
        target: "127.0.0.1:1".into(),
        interval_ms: 99,
        timeout_ms: 50,
        healthy_threshold: 1,
        unhealthy_threshold: 3,
    });
    assert_eq!(message(a.validate()), "validation failed: health.interval_ms < 100");
    assert_eq!(message(demo(&"a".repeat(128)).validate()), "");
    assert_eq!(message(demo(&"a".repeat(129)).validate()), "validation failed: id length invalid");
}

#[test]
fn parse_errors_are_reported_as_such() {
    match AppConfig::accept_parsed(Err("bad yaml".into())) {
        Err(e) => assert_eq!(e.message(), "parse error: bad yaml"),
        Ok(_) => panic!("expected an error"),
    }
}

#[test]
fn start_modes() {
    assert_eq!(StartMode::parse("production").unwrap(), StartMode::Production);
    assert_eq!("development".parse::<StartMode>().unwrap(), StartMode::Development);
    assert!(StartMode::parse("staging").is_err());
    assert_eq!(StartMode::Production.as_str(), "production");
    let mut a = demo("a");
    assert_eq!(a.configured_modes(), vec!["development"]);
    assert!(a.start_spec(StartMode::Production).is_none());
    a.commands.start.production = Some(a.commands.start.development.clone());
    assert_eq!(a.configured_modes(), vec!["development", "production"]);
    assert!(a.start_spec(StartMode::Production).is_some());
}
