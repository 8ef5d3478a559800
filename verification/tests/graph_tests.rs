use piercast::graph::{resolve_start_order, GraphError};
use piercast::schema::{AppConfig, CommandSpec, Commands, RestartPolicy, StartCommands};

fn app(id: &str, deps: &[&str]) -> AppConfig {
    AppConfig {
        id: id.into(),
        name: id.into(),
        description: None,
        icon: None,
        root: "/tmp".into(),
        tags: None,
        commands: Commands {
            install: None,
            clean: None,
            build: None,
            start: StartCommands {
                development: CommandSpec {
                    argv: vec!["true".into()],
                    cwd: None,
                    env: None,
                    shell: false,
                },
                production: None,
            },
            deploy: None,
            stop: None,
        },
        env: None,
        env_files: None,
        ports: None,
        open_url: None,
        health: None,
        depends_on: deps.iter().map(|s| (*s).to_string()).collect(),
        restart: RestartPolicy::Never,
        expose: None,
        resources: None,
    }
}

#[test]
fn b_before_a() {
    let m = vec![app("a", &["b"]), app("b", &[])];
    assert_eq!(
        resolve_start_order("a", &m).unwrap(),
        vec!["b".to_string(), "a".to_string()]
    );
}

#[test]
fn topological_start_order_b_before_a() {
    let apps = vec![app("a", &["b"]), app("b", &[])];
    let order = resolve_start_order("a", &apps).expect("order");
    assert_eq!(order, vec!["b".to_string(), "a".to_string()]);
}

#[test]
fn dependency_cycle_errors() {
    let apps = vec![app("a", &["b"]), app("b", &["a"])];
    let err = resolve_start_order("a", &apps).unwrap_err();
    match err {
        GraphError::DependencyCycle => {}
        other => panic!("expected dependency_cycle, got {other:?}"),
    }
}

#[test]
fn missing_root_is_reported() {
    let apps = vec![app("a", &[])];
    assert_eq!(
        resolve_start_order("zzz", &apps),
        Err(GraphError::MissingDependency("zzz".to_string()))
    );
}

#[test]
fn missing_dependency_is_reported() {
    let apps = vec![app("a", &["b"]), app("b", &["ghost", "other"])];
    assert_eq!(
        resolve_start_order("a", &apps),
        Err(GraphError::MissingDependency("ghost".to_string()))
    );
}

#[test]
fn unrelated_apps_are_left_out() {
    let apps = vec![app("web", &["db"]), app("db", &[]), app("other", &[])];
    assert_eq!(
        resolve_start_order("web", &apps).unwrap(),
        vec!["db".to_string(), "web".to_string()]
    );
}

#[test]
fn ready_apps_start_in_id_order() {
    // web needs cache and db, both leaves: they start alphabetically
    let apps = vec![
        app("web", &["db", "cache"]),
        app("db", &[]),
        app("cache", &[]),
    ];
    assert_eq!(
        resolve_start_order("web", &apps).unwrap(),
        vec!["cache".to_string(), "db".to_string(), "web".to_string()]
    );
}

#[test]
fn diamond_dependencies_once_each() {
    let apps = vec![
        app("top", &["left", "right"]),
        app("left", &["base"]),
        app("right", &["base"]),
        app("base", &[]),
    ];
    assert_eq!(
        resolve_start_order("top", &apps).unwrap(),
        vec![
            "base".to_string(),
            "left".to_string(),
            "right".to_string(),
            "top".to_string()
        ]
    );
}

#[test]
fn self_dependency_is_a_cycle() {
    let apps = vec![app("a", &["a"])];
    assert_eq!(resolve_start_order("a", &apps), Err(GraphError::DependencyCycle));
}

#[test]
fn repeated_dependency_entries_are_fine() {
    let apps = vec![app("a", &["b", "b"]), app("b", &[])];
    assert_eq!(
        resolve_start_order("a", &apps).unwrap(),
        vec!["b".to_string(), "a".to_string()]
    );
}
