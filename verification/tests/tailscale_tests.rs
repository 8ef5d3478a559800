use piercast::schema::{AppConfig, CommandSpec, Commands, ExposeConfig, ExposeMode, Ports, RestartPolicy, StartCommands};
use piercast::tailscale::{
    expose_outcome, expose_plan, expose_request, run_outcome, serve_url_from, serve_url_from_status,
    which_outcome, ExposeRequestError, TailscaleError, DOWNLOAD_URL,
};

fn words(c: &[String]) -> Vec<&str> {
    c.iter().map(|s| s.as_str()).collect()
}

#[test]
fn plans_per_mode() {
    let off = expose_plan(3000, ExposeMode::Off, "/");
    assert_eq!(off.commands.len(), 2);
    assert_eq!(words(&off.commands[0]), vec!["serve", "reset"]);
    assert_eq!(words(&off.commands[1]), vec!["funnel", "reset"]);
    assert!(!off.fail_on_error && !off.read_status);
    let serve = expose_plan(3000, ExposeMode::Serve, "");
    assert_eq!(words(&serve.commands[0]), vec!["serve", "--bg", "--https=443", "/=http://127.0.0.1:3000"]);
    assert!(serve.fail_on_error && serve.read_status);
    let serve = expose_plan(8080, ExposeMode::Serve, "/app");
    assert_eq!(serve.commands[0][3], "/app=http://127.0.0.1:8080");
    let funnel = expose_plan(443, ExposeMode::Funnel, "/x");
    assert_eq!(words(&funnel.commands[0]), vec!["funnel", "--bg", "443"]);
}

#[test]
fn outcome_urls() {
    let r = expose_outcome(ExposeMode::Serve, "", None);
    assert_eq!(r.url.as_deref(), Some("https://localhost/"));
    let r = expose_outcome(ExposeMode::Serve, "/a", Some("https://box.ts.net/a".into()));
    assert_eq!(r.url.as_deref(), Some("https://box.ts.net/a"));
    assert_eq!(r.mode, ExposeMode::Serve);
    assert!(expose_outcome(ExposeMode::Funnel, "/", None).url.is_none());
    assert!(expose_outcome(ExposeMode::Off, "/", Some("https://x".into())).url.is_none());
}

#[test]
fn status_scraping() {
    let json = r#"{"Web": {"box.tail.ts.net:443": {"Handlers": {"/": {"Proxy": "http://127.0.0.1:3000"}}}}, "TCP": {"443": {"HTTPS": true}}, "URL": "https://box.tail.ts.net"}"#;
    assert_eq!(serve_url_from_status(json).as_deref(), Some("https://box.tail.ts.net"));
    let text = "Available on the internet:\n\nhttps://box.tail.ts.net/ (Funnel on)\n|-- / proxy http://127.0.0.1:3000\n";
    assert_eq!(serve_url_from_status(text).as_deref(), Some("https://box.tail.ts.net/"));
    assert_eq!(serve_url_from_status("No serve config"), None);
    // the JSON is read and printed back before it is searched
    assert_eq!(serve_url_from_status(r#"{"u": "https:\/\/x.y"}"#).as_deref(), Some("https://x.y"));
    assert_eq!(serve_url_from("x https://a.b/c d", None).as_deref(), Some("https://a.b/c"));
    assert_eq!(serve_url_from("https://line", Some(r#"{"a":"https://json"}"#)).as_deref(), Some("https://json"));
    assert_eq!(serve_url_from("https://line", Some(r#"{"a":"http://json"}"#)).as_deref(), Some("https://line"));
}

#[test]
fn run_and_which_outcomes() {
    assert_eq!(run_outcome(true, "out".into(), "err").unwrap(), "out");
    match run_outcome(false, "out".into(), "  boom \n") {
        Err(TailscaleError::Other(m)) => assert_eq!(m, "boom"),
        other => panic!("unexpected {other:?}"),
    }
    assert_eq!(which_outcome(true, "/usr/bin/tailscale\n").as_deref(), Some("/usr/bin/tailscale"));
    assert_eq!(which_outcome(true, "  \n"), None);
    assert_eq!(which_outcome(false, "/usr/bin/tailscale"), None);
    assert_eq!(
        TailscaleError::Unavailable.message(),
        format!("tailscale_unavailable: install from {DOWNLOAD_URL}")
    );
}

fn app(port: Option<u16>, path: Option<&str>) -> AppConfig {
    AppConfig {
        id: "a".into(),
        name: "a".into(),
        description: None,
        icon: None,
        root: "/a".into(),
        tags: None,
        commands: Commands {
            install: None,
            clean: None,
            build: None,
            start: StartCommands {
                development: CommandSpec { argv: vec!["x".into()], cwd: None, env: None, shell: false },
                production: None,
            },
            deploy: None,
            stop: None,
        },
        env: None,
        env_files: None,
        ports: port.map(|p| Ports { primary: Some(p), extra: None }),
        open_url: None,
        health: None,
        depends_on: vec![],
        restart: RestartPolicy::OnFailure,
        expose: path.map(|p| ExposeConfig { default: ExposeMode::Off, path: p.into() }),
        resources: None,
    }
}

#[test]
fn expose_requests() {
    let (port, mode, path) = expose_request(&app(Some(3000), None), "serve").unwrap();
    assert_eq!((port, mode, path.as_str()), (3000, ExposeMode::Serve, "/"));
    let (_, mode, path) = expose_request(&app(Some(3000), Some("/x")), "funnel").unwrap();
    assert_eq!((mode, path.as_str()), (ExposeMode::Funnel, "/x"));
    assert!(matches!(expose_request(&app(None, None), "bogus"), Err(ExposeRequestError::NoPrimaryPort)));
    assert!(matches!(
        expose_request(&app(Some(1), None), "bogus"),
        Err(ExposeRequestError::UnknownMode(m)) if m == "bogus"
    ));
    assert_eq!(expose_request(&app(Some(1), None), "off").unwrap().1, ExposeMode::Off);
}
