use piercast::import::{
    draft_id, draft_project, npm_draft, web_command, FileText, ProjectFiles,
};
use piercast::text::trim_text;
use piercast::schema::{HealthKind, RestartPolicy};

fn files() -> ProjectFiles {
    ProjectFiles {
        docker_compose_yml: false,
        compose_yaml: false,
        package_json: FileText::Absent,
        procfile: FileText::Absent,
    }
}

#[test]
fn ids_from_directory_names() {
    assert_eq!(draft_id(Some("My App")), "my-app");
    assert_eq!(draft_id(Some("--Web_Site.v2--")), "web-site-v2");
    assert_eq!(draft_id(Some("___")), "app");
    assert_eq!(draft_id(Some("Café")), "caf");
    assert_eq!(draft_id(None), "app");
}

#[test]
fn procfile_web_line() {
    assert_eq!(web_command("worker: x\nweb: bundle exec puma \r\n").as_deref(), Some("bundle exec puma"));
    assert_eq!(web_command("web:web: node s.js").as_deref(), Some("node s.js"));
    assert_eq!(web_command(" web: x"), None);
    assert_eq!(web_command("worker: x"), None);
    assert_eq!(web_command("web:").as_deref(), Some(""));
}

#[test]
fn trims_unicode_space() {
    assert_eq!(trim_text("\u{3000} a b\t\n"), "a b");
    assert_eq!(trim_text("   "), "");
}

#[test]
fn compose_project() {
    let mut f = files();
    f.compose_yaml = true;
    f.package_json = FileText::Unreadable;
    let d = draft_project("svc", "/p/svc", &f).unwrap();
    assert_eq!(d.source, "compose.yaml");
    assert_eq!(d.app.commands.start.development.argv, vec!["docker", "compose", "up"]);
    assert_eq!(d.app.commands.stop.unwrap().argv, vec!["docker", "compose", "down"]);
    assert_eq!(d.app.description.as_deref(), Some("Imported from /p/svc"));
    assert_eq!(d.app.tags, Some(vec!["imported".to_string()]));
    assert!(d.app.ports.is_none());
    assert!(d.app.open_url.is_none());
    f.docker_compose_yml = true;
    assert_eq!(draft_project("svc", "/p/svc", &f).unwrap().source, "docker-compose.yml");
}

#[test]
fn package_json_project() {
    let mut f = files();
    f.package_json = FileText::Text(r#"{"scripts": {"dev": "vite", "build": "vite build", "start": "node ."}}"#.into());
    let d = draft_project("web", "/p/web", &f).unwrap();
    assert_eq!(d.source, "package.json");
    let a = d.app;
    assert_eq!(a.commands.start.development.argv, vec!["npm", "run", "dev"]);
    assert_eq!(a.commands.install.unwrap().argv, vec!["npm", "install"]);
    assert_eq!(a.commands.build.unwrap().argv, vec!["npm", "run", "build"]);
    assert_eq!(a.commands.start.production.unwrap().argv, vec!["npm", "run", "start"]);
    assert_eq!(a.ports.unwrap().primary, Some(3000));
    assert_eq!(a.open_url.as_deref(), Some("http://127.0.0.1:{port}/"));
    let h = a.health.unwrap();
    assert_eq!(h.kind, HealthKind::Http);
    assert_eq!(h.target, "http://127.0.0.1:3000/");
    assert_eq!((h.interval_ms, h.timeout_ms, h.healthy_threshold, h.unhealthy_threshold), (5000, 2000, 1, 3));
    assert_eq!(a.restart, RestartPolicy::OnFailure);
    f.package_json = FileText::Text(r#"{"scripts": {"lint": "eslint"}}"#.into());
    assert!(draft_project("web", "/p/web", &f).is_none());
    f.package_json = FileText::Text("not json".into());
    assert!(draft_project("web", "/p/web", &f).is_none());
    f.package_json = FileText::Unreadable;
    f.procfile = FileText::Text("web: x".into());
    assert!(draft_project("web", "/p/web", &f).is_none());
}

#[test]
fn dev_script_preference() {
    let d = npm_draft("x", "/x", &vec!["start".into(), "develop".into()]).unwrap();
    assert_eq!(d.app.commands.start.development.argv[2], "develop");
    let d = npm_draft("x", "/x", &vec!["start".into()]).unwrap();
    assert_eq!(d.app.commands.start.development.argv[2], "start");
    assert!(d.app.commands.build.is_none());
    let d = npm_draft("x", "/x", &vec!["start:dev".into(), "dev".into()]).unwrap();
    assert_eq!(d.app.commands.start.development.argv[2], "dev");
    assert!(npm_draft("x", "/x", &vec![]).is_none());
}

#[test]
fn procfile_project() {
    let mut f = files();
    f.procfile = FileText::Text("web: python app.py\n".into());
    let d = draft_project("py", "/p/py", &f).unwrap();
    assert_eq!(d.source, "Procfile");
    assert_eq!(d.app.commands.start.development.argv, vec!["python app.py"]);
    assert!(d.app.commands.start.development.shell);
    assert_eq!(d.app.ports.unwrap().primary, Some(5000));
    assert_eq!(d.app.open_url.as_deref(), Some("http://127.0.0.1:5000/"));
    f.procfile = FileText::Text("worker: x".into());
    assert!(draft_project("py", "/p/py", &f).is_none());
    assert!(draft_project("py", "/p/py", &files()).is_none());
}

#[test]
fn drafted_ids_pass_the_id_rule() {
    for name in [Some("My App!"), Some("--x--"), Some("日本"), Some("A_B.C"), None] {
        let id = draft_id(name);
        assert!(piercast::schema::validate_id(&id).is_ok(), "{id}");
    }
}
