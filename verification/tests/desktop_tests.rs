use piercast::desktop::{shown_after, update_step, Msg};
use piercast::desktop::{action_path, eq_ignore_ascii_case, header_text, visible_apps, AppAction, AppInfo, Filter};

fn info(id: &str, status: &str) -> AppInfo {
    AppInfo { id: id.into(), name: id.to_uppercase(), status: status.into() }
}

fn ids(v: &[AppInfo]) -> Vec<&str> {
    v.iter().map(|a| a.id.as_str()).collect()
}

fn sample() -> Vec<AppInfo> {
    vec![info("a", "running"), info("b", "Stopped"), info("c", "RUNNING"), info("d", "unhealthy")]
}

#[test]
fn filters() {
    assert_eq!(ids(&visible_apps(sample(), Filter::All)), vec!["a", "b", "c", "d"]);
    assert_eq!(ids(&visible_apps(sample(), Filter::Running)), vec!["a", "c"]);
    assert_eq!(ids(&visible_apps(sample(), Filter::Unhealthy)), vec!["d"]);
    assert!(visible_apps(sample(), Filter::Favorites).is_empty());
}

#[test]
fn case_insensitive_ascii() {
    assert!(eq_ignore_ascii_case("RuNnInG", "running"));
    assert!(!eq_ignore_ascii_case("runnin", "running"));
    assert!(!eq_ignore_ascii_case("É", "é"));
    for (a, b) in [("Ab", "aB"), ("x", "y"), ("", "")] {
        assert_eq!(eq_ignore_ascii_case(a, b), a.eq_ignore_ascii_case(b));
    }
}

#[test]
fn header_and_paths() {
    assert_eq!(header_text(true, Filter::Running), "Connected — Running");
    assert_eq!(header_text(false, Filter::All), "Disconnected — All");
    assert_eq!(action_path("web", AppAction::Open), "v1/apps/web/open");
    assert_eq!(action_path("web", AppAction::Kill), "v1/apps/web/kill");
}

#[test]
fn update_steps() {
    let s = update_step(Filter::Running, &Msg::Refresh);
    assert_eq!((s.filter, s.post.is_none(), s.refilter), (Filter::Running, true, true));
    assert_eq!(ids(&shown_after(&s, sample())), vec!["a", "c"]);
    let s = update_step(Filter::Running, &Msg::SetFilter(Filter::Unhealthy));
    assert_eq!(s.filter, Filter::Unhealthy);
    assert_eq!(ids(&shown_after(&s, sample())), vec!["d"]);
    let s = update_step(Filter::Running, &Msg::Stop("web".into()));
    assert_eq!(s.post.as_deref(), Some("v1/apps/web/stop"));
    assert!(!s.refilter);
    assert_eq!(ids(&shown_after(&s, sample())), vec!["a", "b", "c", "d"]);
    assert_eq!(update_step(Filter::All, &Msg::Open("x".into())).post.as_deref(), Some("v1/apps/x/open"));
    assert_eq!(update_step(Filter::All, &Msg::Kill("x".into())).post.as_deref(), Some("v1/apps/x/kill"));
}
