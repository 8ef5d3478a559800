//! What the desktop client shows: the apps listed under the selected
//! filter, its header line, and the control-plane paths of its buttons.

use vstd::prelude::*;
use crate::import::ascii_lower;
use crate::text::chars_of;

verus! {

/// An app as the control plane lists it to the desktop client.
#[derive(Debug)]
pub struct AppInfo {
    pub id: String,
    pub name: String,
    pub status: String,
}

/// The list the client shows.
#[derive(Debug, Clone, Copy, PartialEq, Eq, Structural)]
pub enum Filter {
    All,
    Running,
    Unhealthy,
    Favorites,
}

/// `a` and `b` are equal when ASCII letters are compared without case.
pub open spec fn eq_ignore_ascii_case_spec(a: Seq<char>, b: Seq<char>) -> bool {
    a.len() == b.len() && forall|i: int| 0 <= i < a.len() ==> ascii_lower(#[trigger] a[i]) == ascii_lower(b[i])
}

fn lower(c: char) -> (r: char)
    ensures
        r == ascii_lower(c),
{
    if 'A' <= c && c <= 'Z' {
        let v: u32 = c as u32 + 32;
        let b: u8 = v as u8;
        b as char
    } else {
        c
    }
}

/// Compares two strings, ASCII letters without case.
pub fn eq_ignore_ascii_case(a: &str, b: &str) -> (r: bool)
    ensures
        r == eq_ignore_ascii_case_spec(a@, b@),
{
    let av = chars_of(a);
    let bv = chars_of(b);
    if av.len() != bv.len() {
        return false;
    }
    let n = av.len();
    for i in 0..n
        invariant
            n == av@.len(),
            n == bv@.len(),
            av@ == a@,
            bv@ == b@,
            forall|j: int| 0 <= j < i ==> ascii_lower(#[trigger] av@[j]) == ascii_lower(bv@[j]),
    {
        if lower(av[i]) != lower(bv[i]) {
            assert(ascii_lower(av@[i as int]) != ascii_lower(bv@[i as int]));
            return false;
        }
    }
    true
}

/// Whether an app with status `status` is listed under `filter`: every app
/// under all, running or unhealthy ones (in any letter case) under those
/// filters, none under favorites.
pub open spec fn listed_under(filter: Filter, status: Seq<char>) -> bool {
    match filter {
        Filter::All => true,
        Filter::Running => eq_ignore_ascii_case_spec(status, "running"@),
        Filter::Unhealthy => eq_ignore_ascii_case_spec(status, "unhealthy"@),
        Filter::Favorites => false,
    }
}

fn is_listed(filter: Filter, status: &str) -> (r: bool)
    ensures
        r == listed_under(filter, status@),
{
    match filter {
        Filter::All => true,
        Filter::Running => eq_ignore_ascii_case(status, "running"),
        Filter::Unhealthy => eq_ignore_ascii_case(status, "unhealthy"),
        Filter::Favorites => false,
    }
}

/// The apps listed under `filter`, in the order given.
pub fn visible_apps(apps: Vec<AppInfo>, filter: Filter) -> (r: Vec<AppInfo>)
    ensures
        r@ == apps@.filter(|a: AppInfo| listed_under(filter, a.status@)),
{
    let ghost pred = |a: AppInfo| listed_under(filter, a.status@);
    let ghost all = apps@;
    let mut rest = apps;
    let mut out: Vec<AppInfo> = Vec::new();
    let ghost mut seen: Seq<AppInfo> = Seq::empty();
    while rest.len() > 0
        invariant
            all == seen + rest@,
            out@ == seen.filter(pred),
            pred == (|a: AppInfo| listed_under(filter, a.status@)),
        decreases rest@.len(),
    {
        let a = rest.remove(0);
        proof {
            reveal(Seq::filter);
            assert(seen.push(a).drop_last() =~= seen);
            assert(all =~= seen.push(a) + rest@);
        }
        if is_listed(filter, a.status.as_str()) {
            out.push(a);
        }
        proof {
            seen = seen.push(a);
        }
    }
    assert(seen + rest@ =~= seen);
    out
}

/// The label of a filter.
pub open spec fn filter_label(filter: Filter) -> Seq<char> {
    match filter {
        Filter::All => "All"@,
        Filter::Running => "Running"@,
        Filter::Unhealthy => "Unhealthy"@,
        Filter::Favorites => "Favorites"@,
    }
}

/// The header line: whether the daemon answered, and the filter shown.
pub fn header_text(connected: bool, filter: Filter) -> (r: String)
    ensures
        r@ == (if connected {
            "Connected"@
        } else {
            "Disconnected"@
        }) + " — "@ + filter_label(filter),
{
    let state = if connected {
        "Connected"
    } else {
        "Disconnected"
    };
    let label = match filter {
        Filter::All => "All",
        Filter::Running => "Running",
        Filter::Unhealthy => "Unhealthy",
        Filter::Favorites => "Favorites",
    };
    state.to_owned().concat(" — ").concat(label)
}

/// A button of the client acting on one app.
#[derive(Debug, Clone, Copy, PartialEq, Eq, Structural)]
pub enum AppAction {
    Open,
    Stop,
    Kill,
}

/// The control-plane path a button posts to.
pub fn action_path(id: &str, action: AppAction) -> (r: String)
    ensures
        r@ == "v1/apps/"@ + id@ + match action {
            AppAction::Open => "/open"@,
            AppAction::Stop => "/stop"@,
            AppAction::Kill => "/kill"@,
        },
{
    let tail = match action {
        AppAction::Open => "/open",
        AppAction::Stop => "/stop",
        AppAction::Kill => "/kill",
    };
    "v1/apps/".to_owned().concat(id).concat(tail)
}


/// A message the desktop client handles.
#[derive(Debug)]
pub enum Msg {
    Refresh,
    SetFilter(Filter),
    Open(String),
    Stop(String),
    Kill(String),
}

/// What handling a message does: the filter afterwards, the control-plane
/// path to post to first (if any), and whether the list fetched afterwards
/// is narrowed to the filter.
#[derive(Debug)]
pub struct Step {
    pub filter: Filter,
    pub post: Option<String>,
    pub refilter: bool,
}

/// Decides how the client handles `msg` under `filter`: refreshing and
/// choosing a filter fetch the list and narrow it to the filter; the app
/// buttons post their action, then fetch the whole list.
pub fn update_step(filter: Filter, msg: &Msg) -> (r: Step)
    ensures
        match msg {
            Msg::Refresh => r.filter == filter && r.post is None && r.refilter,
            Msg::SetFilter(f) => r.filter == *f && r.post is None && r.refilter,
            Msg::Open(id) => r.filter == filter && !r.refilter && (r.post matches Some(p) && p@
                == "v1/apps/"@ + id@ + "/open"@),
            Msg::Stop(id) => r.filter == filter && !r.refilter && (r.post matches Some(p) && p@
                == "v1/apps/"@ + id@ + "/stop"@),
            Msg::Kill(id) => r.filter == filter && !r.refilter && (r.post matches Some(p) && p@
                == "v1/apps/"@ + id@ + "/kill"@),
        },
{
    match msg {
        Msg::Refresh => Step { filter, post: None, refilter: true },
        Msg::SetFilter(f) => Step { filter: *f, post: None, refilter: true },
        Msg::Open(id) => Step { filter, post: Some(action_path(id.as_str(), AppAction::Open)), refilter: false },
        Msg::Stop(id) => Step { filter, post: Some(action_path(id.as_str(), AppAction::Stop)), refilter: false },
        Msg::Kill(id) => Step { filter, post: Some(action_path(id.as_str(), AppAction::Kill)), refilter: false },
    }
}

/// The list shown once `step` has fetched `fetched`.
pub fn shown_after(step: &Step, fetched: Vec<AppInfo>) -> (r: Vec<AppInfo>)
    ensures
        step.refilter ==> r@ == fetched@.filter(|a: AppInfo| listed_under(step.filter, a.status@)),
        !step.refilter ==> r@ == fetched@,
{
    if step.refilter {
        visible_apps(fetched, step.filter)
    } else {
        fetched
    }
}

} // verus!
