//! The supervisor's registry of apps and the decisions it takes: what to
//! start and in which order, how runtime state moves between stopped,
//! starting, running and stopping, and what to tell clients about it.
//!
//! Processes, timers and files are handled by the caller; this module only
//! decides and keeps state.

use vstd::prelude::*;
use crate::graph::{GraphError, StartOrder, graph_of, derefs, distinct_ids, resolve_start_order_among};
use crate::graph_laws::lemma_start_order_valid;
use crate::health::{HealthMachine, HealthState};
use crate::schema::{AppConfig, CommandSpec, HealthConfig, SchemaError, StartMode, config_problem};
use crate::text::{str_equal, chars_of};

verus! {

#[verifier::external_type_specification]
#[verifier::external_body]
pub struct ExIoError(std::io::Error);

/// Errors reported by the supervisor.
#[derive(Debug)]
pub enum SupervisorError {
    NotFound(String),
    DependencyCycle,
    ModeUnavailable { requested: String, configured: Vec<String> },
    StartTimeout,
    Other(String),
    Graph(GraphError),
    Io(std::io::Error),
}

impl SupervisorError {
    /// HTTP status and error code that the control plane answers with.
    pub open spec fn api_status_spec(&self) -> (u16, Seq<char>) {
        match self {
            SupervisorError::NotFound(_) => (404, "app_not_found"@),
            SupervisorError::DependencyCycle => (400, "dependency_cycle"@),
            SupervisorError::ModeUnavailable { .. } => (400, "mode_unavailable"@),
            SupervisorError::StartTimeout => (504, "start_timeout"@),
            _ => (500, "error"@),
        }
    }

    pub fn api_status(&self) -> (r: (u16, &'static str))
        ensures
            r.0 == self.api_status_spec().0,
            r.1@ == self.api_status_spec().1,
    {
        match self {
            SupervisorError::NotFound(_) => (404, "app_not_found"),
            SupervisorError::DependencyCycle => (400, "dependency_cycle"),
            SupervisorError::ModeUnavailable { .. } => (400, "mode_unavailable"),
            SupervisorError::StartTimeout => (504, "start_timeout"),
            _ => (500, "error"),
        }
    }
}

/// Lifecycle state of an app's process.
#[derive(Debug, Clone, Copy, PartialEq, Eq, Structural)]
pub enum RuntimeStatus {
    Stopped,
    Starting,
    Running,
    Stopping,
}

/// Events pushed to connected clients.
#[derive(Debug, Clone)]
pub enum DaemonEvent {
    Status { app_id: String, status: RuntimeStatus, health: Option<String> },
    Log { app_id: String, line: String },
}

/// Runtime state of one registered app.
#[derive(Debug)]
pub struct AppRuntime {
    pub config: AppConfig,
    pub status: RuntimeStatus,
    pub last_mode: Option<StartMode>,
    pub pid: Option<u32>,
    pub health: HealthState,
    pub log_buffer: Vec<String>,
    pub expose_url: Option<String>,
    pub health_machine: Option<HealthMachine>,
}

/// The state of an app as the contracts see it.
pub struct RuntimeView {
    pub config: AppConfig,
    pub status: RuntimeStatus,
    pub last_mode: Option<StartMode>,
    pub pid: Option<u32>,
    pub health: HealthState,
    pub log: Seq<Seq<char>>,
    pub expose_url: Option<Seq<char>>,
    pub health_machine: Option<HealthMachine>,
}

impl View for AppRuntime {
    type V = RuntimeView;

    open spec fn view(&self) -> RuntimeView {
        RuntimeView {
            config: self.config,
            status: self.status,
            last_mode: self.last_mode,
            pid: self.pid,
            health: self.health,
            log: self.log_buffer@.map_values(|l: String| l@),
            expose_url: match self.expose_url {
                Some(u) => Some(u@),
                None => None,
            },
            health_machine: self.health_machine,
        }
    }
}

/// The runtime state of a freshly registered app.
pub open spec fn fresh_runtime(config: AppConfig, last_mode: Option<StartMode>) -> RuntimeView {
    RuntimeView {
        config,
        status: RuntimeStatus::Stopped,
        last_mode,
        pid: None,
        health: HealthState::Unknown,
        log: Seq::empty(),
        expose_url: None,
        health_machine: None,
    }
}

/// Position of the app with id `id`, if registered.
pub open spec fn position(entries: Seq<RuntimeView>, id: Seq<char>) -> Option<int> {
    if exists|i: int| 0 <= i < entries.len() && (#[trigger] entries[i]).config.id@ == id {
        Some(choose|i: int| 0 <= i < entries.len() && (#[trigger] entries[i]).config.id@ == id)
    } else {
        None
    }
}

/// The runtime state of app `id`, if registered.
pub open spec fn lookup(entries: Seq<RuntimeView>, id: Seq<char>) -> Option<RuntimeView> {
    match position(entries, id) {
        Some(i) => Some(entries[i]),
        None => None,
    }
}

/// Ids of registered apps are pairwise distinct.
pub open spec fn ids_distinct(entries: Seq<RuntimeView>) -> bool {
    forall|i: int, j: int|
        0 <= i < entries.len() && 0 <= j < entries.len() && i != j ==> (#[trigger] entries[i]).config.id@
            != (#[trigger] entries[j]).config.id@
}

/// Registering `config`: an app already known keeps its runtime state and
/// gets the new configuration; a new app is appended, stopped.
pub open spec fn upserted(entries: Seq<RuntimeView>, config: AppConfig) -> Seq<RuntimeView> {
    match position(entries, config.id@) {
        Some(i) => entries.update(i, RuntimeView { config, ..entries[i] }),
        None => entries.push(fresh_runtime(config, None)),
    }
}

/// Loading `config` from the store: its runtime state starts afresh.
pub open spec fn loaded(entries: Seq<RuntimeView>, config: AppConfig, last_mode: Option<StartMode>) -> Seq<
    RuntimeView,
> {
    match position(entries, config.id@) {
        Some(i) => entries.update(i, fresh_runtime(config, last_mode)),
        None => entries.push(fresh_runtime(config, last_mode)),
    }
}

/// Unregistering `id`.
pub open spec fn removed(entries: Seq<RuntimeView>, id: Seq<char>) -> Seq<RuntimeView> {
    match position(entries, id) {
        Some(i) => entries.remove(i),
        None => entries,
    }
}

/// The app's process counts as running.
pub open spec fn is_live(rt: RuntimeView) -> bool {
    (rt.status == RuntimeStatus::Running || rt.status == RuntimeStatus::Starting) && rt.pid is Some
}

/// All registered apps, in registration order.
pub struct Registry {
    pub(crate) apps: Vec<AppRuntime>,
}

impl Registry {
    #[verifier::type_invariant]
    pub(crate) closed spec fn distinct(self) -> bool {
        ids_distinct(self.apps@.map_values(|r: AppRuntime| r@))
    }

    /// The registered apps and their runtime state.
    pub closed spec fn entries(&self) -> Seq<RuntimeView> {
        self.apps@.map_values(|r: AppRuntime| r@)
    }

    /// Each entry is the view of the record at the same position.
    pub(crate) proof fn lemma_entries(&self)
        ensures
            self.entries().len() == self.apps@.len(),
            forall|i: int| 0 <= i < self.apps@.len() ==> self.entries()[i] == #[trigger] self.apps@[i]@,
    {
    }

    /// The ids of the registered apps are pairwise distinct; the laws of
    /// this module take that as given, and a holder of a registry learns it
    /// here.
    pub fn ids_are_distinct(&self)
        ensures
            ids_distinct(self.entries()),
    {
        proof {
            use_type_invariant(self);
        }
    }

    pub fn new() -> (r: Self)
        ensures
            r.entries() == Seq::<RuntimeView>::empty(),
    {
        Registry { apps: Vec::new() }
    }

    /// Position of app `id` in the registry.
    pub(crate) fn find(&self, id: &str) -> (r: Option<usize>)
        ensures
            match r {
                Some(i) => position(self.entries(), id@) == Some(i as int) && (i as int)
                    < self.entries().len(),
                None => position(self.entries(), id@) is None,
            },
    {
        proof {
            use_type_invariant(self);
        }
        let n = self.apps.len();
        let ghost e = self.entries();
        for i in 0..n
            invariant
                n == self.apps@.len(),
                e == self.entries(),
                ids_distinct(e),
                forall|j: int| 0 <= j < i ==> (#[trigger] e[j]).config.id@ != id@,
        {
            if str_equal(self.apps[i].config.id.as_str(), id) {
                proof {
                    assert(e[i as int].config.id@ == id@);
                    let k = choose|k: int| 0 <= k < e.len() && (#[trigger] e[k]).config.id@ == id@;
                    assert(k == i);
                }
                return Some(i);
            }
        }
        None
    }

    /// The configuration of app `id`.
    pub fn get(&self, id: &str) -> (r: Option<&AppConfig>)
        ensures
            match lookup(self.entries(), id@) {
                Some(rt) => r == Some(&rt.config),
                None => r is None,
            },
    {
        match self.find(id) {
            Some(i) => Some(&self.apps[i].config),
            None => None,
        }
    }

    /// All configurations, in registration order.
    pub fn list(&self) -> (r: Vec<&AppConfig>)
        ensures
            r@.len() == self.entries().len(),
            forall|i: int| 0 <= i < r@.len() ==> *r@[i] == self.entries()[i].config,
    {
        let mut out: Vec<&AppConfig> = Vec::new();
        let n = self.apps.len();
        for i in 0..n
            invariant
                n == self.apps@.len(),
                out@.len() == i,
                forall|j: int| 0 <= j < i ==> *out@[j] == self.apps@[j].config,
        {
            out.push(&self.apps[i].config);
        }
        out
    }

    /// Status, health and process id of app `id`.
    pub fn runtime_snapshot(&self, id: &str) -> (r: Option<(RuntimeStatus, HealthState, Option<u32>)>)
        ensures
            match lookup(self.entries(), id@) {
                Some(rt) => r == Some((rt.status, rt.health, rt.pid)),
                None => r is None,
            },
    {
        match self.find(id) {
            Some(i) => Some((self.apps[i].status, self.apps[i].health, self.apps[i].pid)),
            None => None,
        }
    }

    /// Whether app `id` has a live process.
    pub fn is_running(&self, id: &str) -> (r: Result<bool, SupervisorError>)
        ensures
            match lookup(self.entries(), id@) {
                Some(rt) => r matches Ok(b) && b == is_live(rt),
                None => r matches Err(SupervisorError::NotFound(s)) && s@ == id@,
            },
    {
        match self.find(id) {
            Some(i) => {
                let rt = &self.apps[i];
                Ok((matches!(rt.status, RuntimeStatus::Running) || matches!(
                    rt.status,
                    RuntimeStatus::Starting
                )) && rt.pid.is_some())
            },
            None => Err(SupervisorError::NotFound(id.to_owned())),
        }
    }

    /// Process id of app `id`.
    pub fn pid(&self, id: &str) -> (r: Result<Option<u32>, SupervisorError>)
        ensures
            match lookup(self.entries(), id@) {
                Some(rt) => r matches Ok(p) && p == rt.pid,
                None => r matches Err(SupervisorError::NotFound(s)) && s@ == id@,
            },
    {
        match self.find(id) {
            Some(i) => Ok(self.apps[i].pid),
            None => Err(SupervisorError::NotFound(id.to_owned())),
        }
    }
}


/// A freshly registered app's runtime record.
fn fresh_record(config: AppConfig, last_mode: Option<StartMode>) -> (r: AppRuntime)
    ensures
        r@ == fresh_runtime(config, last_mode),
{
    let r = AppRuntime {
        config,
        status: RuntimeStatus::Stopped,
        last_mode,
        pid: None,
        health: HealthState::Unknown,
        log_buffer: Vec::new(),
        expose_url: None,
        health_machine: None,
    };
    assert(r@.log =~= Seq::<Seq<char>>::empty());
    r
}

pub(crate) proof fn lemma_position_of(entries: Seq<RuntimeView>, i: int)
    requires
        ids_distinct(entries),
        0 <= i < entries.len(),
    ensures
        position(entries, entries[i].config.id@) == Some(i),
{
    let id = entries[i].config.id@;
    assert(entries[i].config.id@ == id);
    let k = choose|k: int| 0 <= k < entries.len() && (#[trigger] entries[k]).config.id@ == id;
    assert(k == i);
}

/// Replacing the record at a position by one with the same id keeps ids distinct.
pub(crate) proof fn lemma_distinct_update(entries: Seq<RuntimeView>, i: int, rt: RuntimeView)
    requires
        ids_distinct(entries),
        0 <= i < entries.len(),
        rt.config.id@ == entries[i].config.id@,
    ensures
        ids_distinct(entries.update(i, rt)),
{
    let e2 = entries.update(i, rt);
    assert forall|a: int, b: int| 0 <= a < e2.len() && 0 <= b < e2.len() && a != b implies (
    #[trigger] e2[a]).config.id@ != (#[trigger] e2[b]).config.id@ by {
        assert(e2[a].config.id@ == entries[a].config.id@);
        assert(e2[b].config.id@ == entries[b].config.id@);
    }
}

/// Appending a record with a new id keeps ids distinct.
pub(crate) proof fn lemma_distinct_push(entries: Seq<RuntimeView>, rt: RuntimeView)
    requires
        ids_distinct(entries),
        position(entries, rt.config.id@) is None,
    ensures
        ids_distinct(entries.push(rt)),
{
    let e2 = entries.push(rt);
    assert forall|a: int, b: int| 0 <= a < e2.len() && 0 <= b < e2.len() && a != b implies (
    #[trigger] e2[a]).config.id@ != (#[trigger] e2[b]).config.id@ by {
        if a == entries.len() {
            assert(e2[b] == entries[b]);
        } else if b == entries.len() {
            assert(e2[a] == entries[a]);
        } else {
            assert(e2[a] == entries[a] && e2[b] == entries[b]);
        }
    }
}

/// Removing a record keeps ids distinct.
proof fn lemma_distinct_remove(entries: Seq<RuntimeView>, i: int)
    requires
        ids_distinct(entries),
        0 <= i < entries.len(),
    ensures
        ids_distinct(entries.remove(i)),
{
    let e2 = entries.remove(i);
    assert forall|a: int, b: int| 0 <= a < e2.len() && 0 <= b < e2.len() && a != b implies (
    #[trigger] e2[a]).config.id@ != (#[trigger] e2[b]).config.id@ by {
        let a1 = if a < i { a } else { a + 1 };
        let b1 = if b < i { b } else { b + 1 };
        assert(e2[a] == entries[a1] && e2[b] == entries[b1]);
    }
}

impl Registry {
    /// Registers `config`, or replaces the configuration of the app with its id.
    pub fn upsert(&mut self, config: AppConfig)
        ensures
            final(self).entries() == upserted(old(self).entries(), config),
    {
        proof {
            use_type_invariant(&*self);
        }
        let ghost e = self.entries();
        let pos = self.find(config.id.as_str());
        let mut apps: Vec<AppRuntime> = Vec::new();
        std::mem::swap(&mut apps, &mut self.apps);
        assert(apps@.map_values(|r: AppRuntime| r@) == e);
        match pos {
            Some(i) => {
                let ghost old_apps = apps@;
                apps[i].config = config;
                proof {
                    let nv = RuntimeView { config, ..e[i as int] };
                    assert(apps@ == old_apps.update(i as int, apps@[i as int]));
                    assert(apps@.map_values(|r: AppRuntime| r@) =~= e.update(i as int, nv));
                    lemma_position_of(e, i as int);
                    lemma_distinct_update(e, i as int, nv);
                }
            },
            None => {
                let rt = fresh_record(config, None);
                apps.push(rt);
                proof {
                    assert(apps@.map_values(|r: AppRuntime| r@) =~= e.push(
                        fresh_runtime(config, None),
                    ));
                    lemma_distinct_push(e, fresh_runtime(config, None));
                }
            },
        }
        self.apps = apps;
    }

    /// Registers `config` as loaded from the store, with a fresh runtime state.
    pub fn load(&mut self, config: AppConfig, last_mode: Option<StartMode>)
        ensures
            final(self).entries() == loaded(old(self).entries(), config, last_mode),
    {
        proof {
            use_type_invariant(&*self);
        }
        let ghost e = self.entries();
        let pos = self.find(config.id.as_str());
        let mut apps: Vec<AppRuntime> = Vec::new();
        std::mem::swap(&mut apps, &mut self.apps);
        assert(apps@.map_values(|r: AppRuntime| r@) == e);
        let ghost cid = config.id@;
        let rt = fresh_record(config, last_mode);
        match pos {
            Some(i) => {
                apps.set(i, rt);
                proof {
                    assert(apps@.map_values(|r: AppRuntime| r@) =~= e.update(
                        i as int,
                        fresh_runtime(config, last_mode),
                    ));
                    lemma_position_of(e, i as int);
                    lemma_distinct_update(e, i as int, fresh_runtime(config, last_mode));
                }
            },
            None => {
                apps.push(rt);
                proof {
                    assert(apps@.map_values(|r: AppRuntime| r@) =~= e.push(
                        fresh_runtime(config, last_mode),
                    ));
                    lemma_distinct_push(e, fresh_runtime(config, last_mode));
                }
            },
        }
        self.apps = apps;
    }

    /// Unregisters app `id`; nothing changes when it is unknown.
    pub fn remove(&mut self, id: &str)
        ensures
            final(self).entries() == removed(old(self).entries(), id@),
    {
        proof {
            use_type_invariant(&*self);
        }
        let ghost e = self.entries();
        let pos = self.find(id);
        match pos {
            Some(i) => {
                let mut apps: Vec<AppRuntime> = Vec::new();
                std::mem::swap(&mut apps, &mut self.apps);
                assert(apps@.map_values(|r: AppRuntime| r@) == e);
                let ghost before = apps@;
                apps.remove(i);
                proof {
                    assert(apps@.map_values(|r: AppRuntime| r@) =~= e.remove(i as int));
                    lemma_distinct_remove(e, i as int);
                }
                self.apps = apps;
            },
            None => {},
        }
    }
}

/// Law (read after write): after registering `config`, looking up its id
/// gives that configuration, and every other app is unchanged.
pub proof fn lemma_get_after_upsert(entries: Seq<RuntimeView>, config: AppConfig, other: Seq<char>)
    requires
        ids_distinct(entries),
    ensures
        ids_distinct(upserted(entries, config)),
        lookup(upserted(entries, config), config.id@) matches Some(rt) && rt.config == config,
        other != config.id@ ==> lookup(upserted(entries, config), other) == lookup(entries, other),
        lookup(entries, config.id@) matches Some(rt0) ==> (lookup(upserted(entries, config), config.id@)
            == Some(RuntimeView { config, ..rt0 })),
{
    let e2 = upserted(entries, config);
    match position(entries, config.id@) {
        Some(i) => {
            let nv = RuntimeView { config, ..entries[i] };
            lemma_distinct_update(entries, i, nv);
            lemma_position_of(e2, i);
            if other != config.id@ {
                lemma_lookup_other_update(entries, i, nv, other);
            }
        },
        None => {
            lemma_distinct_push(entries, fresh_runtime(config, None));
            lemma_position_of(e2, entries.len() as int);
            if other != config.id@ {
                lemma_lookup_other_push(entries, fresh_runtime(config, None), other);
            }
        },
    }
}

/// Law (loading from the store): an app loaded at start-up is found with
/// its configuration, its last start mode and a stopped runtime (no process,
/// health unknown, not exposed); every other app is unchanged.
pub proof fn lemma_get_after_load(
    entries: Seq<RuntimeView>,
    config: AppConfig,
    last_mode: Option<StartMode>,
    other: Seq<char>,
)
    requires
        ids_distinct(entries),
    ensures
        ids_distinct(loaded(entries, config, last_mode)),
        lookup(loaded(entries, config, last_mode), config.id@) == Some(fresh_runtime(config, last_mode)),
        other != config.id@ ==> lookup(loaded(entries, config, last_mode), other) == lookup(entries, other),
{
    let e2 = loaded(entries, config, last_mode);
    let nv = fresh_runtime(config, last_mode);
    match position(entries, config.id@) {
        Some(i) => {
            lemma_distinct_update(entries, i, nv);
            lemma_position_of(e2, i);
            if other != config.id@ {
                lemma_lookup_other_update(entries, i, nv, other);
            }
        },
        None => {
            lemma_distinct_push(entries, nv);
            lemma_position_of(e2, entries.len() as int);
            if other != config.id@ {
                lemma_lookup_other_push(entries, nv, other);
            }
        },
    }
}

proof fn lemma_lookup_other_update(entries: Seq<RuntimeView>, i: int, rt: RuntimeView, other: Seq<char>)
    requires
        ids_distinct(entries),
        0 <= i < entries.len(),
        rt.config.id@ == entries[i].config.id@,
        other != rt.config.id@,
    ensures
        lookup(entries.update(i, rt), other) == lookup(entries, other),
{
    let e2 = entries.update(i, rt);
    lemma_distinct_update(entries, i, rt);
    match position(entries, other) {
        Some(j) => {
            assert(entries[j].config.id@ == other);
            assert(j != i);
            assert(e2[j] == entries[j]);
            lemma_position_of(e2, j);
            lemma_position_of(entries, j);
        },
        None => {
            if exists|k: int| 0 <= k < e2.len() && (#[trigger] e2[k]).config.id@ == other {
                let k = choose|k: int| 0 <= k < e2.len() && (#[trigger] e2[k]).config.id@ == other;
                assert(k != i);
                assert(entries[k].config.id@ == other);
            }
        },
    }
}

proof fn lemma_lookup_other_push(entries: Seq<RuntimeView>, rt: RuntimeView, other: Seq<char>)
    requires
        ids_distinct(entries),
        position(entries, rt.config.id@) is None,
        other != rt.config.id@,
    ensures
        lookup(entries.push(rt), other) == lookup(entries, other),
{
    let e2 = entries.push(rt);
    lemma_distinct_push(entries, rt);
    match position(entries, other) {
        Some(j) => {
            assert(entries[j].config.id@ == other);
            assert(e2[j] == entries[j]);
            lemma_position_of(e2, j);
            lemma_position_of(entries, j);
        },
        None => {
            if exists|k: int| 0 <= k < e2.len() && (#[trigger] e2[k]).config.id@ == other {
                let k = choose|k: int| 0 <= k < e2.len() && (#[trigger] e2[k]).config.id@ == other;
                assert(k != entries.len());
                assert(entries[k].config.id@ == other);
            }
        },
    }
}

/// Law (removal): after unregistering `id`, it is no longer found, and every
/// other app is unchanged.
pub proof fn lemma_get_after_remove(entries: Seq<RuntimeView>, id: Seq<char>, other: Seq<char>)
    requires
        ids_distinct(entries),
    ensures
        ids_distinct(removed(entries, id)),
        lookup(removed(entries, id), id) is None,
        other != id ==> lookup(removed(entries, id), other) == lookup(entries, other),
{
    match position(entries, id) {
        Some(i) => {
            let e2 = entries.remove(i);
            lemma_distinct_remove(entries, i);
            assert(entries[i].config.id@ == id);
            if exists|k: int| 0 <= k < e2.len() && (#[trigger] e2[k]).config.id@ == id {
                let k = choose|k: int| 0 <= k < e2.len() && (#[trigger] e2[k]).config.id@ == id;
                let k1 = if k < i { k } else { k + 1 };
                assert(e2[k] == entries[k1]);
            }
            if other != id {
                match position(entries, other) {
                    Some(j) => {
                        assert(entries[j].config.id@ == other);
                        assert(j != i);
                        let j2 = if j < i { j } else { j - 1 };
                        assert(e2[j2] == entries[j]);
                        lemma_position_of(e2, j2);
                        lemma_position_of(entries, j);
                    },
                    None => {
                        if exists|k: int| 0 <= k < e2.len() && (#[trigger] e2[k]).config.id@ == other {
                            let k = choose|k: int| 0 <= k < e2.len() && (#[trigger] e2[k]).config.id@ == other;
                            let k1 = if k < i { k } else { k + 1 };
                            assert(e2[k] == entries[k1]);
                        }
                    },
                }
            }
        },
        None => {},
    }
}


/// `e` is the status event for app `id`.
pub open spec fn is_status_event(e: DaemonEvent, id: Seq<char>, status: RuntimeStatus, health: HealthState) -> bool {
    match e {
        DaemonEvent::Status { app_id, status: s, health: h } => app_id@ == id && s == status && (
        match h {
            Some(label) => label@ == health.label_spec(),
            None => false,
        }),
        DaemonEvent::Log { .. } => false,
    }
}

/// The status event clients receive.
pub fn status_event(id: &str, status: RuntimeStatus, health: HealthState) -> (e: DaemonEvent)
    ensures
        is_status_event(e, id@, status, health),
{
    DaemonEvent::Status { app_id: id.to_owned(), status, health: Some(health.label().to_owned()) }
}

/// The record of app `id` transformed by `f`; the others unchanged.
pub open spec fn updated_at(
    entries: Seq<RuntimeView>,
    id: Seq<char>,
    f: spec_fn(RuntimeView) -> RuntimeView,
) -> Seq<RuntimeView> {
    match position(entries, id) {
        Some(i) => entries.update(i, f(entries[i])),
        None => entries,
    }
}

/// Runtime state once the app's process `pid` runs in `mode`: apps without a
/// health check count as healthy, the others start a fresh health machine.
pub open spec fn started_runtime(rt: RuntimeView, pid: u32, mode: StartMode) -> RuntimeView {
    RuntimeView {
        pid: Some(pid),
        status: RuntimeStatus::Running,
        last_mode: Some(mode),
        health: if rt.config.health is Some {
            HealthState::Unknown
        } else {
            HealthState::Healthy
        },
        health_machine: match rt.config.health {
            Some(h) => Some(HealthMachine::initial(h.healthy_threshold, h.unhealthy_threshold)),
            None => None,
        },
        ..rt
    }
}

/// Runtime state once the app's process is gone.
pub open spec fn stopped_runtime(rt: RuntimeView) -> RuntimeView {
    RuntimeView {
        pid: None,
        status: RuntimeStatus::Stopped,
        health: HealthState::Unknown,
        health_machine: None,
        ..rt
    }
}

/// Runtime state with a new lifecycle status.
pub open spec fn with_status(rt: RuntimeView, status: RuntimeStatus) -> RuntimeView {
    RuntimeView { status, ..rt }
}

/// Runtime state after one health probe.
pub open spec fn probed_runtime(rt: RuntimeView, ok: bool) -> RuntimeView {
    match rt.health_machine {
        Some(m) => RuntimeView {
            health_machine: Some(m.step(ok)),
            health: m.step(ok).current(),
            ..rt
        },
        None => rt,
    }
}

/// The event a state change produces for a registered app, none otherwise.
pub open spec fn event_for(
    entries: Seq<RuntimeView>,
    id: Seq<char>,
    r: Option<DaemonEvent>,
    status: RuntimeStatus,
    health: HealthState,
) -> bool {
    match position(entries, id) {
        Some(i) => r matches Some(e) && is_status_event(e, id, status, health),
        None => r is None,
    }
}

impl Registry {
    /// Swaps the records out, leaving the registry empty.
    fn take_apps(&mut self) -> (apps: Vec<AppRuntime>)
        ensures
            apps@.map_values(|r: AppRuntime| r@) == old(self).entries(),
            ids_distinct(old(self).entries()),
            final(self).entries() == Seq::<RuntimeView>::empty(),
    {
        proof {
            use_type_invariant(&*self);
        }
        let mut apps: Vec<AppRuntime> = Vec::new();
        std::mem::swap(&mut apps, &mut self.apps);
        assert(self.apps@.map_values(|r: AppRuntime| r@) =~= Seq::<RuntimeView>::empty());
        apps
    }

    /// Puts records back.
    fn put_apps(&mut self, apps: Vec<AppRuntime>)
        requires
            ids_distinct(apps@.map_values(|r: AppRuntime| r@)),
        ensures
            final(self).entries() == apps@.map_values(|r: AppRuntime| r@),
    {
        self.apps = apps;
    }

    /// Marks app `id` as starting.
    pub fn mark_starting(&mut self, id: &str) -> (r: Option<DaemonEvent>)
        ensures
            final(self).entries() == updated_at(
                old(self).entries(),
                id@,
                |rt: RuntimeView| with_status(rt, RuntimeStatus::Starting),
            ),
            event_for(
                old(self).entries(),
                id@,
                r,
                RuntimeStatus::Starting,
                match lookup(old(self).entries(), id@) {
                    Some(rt) => rt.health,
                    None => HealthState::Unknown,
                },
            ),
    {
        self.set_status(id, RuntimeStatus::Starting)
    }

    /// Marks app `id` as stopping.
    pub fn mark_stopping(&mut self, id: &str) -> (r: Option<DaemonEvent>)
        ensures
            final(self).entries() == updated_at(
                old(self).entries(),
                id@,
                |rt: RuntimeView| with_status(rt, RuntimeStatus::Stopping),
            ),
            event_for(
                old(self).entries(),
                id@,
                r,
                RuntimeStatus::Stopping,
                match lookup(old(self).entries(), id@) {
                    Some(rt) => rt.health,
                    None => HealthState::Unknown,
                },
            ),
    {
        self.set_status(id, RuntimeStatus::Stopping)
    }

    fn set_status(&mut self, id: &str, status: RuntimeStatus) -> (r: Option<DaemonEvent>)
        ensures
            final(self).entries() == updated_at(
                old(self).entries(),
                id@,
                |rt: RuntimeView| with_status(rt, status),
            ),
            event_for(
                old(self).entries(),
                id@,
                r,
                status,
                match lookup(old(self).entries(), id@) {
                    Some(rt) => rt.health,
                    None => HealthState::Unknown,
                },
            ),
    {
        let ghost e = self.entries();
        match self.find(id) {
            None => None,
            Some(i) => {
                let mut apps = self.take_apps();
                apps[i].status = status;
                let health = apps[i].health;
                proof {
                    assert(apps@.map_values(|r: AppRuntime| r@) =~= e.update(
                        i as int,
                        with_status(e[i as int], status),
                    ));
                    lemma_distinct_update(e, i as int, with_status(e[i as int], status));
                }
                self.put_apps(apps);
                Some(status_event(id, status, health))
            },
        }
    }

    /// Records that app `id` runs as process `pid` in `mode`.
    pub fn mark_running(&mut self, id: &str, pid: u32, mode: StartMode) -> (r: Option<DaemonEvent>)
        ensures
            final(self).entries() == updated_at(
                old(self).entries(),
                id@,
                |rt: RuntimeView| started_runtime(rt, pid, mode),
            ),
            event_for(
                old(self).entries(),
                id@,
                r,
                RuntimeStatus::Running,
                match lookup(old(self).entries(), id@) {
                    Some(rt) => started_runtime(rt, pid, mode).health,
                    None => HealthState::Unknown,
                },
            ),
    {
        let ghost e = self.entries();
        match self.find(id) {
            None => None,
            Some(i) => {
                let mut apps = self.take_apps();
                let (health, machine) = match &apps[i].config.health {
                    Some(h) => (
                        HealthState::Unknown,
                        Some(HealthMachine::new(h.healthy_threshold, h.unhealthy_threshold)),
                    ),
                    None => (HealthState::Healthy, None),
                };
                apps[i].pid = Some(pid);
                apps[i].status = RuntimeStatus::Running;
                apps[i].last_mode = Some(mode);
                apps[i].health = health;
                apps[i].health_machine = machine;
                proof {
                    let nv = started_runtime(e[i as int], pid, mode);
                    assert(apps@[i as int]@ == nv);
                    assert(apps@.map_values(|r: AppRuntime| r@) =~= e.update(i as int, nv));
                    lemma_distinct_update(e, i as int, nv);
                }
                self.put_apps(apps);
                Some(status_event(id, RuntimeStatus::Running, health))
            },
        }
    }

    /// Records that app `id`'s process is gone.
    pub fn finalize_stopped(&mut self, id: &str) -> (r: Option<DaemonEvent>)
        ensures
            final(self).entries() == updated_at(
                old(self).entries(),
                id@,
                |rt: RuntimeView| stopped_runtime(rt),
            ),
            event_for(old(self).entries(), id@, r, RuntimeStatus::Stopped, HealthState::Unknown),
    {
        let ghost e = self.entries();
        match self.find(id) {
            None => None,
            Some(i) => {
                let mut apps = self.take_apps();
                apps[i].pid = None;
                apps[i].status = RuntimeStatus::Stopped;
                apps[i].health = HealthState::Unknown;
                apps[i].health_machine = None;
                proof {
                    let nv = stopped_runtime(e[i as int]);
                    assert(apps@[i as int]@ == nv);
                    assert(apps@.map_values(|r: AppRuntime| r@) =~= e.update(i as int, nv));
                    lemma_distinct_update(e, i as int, nv);
                }
                self.put_apps(apps);
                Some(status_event(id, RuntimeStatus::Stopped, HealthState::Unknown))
            },
        }
    }

    /// Feeds one probe result to app `id`'s health machine; returns the event
    /// to send when its health changed.
    pub fn apply_probe(&mut self, id: &str, ok: bool) -> (r: Option<DaemonEvent>)
        ensures
            final(self).entries() == updated_at(
                old(self).entries(),
                id@,
                |rt: RuntimeView| probed_runtime(rt, ok),
            ),
            match lookup(old(self).entries(), id@) {
                Some(rt) => match rt.health_machine {
                    Some(m) => if m.current() != m.step(ok).current() {
                        r matches Some(ev) && is_status_event(ev, id@, rt.status, m.step(ok).current())
                    } else {
                        r is None
                    },
                    None => r is None,
                },
                None => r is None,
            },
    {
        let ghost e = self.entries();
        match self.find(id) {
            None => None,
            Some(i) => {
                match self.apps[i].health_machine {
                    None => {
                        proof {
                            assert(probed_runtime(e[i as int], ok) == e[i as int]);
                            assert(e.update(i as int, e[i as int]) =~= e);
                        }
                        None
                    },
                    Some(m0) => {
                        let mut m = m0;
                        let prev = m.state();
                        let next = m.observe(ok);
                        let status = self.apps[i].status;
                        let mut apps = self.take_apps();
                        apps[i].health_machine = Some(m);
                        apps[i].health = next;
                        proof {
                            let nv = probed_runtime(e[i as int], ok);
                            assert(apps@[i as int]@ == nv);
                            assert(apps@.map_values(|r: AppRuntime| r@) =~= e.update(i as int, nv));
                            lemma_distinct_update(e, i as int, nv);
                        }
                        self.put_apps(apps);
                        if prev != next {
                            Some(status_event(id, status, next))
                        } else {
                            None
                        }
                    },
                }
            },
        }
    }

    /// Sets the public URL under which app `id` is exposed.
    pub fn set_expose_url(&mut self, id: &str, url: Option<String>)
        ensures
            final(self).entries() == updated_at(
                old(self).entries(),
                id@,
                |rt: RuntimeView|
                    RuntimeView {
                        expose_url: match url {
                            Some(u) => Some(u@),
                            None => None,
                        },
                        ..rt
                    },
            ),
    {
        let ghost e = self.entries();
        let ghost uv = match &url {
            Some(u) => Some(u@),
            None => None::<Seq<char>>,
        };
        match self.find(id) {
            None => {},
            Some(i) => {
                let mut apps = self.take_apps();
                apps[i].expose_url = url;
                proof {
                    let nv = RuntimeView { expose_url: uv, ..e[i as int] };
                    assert(apps@[i as int]@ == nv);
                    assert(apps@.map_values(|r: AppRuntime| r@) =~= e.update(i as int, nv));
                    lemma_distinct_update(e, i as int, nv);
                }
                self.put_apps(apps);
            },
        }
    }

    /// The public URL of app `id`, if exposed.
    pub fn expose_url(&self, id: &str) -> (r: Option<String>)
        ensures
            match lookup(self.entries(), id@) {
                Some(rt) => match rt.expose_url {
                    Some(u) => r matches Some(s) && s@ == u,
                    None => r is None,
                },
                None => r is None,
            },
    {
        match self.find(id) {
            None => None,
            Some(i) => match &self.apps[i].expose_url {
                Some(u) => Some(u.clone()),
                None => None,
            },
        }
    }

    /// The last `tail` log lines of app `id`.
    pub fn logs(&self, id: &str, tail: usize) -> (r: Result<Vec<String>, SupervisorError>)
        ensures
            match lookup(self.entries(), id@) {
                Some(rt) => r matches Ok(v) && v@.map_values(|l: String| l@) == rt.log.subrange(
                    if tail >= rt.log.len() {
                        0
                    } else {
                        rt.log.len() - tail
                    },
                    rt.log.len() as int,
                ),
                None => r matches Err(SupervisorError::NotFound(s)) && s@ == id@,
            },
    {
        let ghost e = self.entries();
        match self.find(id) {
            None => Err(SupervisorError::NotFound(id.to_owned())),
            Some(i) => {
                let buf = &self.apps[i].log_buffer;
                let len = buf.len();
                let start = if tail >= len {
                    0
                } else {
                    len - tail
                };
                let mut out: Vec<String> = Vec::new();
                let mut j = start;
                while j < len
                    invariant
                        len == buf@.len(),
                        start <= j <= len,
                        out@.len() == j - start,
                        forall|q: int| 0 <= q < out@.len() ==> out@[q] == buf@[start + q],
                    decreases len - j,
                {
                    out.push(buf[j].clone());
                    j = j + 1;
                }
                proof {
                    assert(e[i as int].log == buf@.map_values(|l: String| l@));
                    assert(out@.map_values(|l: String| l@) =~= e[i as int].log.subrange(
                        start as int,
                        len as int,
                    ));
                }
                Ok(out)
            },
        }
    }

    /// The start mode used when restarting app `id`: the last one, else development.
    pub fn restart_mode(&self, id: &str) -> (r: Result<StartMode, SupervisorError>)
        ensures
            match lookup(self.entries(), id@) {
                Some(rt) => r == Ok::<StartMode, SupervisorError>(match rt.last_mode {
                    Some(m) => m,
                    None => StartMode::Development,
                }),
                None => r matches Err(SupervisorError::NotFound(s)) && s@ == id@,
            },
    {
        match self.find(id) {
            None => Err(SupervisorError::NotFound(id.to_owned())),
            Some(i) => match self.apps[i].last_mode {
                Some(m) => Ok(m),
                None => Ok(StartMode::Development),
            },
        }
    }

    /// The health check of app `id`, if it has one.
    pub fn health_config(&self, id: &str) -> (r: Option<&HealthConfig>)
        ensures
            match lookup(self.entries(), id@) {
                Some(rt) => match rt.config.health {
                    Some(h) => r == Some(&h),
                    None => r is None,
                },
                None => r is None,
            },
    {
        match self.find(id) {
            None => None,
            Some(i) => self.apps[i].config.health.as_ref(),
        }
    }

    /// Current health of app `id` (unknown when not registered).
    pub fn health_of(&self, id: &str) -> (r: HealthState)
        ensures
            r == match lookup(self.entries(), id@) {
                Some(rt) => rt.health,
                None => HealthState::Unknown,
            },
    {
        match self.find(id) {
            None => HealthState::Unknown,
            Some(i) => self.apps[i].health,
        }
    }

    /// Apps to probe: running ones that have a health check, in registration order.
    pub fn health_poll_targets(&self) -> (r: Vec<String>)
        ensures
            r@.map_values(|s: String| s@) == self.entries().filter(
                |rt: RuntimeView| rt.status == RuntimeStatus::Running && rt.config.health is Some,
            ).map_values(|rt: RuntimeView| rt.config.id@),
    {
        let ghost e = self.entries();
        let ghost pred = |rt: RuntimeView| rt.status == RuntimeStatus::Running && rt.config.health is Some;
        let mut out: Vec<String> = Vec::new();
        let n = self.apps.len();
        for i in 0..n
            invariant
                n == self.apps@.len(),
                e == self.entries(),
                pred == (|rt: RuntimeView| rt.status == RuntimeStatus::Running && rt.config.health is Some),
                out@.map_values(|s: String| s@) == e.take(i as int).filter(pred).map_values(
                    |rt: RuntimeView| rt.config.id@,
                ),
        {
            proof {
                assert(e.take(i + 1).drop_last() =~= e.take(i as int));
                reveal(Seq::filter);
                assert(e[i as int] == self.apps@[i as int]@);
            }
            if matches!(self.apps[i].status, RuntimeStatus::Running) && self.apps[i].config.health.is_some() {
                let ghost before = out@;
                let idc = self.apps[i].config.id.clone();
                assert(idc@ == e[i as int].config.id@);
                out.push(idc);
                proof {
                    assert(out@ == before.push(idc));
                    assert(out@.map_values(|s: String| s@) =~= before.map_values(|s: String| s@).push(idc@));
                    assert(pred(e[i as int]));
                    reveal(Seq::filter);
                    assert(e.take(i + 1).last() == e[i as int]);
                    assert(e.take(i + 1).filter(pred) == e.take(i as int).filter(pred).push(e[i as int]));
                    assert(e.take(i as int).filter(pred).push(e[i as int]).map_values(|rt: RuntimeView| rt.config.id@)
                        =~= e.take(i as int).filter(pred).map_values(|rt: RuntimeView| rt.config.id@).push(e[i as int].config.id@));
                }
                assert(out@.map_values(|s: String| s@) =~= e.take(i + 1).filter(pred).map_values(
                    |rt: RuntimeView| rt.config.id@,
                ));
            } else {
                proof {
                    assert(!pred(e[i as int]));
                    reveal(Seq::filter);
                    assert(e.take(i + 1).last() == e[i as int]);
                    assert(e.take(i + 1).filter(pred) == e.take(i as int).filter(pred));
                }
                assert(out@.map_values(|s: String| s@) =~= e.take(i + 1).filter(pred).map_values(
                    |rt: RuntimeView| rt.config.id@,
                ));
            }
        }
        assert(e.take(n as int) =~= e);
        out
    }
}


/// One app to start, as part of starting an app and its dependencies.
#[derive(Debug)]
pub struct StartStep {
    pub id: String,
    pub mode: StartMode,
    pub force_install: bool,
}

/// The configurations of the registered apps.
pub open spec fn configs(entries: Seq<RuntimeView>) -> Seq<AppConfig> {
    entries.map_values(|rt: RuntimeView| rt.config)
}

/// The app is already running or being started.
pub open spec fn is_active(rt: RuntimeView) -> bool {
    rt.status == RuntimeStatus::Running || rt.status == RuntimeStatus::Starting
}

/// Starting `root` in `mode`: walk its start order; skip apps already active,
/// stop at the root when it is already active; start the root in `mode`
/// (installing first when `force` asks for it) and the others in the mode they
/// last ran in, development by default.
pub open spec fn start_steps(
    entries: Seq<RuntimeView>,
    names: Seq<Seq<char>>,
    root: Seq<char>,
    mode: StartMode,
    force: bool,
) -> Seq<(Seq<char>, StartMode, bool)>
    decreases names.len(),
{
    if names.len() == 0 {
        Seq::empty()
    } else {
        let name = names[0];
        let rest = start_steps(entries, names.drop_first(), root, mode, force);
        match lookup(entries, name) {
            Some(rt) => if is_active(rt) {
                if name == root {
                    Seq::empty()
                } else {
                    rest
                }
            } else {
                seq![
                    (
                        name,
                        if name == root {
                            mode
                        } else {
                            match rt.last_mode {
                                Some(m) => m,
                                None => StartMode::Development,
                            }
                        },
                        force && name == root,
                    ),
                ] + rest
            },
            None => rest,
        }
    }
}

pub open spec fn steps_view(steps: Seq<StartStep>) -> Seq<(Seq<char>, StartMode, bool)> {
    steps.map_values(|s: StartStep| (s.id@, s.mode, s.force_install))
}

/// App `name` is registered and already running or starting.
pub open spec fn already_active(entries: Seq<RuntimeView>, name: Seq<char>) -> bool {
    lookup(entries, name) matches Some(rt) && is_active(rt)
}

/// Law (starting what already runs does nothing): when every app in the
/// start order is registered and already running or starting, starting the
/// root plans no step, so nothing is spawned.
pub proof fn lemma_all_active_no_steps(
    entries: Seq<RuntimeView>,
    names: Seq<Seq<char>>,
    root: Seq<char>,
    mode: StartMode,
    force: bool,
)
    requires
        forall|i: int| 0 <= i < names.len() ==> #[trigger] already_active(entries, names[i]),
    ensures
        start_steps(entries, names, root, mode, force) == Seq::<(Seq<char>, StartMode, bool)>::empty(),
    decreases names.len(),
{
    if names.len() > 0 {
        assert(already_active(entries, names[0]));
        let rest = names.drop_first();
        assert forall|i: int| 0 <= i < rest.len() implies #[trigger] already_active(entries, rest[i]) by {
            assert(rest[i] == names[i + 1]);
        }
        lemma_all_active_no_steps(entries, rest, root, mode, force);
    }
}

/// No steps in view means no steps.
pub proof fn lemma_no_steps_view(steps: Seq<StartStep>)
    ensures
        steps_view(steps) == Seq::<(Seq<char>, StartMode, bool)>::empty() ==> steps.len() == 0,
{
    if steps_view(steps) == Seq::<(Seq<char>, StartMode, bool)>::empty() {
        assert(steps_view(steps).len() == steps.len());
    }
}

/// Whether `config` can start in `mode`.
pub open spec fn mode_available(config: AppConfig, mode: StartMode) -> bool {
    mode == StartMode::Development || config.commands.start.production is Some
}

proof fn lemma_configs_distinct(entries: Seq<RuntimeView>)
    requires
        ids_distinct(entries),
    ensures
        distinct_ids(configs(entries)),
{
    let c = configs(entries);
    assert forall|i: int, j: int|
        0 <= i < c.len() && 0 <= j < c.len() && i != j implies #[trigger] c[i].id@ != #[trigger] c[j].id@ by {
        assert(c[i] == entries[i].config && c[j] == entries[j].config);
    }
}

proof fn lemma_registered_name(entries: Seq<RuntimeView>, name: Seq<char>)
    requires
        graph_of(configs(entries)).has(name),
    ensures
        position(entries, name) is Some,
{
    let g = graph_of(configs(entries));
    let i = choose|i: int| 0 <= i < g.ids.len() && g.ids[i] == name;
    assert(g.ids[i] == configs(entries)[i].id@);
    assert(entries[i].config.id@ == name);
}

impl Registry {
    /// The apps to start, in order, to start `id` in `mode`.
    pub fn plan_start(&self, id: &str, mode: StartMode, force_install: bool) -> (r: Result<
        Vec<StartStep>,
        SupervisorError,
    >)
        ensures
            match graph_of(configs(self.entries())).start_order(id@) {
                StartOrder::Order(names) => r matches Ok(v) && steps_view(v@) == start_steps(
                    self.entries(),
                    names,
                    id@,
                    mode,
                    force_install,
                ),
                StartOrder::Cycle => r matches Err(SupervisorError::DependencyCycle),
                StartOrder::Missing(x) => r matches Err(
                    SupervisorError::Graph(GraphError::MissingDependency(m)),
                ) && m@ == x,
            },
    {
        proof {
            use_type_invariant(self);
        }
        let ghost e = self.entries();
        let refs = self.list();
        proof {
            assert(derefs(refs@) =~= configs(e));
            lemma_configs_distinct(e);
        }
        let names = match resolve_start_order_among(id, &refs) {
            Ok(v) => v,
            Err(GraphError::DependencyCycle) => {
                return Err(SupervisorError::DependencyCycle);
            },
            Err(err) => {
                return Err(SupervisorError::Graph(err));
            },
        };
        let ghost g = graph_of(configs(e));
        let ghost nv = names@.map_values(|s: String| s@);
        proof {
            assert(configs(e).len() == self.apps@.len());
            crate::graph::lemma_graph_wf(configs(e));
            lemma_start_order_valid(g, id@);
        }
        let mut steps: Vec<StartStep> = Vec::new();
        let n = names.len();
        let mut k: usize = 0;
        proof {
            assert(g.start_order(id@) == StartOrder::Order(nv));
            assert(nv.skip(0) =~= nv);
            assert(steps_view(steps@) + start_steps(e, nv, id@, mode, force_install) =~= start_steps(
                e,
                nv,
                id@,
                mode,
                force_install,
            ));
        }
        while k < n
            invariant
                n == names@.len(),
                k <= n,
                e == self.entries(),
                nv == names@.map_values(|s: String| s@),
                forall|x: Seq<char>| #[trigger] nv.contains(x) ==> g.needed_by(id@, x),
                g == graph_of(configs(e)),
                g.start_order(id@) == StartOrder::Order(nv),
                steps_view(steps@) + start_steps(e, nv.skip(k as int), id@, mode, force_install)
                    == start_steps(e, nv, id@, mode, force_install),
            decreases n - k,
        {
            let ghost rest = nv.skip(k as int);
            assert(rest[0] == nv[k as int]);
            assert(rest.drop_first() =~= nv.skip(k + 1));
            let name = &names[k];
            assert(nv.contains(name@)) by {
                assert(nv[k as int] == name@);
            }
            proof {
                lemma_registered_name(e, name@);
            }
            let i = match self.find(name.as_str()) {
                Some(i) => i,
                None => {
                    return Err(SupervisorError::NotFound(name.clone()));
                },
            };
            let rt = &self.apps[i];
            proof {
                assert(e[i as int] == self.apps@[i as int]@);
                assert(lookup(e, name@) == Some(e[i as int]));
                assert(rest.len() > 0);
            }
            let is_root = str_equal(name.as_str(), id);
            let active = matches!(rt.status, RuntimeStatus::Running) || matches!(
                rt.status,
                RuntimeStatus::Starting
            );
            if active {
                if is_root {
                    proof {
                        assert(rest[0] == id@);
                        assert(is_active(e[i as int]));
                        assert(start_steps(e, rest, id@, mode, force_install) =~= Seq::empty());
                        assert(steps_view(steps@) + Seq::empty() =~= steps_view(steps@));
                    }
                    return Ok(steps);
                }
            } else {
                let step_mode = if is_root {
                    mode
                } else {
                    match rt.last_mode {
                        Some(m) => m,
                        None => StartMode::Development,
                    }
                };
                let ghost before = steps@;
                steps.push(StartStep { id: name.clone(), mode: step_mode, force_install: force_install && is_root });
                proof {
                    assert(steps_view(steps@) =~= steps_view(before).push(
                        (name@, step_mode, force_install && is_root),
                    ));
                    assert(steps_view(steps@) + start_steps(e, nv.skip(k + 1), id@, mode, force_install)
                        =~= steps_view(before) + start_steps(e, nv.skip(k as int), id@, mode, force_install));
                }
            }
            k = k + 1;
        }
        assert(nv.skip(n as int) =~= Seq::<Seq<char>>::empty());
        assert(steps_view(steps@) + Seq::empty() =~= steps_view(steps@));
        Ok(steps)
    }

    /// Checks that app `id` exists and can start in `mode`; returns its configuration.
    pub fn prepare_start(&self, id: &str, mode: StartMode) -> (r: Result<&AppConfig, SupervisorError>)
        ensures
            match lookup(self.entries(), id@) {
                None => r matches Err(SupervisorError::NotFound(s)) && s@ == id@,
                Some(rt) => if mode_available(rt.config, mode) {
                    r matches Ok(c) && *c == rt.config
                } else {
                    r matches Err(SupervisorError::ModeUnavailable { requested, configured })
                        && requested@ == mode.name_spec() && configured@.map_values(
                        |m: String| m@,
                    ) == seq!["development"@]
                },
            },
    {
        match self.find(id) {
            None => Err(SupervisorError::NotFound(id.to_owned())),
            Some(i) => {
                let config = &self.apps[i].config;
                match config.start_spec(mode) {
                    Some(_) => Ok(config),
                    None => {
                        let modes = config.configured_modes();
                        let mut configured: Vec<String> = Vec::new();
                        let m = modes.len();
                        for j in 0..m
                            invariant
                                m == modes@.len(),
                                configured@.len() == j,
                                forall|q: int| 0 <= q < j ==> (#[trigger] configured@[q])@ == modes@[q]@,
                        {
                            configured.push(modes[j].to_owned());
                        }
                        assert(configured@.map_values(|m: String| m@) =~= seq!["development"@]);
                        Err(
                            SupervisorError::ModeUnavailable {
                                requested: mode.as_str().to_owned(),
                                configured,
                            },
                        )
                    },
                }
            },
        }
    }
}


/// Law (modes of a start plan): every step of a start plan names a
/// registered app. The root starts in the requested mode, forcing the
/// install when asked; every other app starts in the mode it last ran in
/// (development when it never ran), whatever mode was requested for the
/// root, and never forces its install.
pub proof fn lemma_start_step_modes(
    entries: Seq<RuntimeView>,
    names: Seq<Seq<char>>,
    root: Seq<char>,
    mode: StartMode,
    force: bool,
)
    ensures
        forall|i: int|
            0 <= i < start_steps(entries, names, root, mode, force).len() ==> {
                let s = #[trigger] start_steps(entries, names, root, mode, force)[i];
                &&& lookup(entries, s.0) is Some
                &&& s.0 == root ==> s.1 == mode && s.2 == force
                &&& s.0 != root ==> !s.2 && s.1 == match lookup(entries, s.0) {
                    Some(rt) => match rt.last_mode {
                        Some(m) => m,
                        None => StartMode::Development,
                    },
                    None => StartMode::Development,
                }
            },
    decreases names.len(),
{
    if names.len() > 0 {
        lemma_start_step_modes(entries, names.drop_first(), root, mode, force);
        let rest = start_steps(entries, names.drop_first(), root, mode, force);
        let all = start_steps(entries, names, root, mode, force);
        assert forall|i: int| 0 <= i < all.len() implies {
            let s = #[trigger] all[i];
            &&& lookup(entries, s.0) is Some
            &&& s.0 == root ==> s.1 == mode && s.2 == force
            &&& s.0 != root ==> !s.2 && s.1 == match lookup(entries, s.0) {
                Some(rt) => match rt.last_mode {
                    Some(m) => m,
                    None => StartMode::Development,
                },
                None => StartMode::Development,
            }
        } by {
            if all.len() != rest.len() {
                if i > 0 {
                    assert(all[i] == rest[i - 1]);
                }
            } else {
                assert(all == rest);
            }
        }
    }
}

} // verus!
