//! Decisions taken around an app's process: how to stop it and when to give
//! up waiting, where to open it, whether its dependencies must be installed
//! first, and which program to run for a command.

use vstd::prelude::*;
use crate::health::HealthState;
use crate::schema::{AppConfig, CommandSpec, SchemaError, StartMode, config_problem};
use crate::supervisor::{
    Registry, RuntimeStatus, RuntimeView, SupervisorError, is_live, lookup, position,
};
use crate::text::{
    chars_of, contains_seq, decimal_string, decimal_text, find_chars, replace_all, replace_text,
};

verus! {

/// First step of stopping an app.
#[derive(Debug)]
pub enum StopAction<'a> {
    /// Run the app's own stop command from its root.
    RunCommand { command: &'a CommandSpec, root: &'a str },
    /// Ask the process group to terminate.
    Terminate(u32),
    /// Nothing runs: just wait for the state to settle.
    Nothing,
}

/// What to do while waiting for a stopping app to exit.
#[derive(Debug, Clone, Copy, PartialEq, Eq, Structural)]
pub enum StopWait {
    /// The process is gone (or cannot be waited on): record it as stopped.
    Finish,
    /// The grace period is over: kill the process group, then record it as stopped.
    KillThenFinish(u32),
    /// Check again shortly.
    Wait,
}

/// What the stop of a registered app starts with.
pub open spec fn stop_action_matches(rt: RuntimeView, a: StopAction) -> bool {
    match rt.config.commands.stop {
        Some(c) => a matches StopAction::RunCommand { command, root } && *command == c && root@
            == rt.config.root@,
        None => match rt.pid {
            Some(p) => a == StopAction::Terminate(p),
            None => a == StopAction::Nothing,
        },
    }
}

impl Registry {
    /// How to begin stopping app `id`: its stop command when it has one,
    /// else a termination signal to its process when one is known.
    pub fn stop_action(&self, id: &str) -> (r: Result<StopAction<'_>, SupervisorError>)
        ensures
            match lookup(self.entries(), id@) {
                Some(rt) => r matches Ok(a) && stop_action_matches(rt, a),
                None => r matches Err(SupervisorError::NotFound(s)) && s@ == id@,
            },
    {
        match self.find(id) {
            None => Err(SupervisorError::NotFound(id.to_owned())),
            Some(i) => {
                proof {
                    self.lemma_entries();
                    assert(self.entries()[i as int] == self.apps@[i as int]@);
                    assert(lookup(self.entries(), id@) == Some(self.apps@[i as int]@));
                }
                let rt = &self.apps[i];
                match &rt.config.commands.stop {
                    Some(c) => Ok(StopAction::RunCommand { command: c, root: rt.config.root.as_str() }),
                    None => match rt.pid {
                        Some(p) => Ok(StopAction::Terminate(p)),
                        None => Ok(StopAction::Nothing),
                    },
                }
            },
        }
    }
}

/// One round of waiting for a stopping app: done once it is no longer
/// alive; past the deadline it is killed (when its pid is known) and recorded
/// as stopped; otherwise wait.
pub fn stop_wait_step(alive: bool, past_deadline: bool, pid: Option<u32>) -> (r: StopWait)
    ensures
        !alive ==> r == StopWait::Finish,
        alive && past_deadline ==> r == (match pid {
            Some(p) => StopWait::KillThenFinish(p),
            None => StopWait::Finish,
        }),
        alive && !past_deadline ==> r == StopWait::Wait,
{
    if !alive {
        StopWait::Finish
    } else if past_deadline {
        match pid {
            Some(p) => StopWait::KillThenFinish(p),
            None => StopWait::Finish,
        }
    } else {
        StopWait::Wait
    }
}

/// The address an app is opened at: its `open_url` template with every
/// `{port}` replaced by the primary port (0 when it has none), else the
/// loopback address of the primary port, else none.
pub open spec fn open_url_spec(template: Option<Seq<char>>, primary: Option<u16>) -> Option<Seq<char>> {
    match template {
        Some(t) => Some(
            replace_all(
                t,
                "{port}"@,
                decimal_text(
                    match primary {
                        Some(p) => p as nat,
                        None => 0,
                    },
                ),
            ),
        ),
        None => match primary {
            Some(p) => Some("http://127.0.0.1:"@ + decimal_text(p as nat)),
            None => None,
        },
    }
}

/// Builds the address an app is opened at.
pub fn open_url(template: Option<&str>, primary: Option<u16>) -> (r: Option<String>)
    ensures
        match r {
            Some(u) => open_url_spec(
                match template {
                    Some(t) => Some(t@),
                    None => None,
                },
                primary,
            ) == Some(u@),
            None => open_url_spec(
                match template {
                    Some(t) => Some(t@),
                    None => None,
                },
                primary,
            ) is None,
        },
{
    match template {
        Some(t) => {
            let port = match primary {
                Some(p) => p,
                None => 0,
            };
            let digits = decimal_string(port);
            let pat = "{port}";
            proof {
                reveal_strlit("{port}");
            }
            Some(replace_text(t, pat, digits.as_str()))
        },
        None => match primary {
            Some(p) => {
                let digits = decimal_string(p);
                let u = "http://127.0.0.1:".to_owned().concat(digits.as_str());
                Some(u)
            },
            None => None,
        },
    }
}

/// The primary port of an app, if it declares one.
pub open spec fn primary_port(config: AppConfig) -> Option<u16> {
    match config.ports {
        Some(p) => p.primary,
        None => None,
    }
}

/// What opening an app involves, decided before anything runs.
#[derive(Debug)]
pub struct OpenTarget {
    /// The app is not running and must be started first.
    pub needs_start: bool,
    /// The mode to start it in: the last one used, development by default.
    pub mode: StartMode,
    /// The address to hand to the browser, if the app has one.
    pub url: Option<String>,
}

impl Registry {
    /// Decides how to open app `id`.
    pub fn open_target(&self, id: &str) -> (r: Result<OpenTarget, SupervisorError>)
        ensures
            match lookup(self.entries(), id@) {
                Some(rt) => r matches Ok(t) && t.needs_start == !is_live(rt) && t.mode == (
                match rt.last_mode {
                    Some(m) => m,
                    None => StartMode::Development,
                }) && match t.url {
                    Some(u) => open_url_spec(
                        match rt.config.open_url {
                            Some(o) => Some(o@),
                            None => None,
                        },
                        primary_port(rt.config),
                    ) == Some(u@),
                    None => open_url_spec(
                        match rt.config.open_url {
                            Some(o) => Some(o@),
                            None => None,
                        },
                        primary_port(rt.config),
                    ) is None,
                },
                None => r matches Err(SupervisorError::NotFound(s)) && s@ == id@,
            },
    {
        match self.find(id) {
            None => Err(SupervisorError::NotFound(id.to_owned())),
            Some(i) => {
                proof {
                    self.lemma_entries();
                    assert(self.entries()[i as int] == self.apps@[i as int]@);
                    assert(lookup(self.entries(), id@) == Some(self.apps@[i as int]@));
                }
                let rt = &self.apps[i];
                let live = (matches!(rt.status, RuntimeStatus::Running) || matches!(
                    rt.status,
                    RuntimeStatus::Starting
                )) && rt.pid.is_some();
                let mode = match rt.last_mode {
                    Some(m) => m,
                    None => StartMode::Development,
                };
                let primary = match &rt.config.ports {
                    Some(p) => p.primary,
                    None => None,
                };
                let template = match &rt.config.open_url {
                    Some(o) => Some(o.as_str()),
                    None => None,
                };
                let url = open_url(template, primary);
                Ok(OpenTarget { needs_start: !live, mode, url })
            },
        }
    }
}

/// One round of waiting for an opened app to become healthy: ready once it
/// is healthy, a timeout past the deadline, else poll again.
pub fn open_wait_step(health: HealthState, past_deadline: bool) -> (r: Result<bool, SupervisorError>)
    ensures
        health == HealthState::Healthy ==> r matches Ok(true),
        health != HealthState::Healthy && past_deadline ==> r matches Err(
            SupervisorError::StartTimeout,
        ),
        health != HealthState::Healthy && !past_deadline ==> r matches Ok(false),
{
    if matches!(health, HealthState::Healthy) {
        Ok(true)
    } else if past_deadline {
        Err(SupervisorError::StartTimeout)
    } else {
        Ok(false)
    }
}


/// Lower-case form of `s`, as `str::to_lowercase` computes it with the
/// Unicode case mapping.
pub uninterp spec fn lowercase_of(s: Seq<char>) -> Seq<char>;

/// `str::to_lowercase`: its result is `lowercase_of` of the argument.
#[verifier::external_body]
fn to_lowercase(s: &str) -> (r: String)
    ensures
        r@ == lowercase_of(s@),
{
    s.to_lowercase()
}

/// The parts written one after the other with `sep` between neighbours.
pub open spec fn joined(parts: Seq<Seq<char>>, sep: Seq<char>) -> Seq<char>
    decreases parts.len(),
{
    if parts.len() == 0 {
        Seq::empty()
    } else if parts.len() == 1 {
        parts[0]
    } else {
        joined(parts.drop_last(), sep) + sep + parts.last()
    }
}

/// The words of a command line joined by `sep`.
pub fn join_words(words: &Vec<String>, sep: &str) -> (r: String)
    ensures
        r@ == joined(words@.map_values(|w: String| w@), sep@),
{
    let ghost parts = words@.map_values(|w: String| w@);
    let mut out = String::new();
    let n = words.len();
    for i in 0..n
        invariant
            n == words@.len(),
            parts == words@.map_values(|w: String| w@),
            out@ == joined(parts.take(i as int), sep@),
    {
        assert(parts.take(i + 1).drop_last() =~= parts.take(i as int));
        if i > 0 {
            out.append(sep);
        }
        out.append(words[i].as_str());
        proof {
            if i == 0 {
                assert(parts.take(1)[0] == parts[0]);
                assert(out@ =~= joined(parts.take(1), sep@));
            } else {
                assert(parts.take(i + 1).last() == words@[i as int]@);
            }
        }
    }
    assert(parts.take(n as int) =~= parts);
    out
}

/// What the caller found on disk before installing an app's dependencies.
#[derive(Debug, Clone, Copy, PartialEq, Eq, Structural)]
pub struct InstallProbe {
    /// `node_modules` exists in the app's root.
    pub node_modules_present: bool,
    /// `.venv` exists in the app's root.
    pub venv_present: bool,
    /// The environment asks to skip the virtualenv check.
    pub skip_venv_check: bool,
    /// `.piercast_installed` exists in the app's root.
    pub marker_present: bool,
}

/// Whether an install command (given lower-cased, words joined by spaces)
/// must run: node package managers when `node_modules` is missing, Python
/// ones when `.venv` is missing (unless that check is skipped), never for
/// cargo or docker, and otherwise when the install marker is missing.
pub open spec fn install_needed_spec(cmd: Seq<char>, probe: InstallProbe) -> bool {
    if contains_seq(cmd, "npm"@) || contains_seq(cmd, "pnpm"@) || contains_seq(cmd, "yarn"@)
        || contains_seq(cmd, "bun"@) {
        !probe.node_modules_present
    } else if contains_seq(cmd, "pip"@) || contains_seq(cmd, "uv"@) || contains_seq(cmd, "poetry"@) {
        !probe.skip_venv_check && !probe.venv_present
    } else if contains_seq(cmd, "cargo"@) || contains_seq(cmd, "docker"@) {
        false
    } else {
        !probe.marker_present
    }
}

fn mentions(cmd: &Vec<char>, word: &str) -> (r: bool)
    ensures
        r == contains_seq(cmd@, word@),
{
    let w = chars_of(word);
    match find_chars(cmd, &w) {
        Some(_) => true,
        None => false,
    }
}

/// Decides whether an install command must run, from the command line
/// already lower-cased and joined.
pub fn install_needed(cmd: &str, probe: InstallProbe) -> (r: bool)
    ensures
        r == install_needed_spec(cmd@, probe),
{
    let c = chars_of(cmd);
    if mentions(&c, "npm") || mentions(&c, "pnpm") || mentions(&c, "yarn") || mentions(&c, "bun") {
        !probe.node_modules_present
    } else if mentions(&c, "pip") || mentions(&c, "uv") || mentions(&c, "poetry") {
        !probe.skip_venv_check && !probe.venv_present
    } else if mentions(&c, "cargo") || mentions(&c, "docker") {
        false
    } else {
        !probe.marker_present
    }
}

/// Whether `install` must run before starting an app.
pub fn should_run_install(install: &CommandSpec, probe: InstallProbe) -> (r: bool)
    ensures
        r == install_needed_spec(
            lowercase_of(joined(install.argv@.map_values(|w: String| w@), " "@)),
            probe,
        ),
{
    let line = join_words(&install.argv, " ");
    let lower = to_lowercase(line.as_str());
    install_needed(lower.as_str(), probe)
}

/// The commands that starting an app runs, in order.
#[derive(Debug)]
pub struct LaunchCommands<'a> {
    /// The install command, when it is due.
    pub install: Option<&'a CommandSpec>,
    /// The build command, for production starts.
    pub build: Option<&'a CommandSpec>,
    /// The start command of the mode.
    pub start: &'a CommandSpec,
}

/// The commands to run to start `config` in `mode`: install first when it
/// is forced or due, build for production, then the start command of the
/// mode; none when the app has no start command for that mode.
pub fn launch_commands(config: &AppConfig, mode: StartMode, force_install: bool, probe: InstallProbe) -> (r:
    Option<LaunchCommands<'_>>)
    ensures
        match mode {
            StartMode::Development => r is Some,
            StartMode::Production => (r is Some) == (config.commands.start.production is Some),
        },
        r matches Some(l) ==> {
            &&& match mode {
                StartMode::Development => *l.start == config.commands.start.development,
                StartMode::Production => Some(*l.start) == config.commands.start.production,
            }
            &&& match config.commands.install {
                Some(c) => if force_install || install_needed_spec(
                    lowercase_of(joined(c.argv@.map_values(|w: String| w@), " "@)),
                    probe,
                ) {
                    l.install matches Some(i) && *i == c
                } else {
                    l.install is None
                },
                None => l.install is None,
            }
            &&& match mode {
                StartMode::Production => match config.commands.build {
                    Some(b) => l.build matches Some(x) && *x == b,
                    None => l.build is None,
                },
                StartMode::Development => l.build is None,
            }
        },
{
    let start = match config.start_spec(mode) {
        Some(s) => s,
        None => {
            return None;
        },
    };
    let install = match &config.commands.install {
        Some(c) => if force_install || should_run_install(c, probe) {
            Some(c)
        } else {
            None
        },
        None => None,
    };
    let build = match mode {
        StartMode::Production => config.commands.build.as_ref(),
        StartMode::Development => None,
    };
    Some(LaunchCommands { install, build, start })
}

/// A program to run, with its arguments and working directory.
#[derive(Debug)]
pub struct CommandPlan {
    pub program: String,
    pub args: Vec<String>,
    pub cwd: String,
}

/// How `spec` runs: a shell command runs its script through `shell` with
/// `shell_flag`; otherwise the first word is the program and the rest its
/// arguments. It runs in its own working directory, else in `default_cwd`.
/// An empty command line is an error.
pub fn command_plan(spec: &CommandSpec, default_cwd: &str, shell: &str, shell_flag: &str) -> (r: Result<
    CommandPlan,
    SupervisorError,
>)
    ensures
        spec.argv@.len() == 0 ==> (r matches Err(SupervisorError::Other(m)) && m@ == "empty argv"@),
        spec.argv@.len() > 0 ==> (r matches Ok(p) && {
            &&& p.cwd@ == match spec.cwd {
                Some(c) => c@,
                None => default_cwd@,
            }
            &&& if spec.shell {
                p.program@ == shell@ && p.args@.map_values(|a: String| a@) == seq![
                    shell_flag@,
                    spec.argv@[0]@,
                ]
            } else {
                p.program@ == spec.argv@[0]@ && p.args@.map_values(|a: String| a@)
                    == spec.argv@.map_values(|a: String| a@).drop_first()
            }
        }),
{
    let n = spec.argv.len();
    if n == 0 {
        return Err(SupervisorError::Other("empty argv".to_owned()));
    }
    let cwd = match &spec.cwd {
        Some(c) => c.clone(),
        None => default_cwd.to_owned(),
    };
    if spec.shell {
        let mut args: Vec<String> = Vec::new();
        args.push(shell_flag.to_owned());
        args.push(spec.argv[0].clone());
        assert(args@.map_values(|a: String| a@) =~= seq![shell_flag@, spec.argv@[0]@]);
        Ok(CommandPlan { program: shell.to_owned(), args, cwd })
    } else {
        let mut args: Vec<String> = Vec::new();
        let ghost words = spec.argv@.map_values(|a: String| a@);
        for j in 1..n
            invariant
                n == spec.argv@.len(),
                1 <= n,
                words == spec.argv@.map_values(|a: String| a@),
                args@.map_values(|a: String| a@) == words.subrange(1, j as int),
        {
            let ghost before = args@;
            args.push(spec.argv[j].clone());
            assert(args@.map_values(|a: String| a@) =~= before.map_values(|a: String| a@).push(
                words[j as int],
            ));
            assert(words.subrange(1, j + 1) =~= words.subrange(1, j as int).push(words[j as int]));
        }
        assert(words.subrange(1, n as int) =~= words.drop_first());
        Ok(CommandPlan { program: spec.argv[0].clone(), args, cwd })
    }
}


/// A running app whose process is sampled for resource use.
pub open spec fn is_sampled(rt: RuntimeView) -> bool {
    rt.status == RuntimeStatus::Running && rt.pid is Some
}

impl Registry {
    /// Apps to sample, with their process ids: running ones whose pid is
    /// known, in registration order.
    pub fn metrics_targets(&self) -> (r: Vec<(String, u32)>)
        ensures
            r@.map_values(|t: (String, u32)| (t.0@, t.1)) == self.entries().filter(
                |rt: RuntimeView| is_sampled(rt),
            ).map_values(|rt: RuntimeView| (rt.config.id@, rt.pid->0)),
    {
        let ghost e = self.entries();
        let ghost pred = |rt: RuntimeView| is_sampled(rt);
        let ghost f = |rt: RuntimeView| (rt.config.id@, rt.pid->0);
        let ghost g = |t: (String, u32)| (t.0@, t.1);
        proof {
            self.lemma_entries();
        }
        let mut out: Vec<(String, u32)> = Vec::new();
        let n = self.apps.len();
        for i in 0..n
            invariant
                n == self.apps@.len(),
                e == self.entries(),
                e.len() == n,
                forall|j: int| 0 <= j < n ==> e[j] == #[trigger] self.apps@[j]@,
                pred == (|rt: RuntimeView| is_sampled(rt)),
                f == (|rt: RuntimeView| (rt.config.id@, rt.pid->0)),
                g == (|t: (String, u32)| (t.0@, t.1)),
                out@.map_values(g) == e.take(i as int).filter(pred).map_values(f),
        {
            proof {
                assert(e.take(i + 1).drop_last() =~= e.take(i as int));
                reveal(Seq::filter);
                assert(e[i as int] == self.apps@[i as int]@);
                assert(e.take(i + 1).last() == e[i as int]);
            }
            let ghost before = out@;
            if matches!(self.apps[i].status, RuntimeStatus::Running) {
                match self.apps[i].pid {
                    Some(p) => {
                        let idc = self.apps[i].config.id.clone();
                        out.push((idc, p));
                        proof {
                            assert(pred(e[i as int]));
                            assert(e.take(i + 1).filter(pred) == e.take(i as int).filter(pred).push(
                                e[i as int],
                            ));
                            assert(out@.map_values(g) =~= before.map_values(g).push(g((idc, p))));
                            assert(e.take(i as int).filter(pred).push(e[i as int]).map_values(f)
                                =~= e.take(i as int).filter(pred).map_values(f).push(f(e[i as int])));
                        }
                    },
                    None => {
                        proof {
                            assert(!pred(e[i as int]));
                            assert(e.take(i + 1).filter(pred) == e.take(i as int).filter(pred));
                        }
                    },
                }
            } else {
                proof {
                    assert(!pred(e[i as int]));
                    assert(e.take(i + 1).filter(pred) == e.take(i as int).filter(pred));
                }
            }
        }
        assert(e.take(n as int) =~= e);
        out
    }
}

/// Checks a configuration before it is registered; a failure is reported
/// with the validation message.
pub fn checked_config(config: &AppConfig) -> (r: Result<(), SupervisorError>)
    ensures
        match config_problem(*config) {
            None => r is Ok,
            Some(p) => r matches Err(SupervisorError::Other(m)) && m@ == "validation failed: "@ + p,
        },
{
    match config.validate() {
        Ok(()) => Ok(()),
        Err(e) => Err(SupervisorError::Other(e.message())),
    }
}

/// Whether a path is absolute (it starts at the root directory).
pub open spec fn is_absolute_path(p: Seq<char>) -> bool {
    p.len() > 0 && p[0] == '/'
}

/// The root directory recorded for an app read from a file: its own root
/// when that is absolute, else the directory holding the file.
pub fn resolved_root(root: &str, file_dir: &str) -> (r: String)
    ensures
        r@ == if is_absolute_path(root@) {
            root@
        } else {
            file_dir@
        },
{
    let c = chars_of(root);
    if c.len() > 0 && c[0] == '/' {
        root.to_owned()
    } else {
        file_dir.to_owned()
    }
}

/// The list of strings that `serde_json` reads from `text` as a JSON array
/// of strings, if it is one.
pub uninterp spec fn json_string_list(text: Seq<char>) -> Option<Seq<Seq<char>>>;

/// `serde_json::from_str::<Vec<String>>`: its outcome is `json_string_list`
/// of the text.
#[verifier::external_body]
fn parse_string_list(text: &str) -> (r: Option<Vec<String>>)
    ensures
        match r {
            Some(v) => json_string_list(text@) == Some(v@.map_values(|s: String| s@)),
            None => json_string_list(text@) is None,
        },
{
    serde_json::from_str::<Vec<String>>(text).ok()
}

/// The command line of a command health check, from the parsed target: none
/// when the target did not parse or is empty.
pub fn probe_argv(parsed: Option<Vec<String>>) -> (r: Option<Vec<String>>)
    ensures
        match parsed {
            Some(v) => if v@.len() > 0 {
                r == Some(v)
            } else {
                r is None
            },
            None => r is None,
        },
{
    match parsed {
        Some(v) => if v.len() > 0 {
            Some(v)
        } else {
            None
        },
        None => None,
    }
}

/// The command line of a command health check: its target read as a JSON
/// array of strings; none when it is not one or is empty.
pub fn command_probe_argv(target: &str) -> (r: Option<Vec<String>>)
    ensures
        match json_string_list(target@) {
            Some(v) => if v.len() > 0 {
                r matches Some(a) && a@.map_values(|s: String| s@) == v
            } else {
                r is None
            },
            None => r is None,
        },
{
    probe_argv(parse_string_list(target))
}


/// The body of a start request: the mode by name (development when absent)
/// and whether to force the install step.
#[derive(Debug)]
pub struct StartBody {
    pub mode: Option<String>,
    pub force_install: bool,
}

impl StartBody {
    /// The requested start mode.
    pub fn start_mode(&self) -> (r: Result<StartMode, SchemaError>)
        ensures
            match StartMode::parse_spec(
                match self.mode {
                    Some(m) => m@,
                    None => "development"@,
                },
            ) {
                Some(m) => r == Ok::<StartMode, SchemaError>(m),
                None => r matches Err(SchemaError::Validation(_)),
            },
    {
        let name = match &self.mode {
            Some(m) => m.as_str(),
            None => "development",
        };
        StartMode::parse(name)
    }
}

/// Settings of the supervisor.
#[derive(Debug)]
pub struct EngineConfig {
    pub data_dir: String,
    /// Pause between resource samples.
    pub sample_interval_ms: u64,
    /// How long a stopping app may take before it is killed.
    pub stop_escalate_after_ms: u64,
    /// How long opening an app waits for it to become healthy.
    pub open_timeout_ms: u64,
    pub skip_browser_open: bool,
}

impl EngineConfig {
    /// The default settings for data directory `data_dir`: samples every two
    /// seconds, a ten second grace period on stop, a minute to open, and the
    /// browser opened.
    pub fn with_data_dir(data_dir: String) -> (r: EngineConfig)
        ensures
            r.data_dir == data_dir,
            r.sample_interval_ms == 2000,
            r.stop_escalate_after_ms == 10_000,
            r.open_timeout_ms == 60_000,
            !r.skip_browser_open,
    {
        EngineConfig {
            data_dir,
            sample_interval_ms: 2000,
            stop_escalate_after_ms: 10_000,
            open_timeout_ms: 60_000,
            skip_browser_open: false,
        }
    }
}

/// The outcome of running a command to completion: nothing on success,
/// else an error naming the exit status.
pub fn run_status_outcome(success: bool, status: &str) -> (r: Result<(), SupervisorError>)
    ensures
        success ==> r is Ok,
        !success ==> (r matches Err(SupervisorError::Other(m)) && m@ == "command failed with "@ + status@),
{
    if success {
        Ok(())
    } else {
        Err(SupervisorError::Other("command failed with ".to_owned().concat(status)))
    }
}


/// Law (stopping an app): an app with a stop command is stopped by running
/// that command from its root, whether or not its process id is known; an
/// app without one gets a termination signal when its process id is known,
/// and nothing otherwise.
pub proof fn lemma_stop_action_choice(rt: RuntimeView, a: StopAction)
    requires
        stop_action_matches(rt, a),
    ensures
        rt.config.commands.stop matches Some(c) ==> (a matches StopAction::RunCommand { command, root }
            && *command == c && root@ == rt.config.root@),
        rt.pid matches Some(p) ==> (rt.config.commands.stop is None ==> a == StopAction::Terminate(p)),
        rt.config.commands.stop is None && rt.pid is None ==> a == StopAction::Nothing,
        a matches StopAction::Terminate(p) ==> rt.config.commands.stop is None && rt.pid == Some(p),
{
}

} // verus!
