//! The app configuration model (`piercast.yml`) and its validation rules.

use std::collections::HashMap;
use vstd::prelude::*;
use crate::text::{chars_of, str_equal};

verus! {

/// Errors raised while reading or checking an app configuration.
#[derive(Debug)]
pub enum SchemaError {
    Validation(String),
    Parse(String),
}

impl SchemaError {
    /// The human-readable text of the error.
    pub open spec fn message_spec(&self) -> Seq<char> {
        match self {
            SchemaError::Validation(m) => "validation failed: "@ + m@,
            SchemaError::Parse(m) => "parse error: "@ + m@,
        }
    }

    pub fn message(&self) -> (s: String)
        ensures
            s@ == self.message_spec(),
    {
        match self {
            SchemaError::Validation(m) => "validation failed: ".to_owned().concat(m.as_str()),
            SchemaError::Parse(m) => "parse error: ".to_owned().concat(m.as_str()),
        }
    }
}

/// One registered application.
#[derive(Debug, Clone, PartialEq)]
pub struct AppConfig {
    pub id: String,
    pub name: String,
    pub description: Option<String>,
    pub icon: Option<String>,
    pub root: String,
    pub tags: Option<Vec<String>>,
    pub commands: Commands,
    pub env: Option<HashMap<String, String>>,
    pub env_files: Option<Vec<String>>,
    pub ports: Option<Ports>,
    pub open_url: Option<String>,
    pub health: Option<HealthConfig>,
    pub depends_on: Vec<String>,
    pub restart: RestartPolicy,
    pub expose: Option<ExposeConfig>,
    pub resources: Option<Resources>,
}

/// Default restart policy of an app.
pub fn default_restart() -> (r: RestartPolicy)
    ensures
        r == RestartPolicy::OnFailure,
{
    RestartPolicy::OnFailure
}

/// The lifecycle commands of an app.
#[derive(Debug, Clone, PartialEq)]
pub struct Commands {
    pub install: Option<CommandSpec>,
    pub clean: Option<CommandSpec>,
    pub build: Option<CommandSpec>,
    pub start: StartCommands,
    pub deploy: Option<CommandSpec>,
    pub stop: Option<CommandSpec>,
}

/// Start commands per mode; development is always present.
#[derive(Debug, Clone, PartialEq)]
pub struct StartCommands {
    pub development: CommandSpec,
    pub production: Option<CommandSpec>,
}

/// A command line, run directly or through the shell.
#[derive(Debug, Clone, PartialEq)]
pub struct CommandSpec {
    pub argv: Vec<String>,
    pub cwd: Option<String>,
    pub env: Option<HashMap<String, String>>,
    pub shell: bool,
}

#[derive(Debug, Clone, PartialEq)]
pub struct Ports {
    pub primary: Option<u16>,
    pub extra: Option<Vec<u16>>,
}

/// How an app's health is probed.
#[derive(Debug, Clone, PartialEq)]
pub struct HealthConfig {
    pub kind: HealthKind,
    pub target: String,
    pub interval_ms: u64,
    pub timeout_ms: u64,
    pub healthy_threshold: u32,
    pub unhealthy_threshold: u32,
}

pub fn default_interval() -> (r: u64)
    ensures
        r == 5000,
{
    5000
}

pub fn default_timeout() -> (r: u64)
    ensures
        r == 2000,
{
    2000
}

pub fn default_healthy_threshold() -> (r: u32)
    ensures
        r == 1,
{
    1
}

pub fn default_unhealthy_threshold() -> (r: u32)
    ensures
        r == 3,
{
    3
}

#[derive(Debug, Clone, Copy, PartialEq, Eq, Structural)]
pub enum HealthKind {
    Http,
    Tcp,
    Command,
}

#[derive(Debug, Clone, Copy, PartialEq, Eq, Structural)]
pub enum RestartPolicy {
    Never,
    OnFailure,
    Always,
}

/// Default exposure of an app through the tailnet.
#[derive(Debug, Clone, PartialEq)]
pub struct ExposeConfig {
    pub default: ExposeMode,
    pub path: String,
}

pub fn default_expose_mode() -> (r: ExposeMode)
    ensures
        r == ExposeMode::Off,
{
    ExposeMode::Off
}

pub fn default_expose_path() -> (r: String)
    ensures
        r@ == "/"@,
{
    "/".to_owned()
}

#[derive(Debug, Clone, Copy, PartialEq, Eq, Structural)]
pub enum ExposeMode {
    Off,
    Serve,
    Funnel,
}

/// Resource warning thresholds. The CPU threshold is a 32-bit float carried
/// by its bit pattern; this library only passes it through.
#[derive(Debug, Clone, Copy, PartialEq, Eq, Structural)]
pub struct Resources {
    pub cpu_warn_percent_bits: u32,
    pub memory_warn_mb: u64,
}

pub fn default_mem_warn() -> (r: u64)
    ensures
        r == 1024,
{
    1024
}

#[derive(Debug, Clone, Copy, PartialEq, Eq, Structural)]
pub enum StartMode {
    Development,
    Production,
}

impl StartMode {
    pub open spec fn name_spec(self) -> Seq<char> {
        match self {
            StartMode::Development => "development"@,
            StartMode::Production => "production"@,
        }
    }

    pub fn as_str(self) -> (s: &'static str)
        ensures
            s@ == self.name_spec(),
    {
        match self {
            StartMode::Development => "development",
            StartMode::Production => "production",
        }
    }

    /// The mode named `s`, if any.
    pub open spec fn parse_spec(s: Seq<char>) -> Option<StartMode> {
        if s == "development"@ {
            Some(StartMode::Development)
        } else if s == "production"@ {
            Some(StartMode::Production)
        } else {
            None
        }
    }

    /// Parses a mode name; any other text is a validation error.
    pub fn parse(s: &str) -> (r: Result<StartMode, SchemaError>)
        ensures
            match r {
                Ok(m) => Self::parse_spec(s@) == Some(m),
                Err(SchemaError::Validation(msg)) => Self::parse_spec(s@) is None && msg@
                    == "unknown mode '"@ + s@ + "'"@,
                Err(SchemaError::Parse(_)) => false,
            },
    {
        if str_equal(s, "development") {
            Ok(StartMode::Development)
        } else if str_equal(s, "production") {
            Ok(StartMode::Production)
        } else {
            let msg = "unknown mode '".to_owned().concat(s).concat("'");
            Err(SchemaError::Validation(msg))
        }
    }
}

impl std::str::FromStr for StartMode {
    type Err = SchemaError;

    fn from_str(s: &str) -> (r: Result<Self, Self::Err>)
        ensures
            match r {
                Ok(m) => Self::parse_spec(s@) == Some(m),
                Err(SchemaError::Validation(msg)) => Self::parse_spec(s@) is None && msg@
                    == "unknown mode '"@ + s@ + "'"@,
                Err(SchemaError::Parse(_)) => false,
            },
    {
        StartMode::parse(s)
    }
}

impl Default for RestartPolicy {
    fn default() -> (r: Self)
        ensures
            r == RestartPolicy::OnFailure,
    {
        RestartPolicy::OnFailure
    }
}

/// Number of bytes that `c` takes in UTF-8.
pub open spec fn utf8_width(c: char) -> nat {
    if (c as u32) < 0x80 {
        1
    } else if (c as u32) < 0x800 {
        2
    } else if (c as u32) < 0x10000 {
        3
    } else {
        4
    }
}

/// Number of bytes of the UTF-8 encoding of `s`.
pub open spec fn byte_len(s: Seq<char>) -> nat
    decreases s.len(),
{
    if s.len() == 0 {
        0
    } else {
        byte_len(s.drop_last()) + utf8_width(s.last())
    }
}

/// Whether the UTF-8 encoding of `s` is longer than `limit` bytes.
pub fn utf8_longer_than(s: &str, limit: usize) -> (r: bool)
    ensures
        r == (byte_len(s@) > limit),
{
    let chars = chars_of(s);
    let n = chars.len();
    let mut total: usize = 0;
    let mut i: usize = 0;
    while i < n
        invariant
            n == chars@.len(),
            chars@ == s@,
            i <= n,
            total == byte_len(s@.take(i as int)),
            total <= limit,
        decreases n - i,
    {
        let c = chars[i];
        let w: usize = if (c as u32) < 0x80 {
            1
        } else if (c as u32) < 0x800 {
            2
        } else if (c as u32) < 0x10000 {
            3
        } else {
            4
        };
        assert(s@.take(i + 1).drop_last() =~= s@.take(i as int));
        if w > limit - total {
            proof {
                lemma_byte_len_prefix_monotone(s@, (i + 1) as int);
            }
            return true;
        }
        total = total + w;
        i = i + 1;
    }
    assert(s@.take(n as int) =~= s@);
    false
}

/// The byte length of a prefix is at most that of the whole sequence.
pub(crate) proof fn lemma_byte_len_prefix_monotone(s: Seq<char>, k: int)
    requires
        0 <= k <= s.len(),
    ensures
        byte_len(s.take(k)) <= byte_len(s),
    decreases s.len() - k,
{
    if k < s.len() {
        lemma_byte_len_prefix_monotone(s, k + 1);
        assert(s.take(k + 1).drop_last() =~= s.take(k));
    } else {
        assert(s.take(k) =~= s);
    }
}

pub open spec fn is_lower_or_digit(c: char) -> bool {
    ('a' <= c && c <= 'z') || ('0' <= c && c <= '9')
}

pub open spec fn is_id_char(c: char) -> bool {
    is_lower_or_digit(c) || c == '_' || c == '-'
}

/// Why `id` is not a valid app id, if it is not: ids match
/// `^[a-z0-9][a-z0-9_-]*$` and hold 1 to 128 bytes.
pub open spec fn id_problem(id: Seq<char>) -> Option<Seq<char>> {
    if id.len() == 0 || byte_len(id) > 128 {
        Some("id length invalid"@)
    } else if !is_lower_or_digit(id[0]) {
        Some("id must start with [a-z0-9]"@)
    } else if exists|i: int| 1 <= i < id.len() && !is_id_char(#[trigger] id[i]) {
        Some("id must match ^[a-z0-9][a-z0-9_-]*$"@)
    } else {
        None
    }
}

/// Why `cmd` is not a valid command, if it is not.
pub open spec fn command_problem(cmd: CommandSpec, label: Seq<char>) -> Option<Seq<char>> {
    if cmd.argv.len() == 0 {
        Some(label + ".argv must be non-empty"@)
    } else if cmd.shell && cmd.argv.len() != 1 {
        Some(label + ": shell=true requires argv length 1"@)
    } else {
        None
    }
}

pub open spec fn optional_command_problem(cmd: Option<CommandSpec>, label: Seq<char>) -> Option<
    Seq<char>,
> {
    match cmd {
        Some(c) => command_problem(c, label),
        None => None,
    }
}

pub open spec fn health_problem(h: Option<HealthConfig>) -> Option<Seq<char>> {
    match h {
        Some(h) => if h.target@.len() == 0 {
            Some("health.target empty"@)
        } else if h.interval_ms < 100 {
            Some("health.interval_ms < 100"@)
        } else if h.timeout_ms < 50 {
            Some("health.timeout_ms < 50"@)
        } else {
            None
        },
        None => None,
    }
}

/// The first rule that `app` breaks, as the message that reports it.
pub open spec fn config_problem(app: AppConfig) -> Option<Seq<char>> {
    if id_problem(app.id@) is Some {
        id_problem(app.id@)
    } else if app.name@.len() == 0 || byte_len(app.name@) > 256 {
        Some("name length invalid"@)
    } else if app.root@.len() == 0 {
        Some("root is required"@)
    } else if command_problem(app.commands.start.development, "start.development"@) is Some {
        command_problem(app.commands.start.development, "start.development"@)
    } else if optional_command_problem(app.commands.start.production, "start.production"@) is Some {
        optional_command_problem(app.commands.start.production, "start.production"@)
    } else if optional_command_problem(app.commands.install, "install"@) is Some {
        optional_command_problem(app.commands.install, "install"@)
    } else if optional_command_problem(app.commands.clean, "clean"@) is Some {
        optional_command_problem(app.commands.clean, "clean"@)
    } else if optional_command_problem(app.commands.build, "build"@) is Some {
        optional_command_problem(app.commands.build, "build"@)
    } else if optional_command_problem(app.commands.deploy, "deploy"@) is Some {
        optional_command_problem(app.commands.deploy, "deploy"@)
    } else if optional_command_problem(app.commands.stop, "stop"@) is Some {
        optional_command_problem(app.commands.stop, "stop"@)
    } else {
        health_problem(app.health)
    }
}

/// Result of a check: `Ok` when there is no problem, else the validation error.
pub open spec fn check_result(problem: Option<Seq<char>>, r: Result<(), SchemaError>) -> bool {
    match problem {
        None => r is Ok,
        Some(m) => r matches Err(SchemaError::Validation(msg)) && msg@ == m,
    }
}

fn validation_error(msg: &str) -> (r: Result<(), SchemaError>)
    ensures
        r matches Err(SchemaError::Validation(m)) && m@ == msg@,
{
    Err(SchemaError::Validation(msg.to_owned()))
}

/// Checks an app id against `^[a-z0-9][a-z0-9_-]*$` and its length.
pub fn validate_id(id: &str) -> (r: Result<(), SchemaError>)
    ensures
        check_result(id_problem(id@), r),
{
    if id.is_empty() || utf8_longer_than(id, 128) {
        return validation_error("id length invalid");
    }
    let chars = chars_of(id);
    let first = chars[0];
    if !(('a' <= first && first <= 'z') || ('0' <= first && first <= '9')) {
        return validation_error("id must start with [a-z0-9]");
    }
    let n = chars.len();
    let mut i: usize = 1;
    while i < n
        invariant
            n == chars@.len(),
            chars@ == id@,
            1 <= i <= n,
            id@.len() > 0,
            byte_len(id@) <= 128,
            is_lower_or_digit(id@[0]),
            forall|j: int| 1 <= j < i ==> is_id_char(#[trigger] chars@[j]),
        decreases n - i,
    {
        let c = chars[i];
        if !(('a' <= c && c <= 'z') || ('0' <= c && c <= '9') || c == '_' || c == '-') {
            assert(!is_id_char(chars@[i as int]));
            return validation_error("id must match ^[a-z0-9][a-z0-9_-]*$");
        }
        i = i + 1;
    }
    Ok(())
}

/// Checks that a command has an argument vector, of length one when run by the shell.
pub fn validate_command(cmd: &CommandSpec, label: &str) -> (r: Result<(), SchemaError>)
    ensures
        check_result(command_problem(*cmd, label@), r),
{
    if cmd.argv.len() == 0 {
        return Err(SchemaError::Validation(label.to_owned().concat(".argv must be non-empty")));
    }
    if cmd.shell && cmd.argv.len() != 1 {
        return Err(
            SchemaError::Validation(label.to_owned().concat(": shell=true requires argv length 1")),
        );
    }
    Ok(())
}

fn validate_optional_command(cmd: &Option<CommandSpec>, label: &str) -> (r: Result<
    (),
    SchemaError,
>)
    ensures
        check_result(optional_command_problem(*cmd, label@), r),
{
    match cmd {
        Some(c) => validate_command(c, label),
        None => Ok(()),
    }
}

impl AppConfig {
    /// Checks every rule of the schema; the first rule broken is reported.
    pub fn validate(&self) -> (r: Result<(), SchemaError>)
        ensures
            check_result(config_problem(*self), r),
    {
        let r = validate_id(self.id.as_str());
        if r.is_err() {
            return r;
        }
        if self.name.as_str().is_empty() || utf8_longer_than(self.name.as_str(), 256) {
            return validation_error("name length invalid");
        }
        if self.root.as_str().is_empty() {
            return validation_error("root is required");
        }
        let r = validate_command(&self.commands.start.development, "start.development");
        if r.is_err() {
            return r;
        }
        let r = validate_optional_command(&self.commands.start.production, "start.production");
        if r.is_err() {
            return r;
        }
        let r = validate_optional_command(&self.commands.install, "install");
        if r.is_err() {
            return r;
        }
        let r = validate_optional_command(&self.commands.clean, "clean");
        if r.is_err() {
            return r;
        }
        let r = validate_optional_command(&self.commands.build, "build");
        if r.is_err() {
            return r;
        }
        let r = validate_optional_command(&self.commands.deploy, "deploy");
        if r.is_err() {
            return r;
        }
        let r = validate_optional_command(&self.commands.stop, "stop");
        if r.is_err() {
            return r;
        }
        match &self.health {
            Some(h) => {
                if h.target.as_str().is_empty() {
                    return validation_error("health.target empty");
                }
                if h.interval_ms < 100 {
                    return validation_error("health.interval_ms < 100");
                }
                if h.timeout_ms < 50 {
                    return validation_error("health.timeout_ms < 50");
                }
            },
            None => {},
        }
        Ok(())
    }

    /// The outcome of reading a configuration: a parse failure is reported as
    /// such, and a parsed configuration must pass `validate`.
    pub fn accept_parsed(parsed: Result<AppConfig, String>) -> (r: Result<AppConfig, SchemaError>)
        ensures
            match parsed {
                Err(e) => r matches Err(SchemaError::Parse(m)) && m@ == e@,
                Ok(app) => match config_problem(app) {
                    None => r == Ok::<AppConfig, SchemaError>(app),
                    Some(p) => r matches Err(SchemaError::Validation(m)) && m@ == p,
                },
            },
    {
        match parsed {
            Err(e) => Err(SchemaError::Parse(e)),
            Ok(app) => match app.validate() {
                Ok(()) => Ok(app),
                Err(e) => Err(e),
            },
        }
    }

    /// Names of the start modes this app can run in.
    pub fn configured_modes(&self) -> (m: Vec<&'static str>)
        ensures
            m@.len() == (if self.commands.start.production is Some {
                2int
            } else {
                1int
            }),
            m@[0]@ == "development"@,
            self.commands.start.production is Some ==> m@[1]@ == "production"@,
    {
        let mut m = Vec::new();
        m.push("development");
        if self.commands.start.production.is_some() {
            m.push("production");
        }
        m
    }

    /// The start command for `mode`, if configured.
    pub fn start_spec(&self, mode: StartMode) -> (r: Option<&CommandSpec>)
        ensures
            r == (match mode {
                StartMode::Development => Some(&self.commands.start.development),
                StartMode::Production => match &self.commands.start.production {
                    Some(p) => Some(p),
                    None => None,
                },
            }),
    {
        match mode {
            StartMode::Development => Some(&self.commands.start.development),
            StartMode::Production => self.commands.start.production.as_ref(),
        }
    }
}


/// Law (the id rule): an id is accepted exactly when it has 1 to 128 bytes,
/// starts with a lower-case ASCII letter or a digit, and every later
/// character is a lower-case ASCII letter, a digit, `_` or `-`; so an id
/// holding an upper-case letter, a space or any other character is refused.
pub proof fn lemma_id_rule(id: Seq<char>)
    ensures
        (id_problem(id) is None) == (1 <= byte_len(id) <= 128 && id.len() > 0 && (('a' <= id[0]
            && id[0] <= 'z') || ('0' <= id[0] && id[0] <= '9')) && forall|i: int|
            1 <= i < id.len() ==> {
                let c = #[trigger] id[i];
                ('a' <= c && c <= 'z') || ('0' <= c && c <= '9') || c == '_' || c == '-'
            }),
        (exists|i: int| 0 <= i < id.len() && 'A' <= #[trigger] id[i] && id[i] <= 'Z') ==> id_problem(
            id,
        ) is Some,
{
    if id.len() > 0 {
        lemma_byte_len_positive(id);
    }
    if exists|i: int| 0 <= i < id.len() && 'A' <= #[trigger] id[i] && id[i] <= 'Z' {
        let i = choose|i: int| 0 <= i < id.len() && 'A' <= #[trigger] id[i] && id[i] <= 'Z';
        if i > 0 {
            assert(!is_id_char(id[i]));
        }
    }
}

proof fn lemma_byte_len_positive(s: Seq<char>)
    requires
        s.len() > 0,
    ensures
        byte_len(s) >= 1,
{
}

} // verus!
