//! Exposing an app on the tailnet with the `tailscale` command line tool:
//! which commands to run for serve, funnel or off, what their output means,
//! and which address the app ends up at.

use vstd::prelude::*;
use crate::schema::{AppConfig, ExposeMode};
use crate::text::{
    chars_of, decimal_string, decimal_text, find_chars, find_piece_containing,
    find_piece_with_prefix, first_piece_containing, first_piece_with_prefix, is_space, is_space_char,
    occurs_at,
    contains_seq, string_from_chars, trim_chars, trim_spec,
};

verus! {

/// Where to get the `tailscale` tool.
pub const DOWNLOAD_URL: &'static str = "https://tailscale.com/download";

/// Errors from driving `tailscale`.
#[derive(Debug)]
pub enum TailscaleError {
    /// The tool is not installed.
    Unavailable,
    /// The tool failed, with its message.
    Other(String),
}

impl TailscaleError {
    pub open spec fn message_spec(&self) -> Seq<char> {
        match self {
            TailscaleError::Unavailable => "tailscale_unavailable: install from https://tailscale.com/download"@,
            TailscaleError::Other(m) => m@,
        }
    }

    /// The human-readable text of the error.
    pub fn message(&self) -> (s: String)
        ensures
            s@ == self.message_spec(),
    {
        match self {
            TailscaleError::Unavailable => "tailscale_unavailable: install from https://tailscale.com/download".to_owned(),
            TailscaleError::Other(m) => m.clone(),
        }
    }
}

/// How an app ended up exposed.
#[derive(Debug)]
pub struct ExposeResult {
    pub mode: ExposeMode,
    pub url: Option<String>,
}

/// The path an app is served under: `/` when none is given.
pub open spec fn serve_path(path: Seq<char>) -> Seq<char> {
    if path.len() == 0 {
        "/"@
    } else {
        path
    }
}

/// The texts of a list of command lines.
pub open spec fn command_texts(commands: Seq<Vec<String>>) -> Seq<Seq<Seq<char>>> {
    commands.map_values(|c: Vec<String>| c@.map_values(|w: String| w@))
}

/// The `tailscale` invocations that expose an app's `port` in `mode`: off
/// resets serve and funnel; serve proxies HTTPS on 443 under the path to the
/// app's loopback port; funnel opens the port to the internet.
pub open spec fn expose_commands_spec(port: u16, mode: ExposeMode, path: Seq<char>) -> Seq<Seq<Seq<char>>> {
    match mode {
        ExposeMode::Off => seq![seq!["serve"@, "reset"@], seq!["funnel"@, "reset"@]],
        ExposeMode::Serve => seq![
            seq![
                "serve"@,
                "--bg"@,
                "--https=443"@,
                serve_path(path) + "="@ + "http://127.0.0.1:"@ + decimal_text(port as nat),
            ],
        ],
        ExposeMode::Funnel => seq![seq!["funnel"@, "--bg"@, decimal_text(port as nat)]],
    }
}

/// What exposing an app runs.
#[derive(Debug)]
pub struct ExposePlan {
    /// The `tailscale` argument lists, in order.
    pub commands: Vec<Vec<String>>,
    /// A failing command aborts the exposure (when false, failures are ignored).
    pub fail_on_error: bool,
    /// The serve status is read afterwards to find the public address.
    pub read_status: bool,
}

/// Plans the exposure of an app's `port` in `mode` under `path`.
pub fn expose_plan(port: u16, mode: ExposeMode, path: &str) -> (r: ExposePlan)
    ensures
        command_texts(r.commands@) == expose_commands_spec(port, mode, path@),
        r.fail_on_error == (mode != ExposeMode::Off),
        r.read_status == (mode != ExposeMode::Off),
{
    match mode {
        ExposeMode::Off => {
            let a = vec!["serve".to_owned(), "reset".to_owned()];
            let b = vec!["funnel".to_owned(), "reset".to_owned()];
            let ghost av = a@.map_values(|w: String| w@);
            let ghost bv = b@.map_values(|w: String| w@);
            assert(av =~= seq!["serve"@, "reset"@]);
            assert(bv =~= seq!["funnel"@, "reset"@]);
            let commands = vec![a, b];
            assert(command_texts(commands@) =~= seq![av, bv]);
            ExposePlan { commands, fail_on_error: false, read_status: false }
        },
        ExposeMode::Serve => {
            let p = if path.is_empty() {
                "/"
            } else {
                path
            };
            proof {
                if path@.len() != 0 {
                    assert(p@ == path@);
                }
            }
            let digits = decimal_string(port);
            let mapping = p.to_owned().concat("=").concat("http://127.0.0.1:").concat(digits.as_str());
            let a = vec!["serve".to_owned(), "--bg".to_owned(), "--https=443".to_owned(), mapping];
            let ghost av = a@.map_values(|w: String| w@);
            assert(av =~= seq![
                "serve"@,
                "--bg"@,
                "--https=443"@,
                serve_path(path@) + "="@ + "http://127.0.0.1:"@ + decimal_text(port as nat),
            ]);
            let commands = vec![a];
            assert(command_texts(commands@) =~= seq![av]);
            ExposePlan { commands, fail_on_error: true, read_status: true }
        },
        ExposeMode::Funnel => {
            let a = vec!["funnel".to_owned(), "--bg".to_owned(), decimal_string(port)];
            let ghost av = a@.map_values(|w: String| w@);
            assert(av =~= seq!["funnel"@, "--bg"@, decimal_text(port as nat)]);
            let commands = vec![a];
            assert(command_texts(commands@) =~= seq![av]);
            ExposePlan { commands, fail_on_error: true, read_status: true }
        },
    }
}

/// The address an exposure ends at: none when off; for serve the address
/// read from the status, else `https://localhost` with the serve path; for
/// funnel the address read from the status, if any.
pub open spec fn expose_url_spec(mode: ExposeMode, path: Seq<char>, scraped: Option<Seq<char>>) -> Option<
    Seq<char>,
> {
    match mode {
        ExposeMode::Off => None,
        ExposeMode::Serve => match scraped {
            Some(u) => Some(u),
            None => Some("https://localhost"@ + serve_path(path)),
        },
        ExposeMode::Funnel => scraped,
    }
}

/// The result of exposing an app in `mode` under `path`, given the address
/// read from the serve status (if one was read and found).
pub fn expose_outcome(mode: ExposeMode, path: &str, scraped: Option<String>) -> (r: ExposeResult)
    ensures
        r.mode == mode,
        match r.url {
            Some(u) => expose_url_spec(
                mode,
                path@,
                match scraped {
                    Some(s) => Some(s@),
                    None => None,
                },
            ) == Some(u@),
            None => expose_url_spec(
                mode,
                path@,
                match scraped {
                    Some(s) => Some(s@),
                    None => None,
                },
            ) is None,
        },
{
    match mode {
        ExposeMode::Off => ExposeResult { mode, url: None },
        ExposeMode::Serve => {
            let url = match scraped {
                Some(u) => u,
                None => {
                    let p = if path.is_empty() {
                        "/"
                    } else {
                        path
                    };
                    proof {
                        if path@.len() != 0 {
                            assert(p@ == path@);
                        }
                    }
                    "https://localhost".to_owned().concat(p)
                },
            };
            ExposeResult { mode, url: Some(url) }
        },
        ExposeMode::Funnel => ExposeResult { mode, url: scraped },
    }
}

/// The outcome of one `tailscale` run: its output when it succeeded, else
/// its error output, trimmed.
pub fn run_outcome(success: bool, stdout: String, stderr: &str) -> (r: Result<String, TailscaleError>)
    ensures
        success ==> r == Ok::<String, TailscaleError>(stdout),
        !success ==> (r matches Err(TailscaleError::Other(m)) && m@ == trim_spec(stderr@)),
{
    if success {
        Ok(stdout)
    } else {
        let t = trim_chars(&chars_of(stderr));
        Err(TailscaleError::Other(string_from_chars(&t)))
    }
}

/// The path `which` printed for a tool, if it found one: the trimmed output
/// of a successful run, when not empty.
pub fn which_outcome(success: bool, stdout: &str) -> (r: Option<String>)
    ensures
        success && trim_spec(stdout@).len() > 0 ==> (r matches Some(p) && p@ == trim_spec(stdout@)),
        !(success && trim_spec(stdout@).len() > 0) ==> r is None,
{
    if !success {
        return None;
    }
    let t = trim_chars(&chars_of(stdout));
    if t.len() == 0 {
        None
    } else {
        Some(string_from_chars(&t))
    }
}

/// Length of the run of non-space characters at the start of `t`.
pub open spec fn word_len(t: Seq<char>) -> nat
    decreases t.len(),
{
    if t.len() == 0 || is_space(t[0]) {
        0
    } else {
        1 + word_len(t.drop_first())
    }
}

proof fn lemma_word_len(t: Seq<char>, k: int)
    requires
        0 <= k <= t.len(),
        forall|i: int| 0 <= i < k ==> !is_space(t[i]),
        k == t.len() || is_space(t[k]),
    ensures
        word_len(t) == k,
    decreases k,
{
    if k > 0 {
        lemma_word_len(t.drop_first(), k - 1);
    }
}

/// The first index at which `needle` occurs in `s`.
pub open spec fn first_occurrence(s: Seq<char>, needle: Seq<char>) -> int {
    choose|at: int| occurs_at(s, needle, at) && forall|b: int| 0 <= b < at ==> !occurs_at(s, needle, b)
}

/// The address found in the lines of a serve status: in the first line
/// that mentions `https://`, the word starting there.
pub open spec fn line_url(out: Seq<char>) -> Option<Seq<char>> {
    match first_piece_containing(out, '\n', "https://"@) {
        Some(line) => {
            let at = first_occurrence(line, "https://"@);
            Some(line.skip(at).take(word_len(line.skip(at)) as int))
        },
        None => None,
    }
}

/// The address read from a serve status `out`, given the status re-printed
/// compactly when it is JSON: the first quoted string that starts with
/// `https://`; else the address found in the lines of `out`.
pub open spec fn serve_url_spec(out: Seq<char>, compact: Option<Seq<char>>) -> Option<Seq<char>> {
    match compact {
        Some(c) => match first_piece_with_prefix(c, '"', "https://"@) {
            Some(t) => Some(t),
            None => line_url(out),
        },
        None => line_url(out),
    }
}

/// The compact JSON text that `serde_json` prints for `text` once parsed as
/// a JSON value; none when `text` is not JSON.
pub uninterp spec fn json_compact(text: Seq<char>) -> Option<Seq<char>>;

/// Parses `text` as a `serde_json::Value` and prints it back
/// (`Value::to_string`); the outcome is `json_compact` of the text.
#[verifier::external_body]
fn compact_json(text: &str) -> (r: Option<String>)
    ensures
        match r {
            Some(c) => json_compact(text@) == Some(c@),
            None => json_compact(text@) is None,
        },
{
    match serde_json::from_str::<serde_json::Value>(text) {
        Ok(v) => Some(v.to_string()),
        Err(_) => None,
    }
}

fn url_in_lines(out: &Vec<char>) -> (r: Option<String>)
    ensures
        match line_url(out@) {
            Some(u) => r matches Some(s) && s@ == u,
            None => r is None,
        },
{
    let needle = chars_of("https://");
    proof {
        crate::text::lemma_piece_containing(out@, '\n', needle@);
    }
    match find_piece_containing(out, '\n', &needle) {
        None => None,
        Some(line) => {
            let at = match find_chars(&line, &needle) {
                Some(a) => a,
                None => {
                    return None;
                },
            };
            proof {
                let c = first_occurrence(line@, needle@);
                assert(occurs_at(line@, needle@, at as int));
                assert(occurs_at(line@, needle@, c) && forall|b: int|
                    0 <= b < c ==> !occurs_at(line@, needle@, b));
                if c < at {
                } else if c > at {
                }
                assert(c == at);
            }
            let n = line.len();
            let mut e = at;
            while e < n && !is_space_char(line[e])
                invariant
                    n == line@.len(),
                    at <= e <= n,
                    forall|i: int| at <= i < e ==> !is_space(line@[i]),
                decreases n - e,
            {
                e = e + 1;
            }
            let ghost rest = line@.skip(at as int);
            proof {
                assert forall|i: int| 0 <= i < e - at implies !is_space(rest[i]) by {
                    assert(rest[i] == line@[at + i]);
                }
                if e < n {
                    assert(rest[e - at] == line@[e as int]);
                }
                lemma_word_len(rest, e - at);
            }
            let mut word: Vec<char> = Vec::new();
            let mut j = at;
            while j < e
                invariant
                    n == line@.len(),
                    at <= j <= e <= n,
                    word@ == line@.subrange(at as int, j as int),
                decreases e - j,
            {
                word.push(line[j]);
                assert(line@.subrange(at as int, j + 1) =~= line@.subrange(at as int, j as int).push(
                    line@[j as int],
                ));
                j = j + 1;
            }
            assert(word@ =~= rest.take(e - at));
            Some(string_from_chars(&word))
        },
    }
}

/// The address in a serve status `out`, given its compact JSON form when it
/// is JSON.
pub fn serve_url_from(out: &str, compact: Option<&str>) -> (r: Option<String>)
    ensures
        match serve_url_spec(
            out@,
            match compact {
                Some(c) => Some(c@),
                None => None,
            },
        ) {
            Some(u) => r matches Some(s) && s@ == u,
            None => r is None,
        },
{
    let o = chars_of(out);
    match compact {
        Some(c) => {
            let cv = chars_of(c);
            let prefix = chars_of("https://");
            match find_piece_with_prefix(&cv, '"', &prefix) {
                Some(t) => Some(string_from_chars(&t)),
                None => url_in_lines(&o),
            }
        },
        None => url_in_lines(&o),
    }
}

/// The address in the output of `tailscale serve status --json`.
pub fn serve_url_from_status(out: &str) -> (r: Option<String>)
    ensures
        match serve_url_spec(out@, json_compact(out@)) {
            Some(u) => r matches Some(s) && s@ == u,
            None => r is None,
        },
{
    match compact_json(out) {
        Some(c) => serve_url_from(out, Some(c.as_str())),
        None => serve_url_from(out, None),
    }
}

/// The exposure mode named `s`.
pub open spec fn expose_mode_spec(s: Seq<char>) -> Option<ExposeMode> {
    if s == "off"@ {
        Some(ExposeMode::Off)
    } else if s == "serve"@ {
        Some(ExposeMode::Serve)
    } else if s == "funnel"@ {
        Some(ExposeMode::Funnel)
    } else {
        None
    }
}

/// Why a request to expose an app was refused.
#[derive(Debug)]
pub enum ExposeRequestError {
    /// The app declares no primary port.
    NoPrimaryPort,
    /// The mode is not `off`, `serve` or `funnel`.
    UnknownMode(String),
}

/// What an exposure request for `app` in mode `mode` resolves to: the app's
/// primary port, the mode, and the path (the configured one, `/` by
/// default). A missing port is reported before an unknown mode.
pub fn expose_request(app: &AppConfig, mode: &str) -> (r: Result<(u16, ExposeMode, String), ExposeRequestError>)
    ensures
        match app.ports {
            Some(p) if p.primary is Some => match expose_mode_spec(mode@) {
                Some(m) => r matches Ok(t) && t.0 == p.primary->0 && t.1 == m && t.2@ == match app.expose {
                    Some(e) => e.path@,
                    None => "/"@,
                },
                None => r matches Err(ExposeRequestError::UnknownMode(s)) && s@ == mode@,
            },
            _ => r matches Err(ExposeRequestError::NoPrimaryPort),
        },
{
    let port = match &app.ports {
        Some(p) => match p.primary {
            Some(x) => x,
            None => {
                return Err(ExposeRequestError::NoPrimaryPort);
            },
        },
        None => {
            return Err(ExposeRequestError::NoPrimaryPort);
        },
    };
    let path = match &app.expose {
        Some(e) => e.path.clone(),
        None => "/".to_owned(),
    };
    let m = if crate::text::str_equal(mode, "off") {
        ExposeMode::Off
    } else if crate::text::str_equal(mode, "serve") {
        ExposeMode::Serve
    } else if crate::text::str_equal(mode, "funnel") {
        ExposeMode::Funnel
    } else {
        return Err(ExposeRequestError::UnknownMode(mode.to_owned()));
    };
    Ok((port, m, path))
}


/// Law (exposure address): exposing with funnel reports exactly the address
/// read from the serve status (none when none was found); serve reports the
/// address read when there is one, else the local HTTPS address of the
/// path; turning exposure off reports none.
pub proof fn lemma_expose_url_by_mode(path: Seq<char>, scraped: Option<Seq<char>>)
    ensures
        expose_url_spec(ExposeMode::Funnel, path, scraped) == scraped,
        scraped matches Some(u) ==> expose_url_spec(ExposeMode::Serve, path, scraped) == Some(u),
        scraped is None ==> expose_url_spec(ExposeMode::Serve, path, scraped) == Some(
            "https://localhost"@ + serve_path(path),
        ),
        expose_url_spec(ExposeMode::Off, path, scraped) is None,
{
}

} // verus!
