//! Files kept in the data directory, and the control-plane port setting.

use vstd::prelude::*;
use crate::text::{chars_of, opt_text};

verus! {

/// `name` appended to the directory `dir`, with one `/` between them.
pub open spec fn join_path(dir: Seq<char>, name: Seq<char>) -> Seq<char> {
    if dir.len() == 0 {
        name
    } else if dir.last() == '/' {
        dir + name
    } else {
        dir + "/"@ + name
    }
}

fn join(dir: &str, name: &str) -> (r: String)
    ensures
        r@ == join_path(dir@, name@),
{
    let chars = chars_of(dir);
    let n = chars.len();
    if n == 0 {
        name.to_owned()
    } else if chars[n - 1] == '/' {
        dir.to_owned().concat(name)
    } else {
        dir.to_owned().concat("/").concat(name)
    }
}

/// The daemon's local socket.
pub fn socket_path(data_dir: &str) -> (r: String)
    ensures
        r@ == join_path(data_dir@, "piercast.sock"@),
{
    join(data_dir, "piercast.sock")
}

/// The pairing file (tokens of paired devices).
pub fn pairing_path(data_dir: &str) -> (r: String)
    ensures
        r@ == join_path(data_dir@, "pairing.json"@),
{
    join(data_dir, "pairing.json")
}

/// The SQLite registry.
pub fn db_path(data_dir: &str) -> (r: String)
    ensures
        r@ == join_path(data_dir@, "registry.sqlite"@),
{
    join(data_dir, "registry.sqlite")
}

/// The lock file of the running daemon.
pub fn lock_path(data_dir: &str) -> (r: String)
    ensures
        r@ == join_path(data_dir@, "piercast.lock"@),
{
    join(data_dir, "piercast.lock")
}

/// Port of the HTTP control plane when none is configured.
pub const DEFAULT_HTTP_PORT: u16 = 47923;

pub open spec fn digit_value(c: char) -> int {
    (c as int) - ('0' as int)
}

pub open spec fn is_digit(c: char) -> bool {
    '0' <= c && c <= '9'
}

/// Decimal value of a string of digits.
pub open spec fn decimal_value(s: Seq<char>) -> int
    decreases s.len(),
{
    if s.len() == 0 {
        0
    } else {
        decimal_value(s.drop_last()) * 10 + digit_value(s.last())
    }
}

/// The port written as `s`, as `u16` parsing reads it: an optional `+`, then
/// at least one decimal digit, and a value that fits in 16 bits.
pub open spec fn port_value(s: Seq<char>) -> Option<u16> {
    if port_digits(s).len() > 0 && all_digits(port_digits(s)) && decimal_value(port_digits(s))
        <= u16::MAX {
        Some(decimal_value(port_digits(s)) as u16)
    } else {
        None
    }
}

/// `s` without its leading `+`, if any.
pub open spec fn port_digits(s: Seq<char>) -> Seq<char> {
    if s.len() > 0 && s[0] == '+' {
        s.drop_first()
    } else {
        s
    }
}

pub open spec fn all_digits(s: Seq<char>) -> bool {
    forall|i: int| 0 <= i < s.len() ==> is_digit(#[trigger] s[i])
}

proof fn lemma_decimal_grows(s: Seq<char>, k: int)
    requires
        0 <= k <= s.len(),
        forall|i: int| 0 <= i < s.len() ==> is_digit(#[trigger] s[i]),
    ensures
        decimal_value(s.take(k)) <= decimal_value(s),
        0 <= decimal_value(s.take(k)),
    decreases s.len() - k,
{
    if k < s.len() {
        lemma_decimal_grows(s, k + 1);
        assert(s.take(k + 1).drop_last() =~= s.take(k));
        assert(s.take(k + 1).last() == s[k]);
    } else {
        assert(s.take(k) =~= s);
    }
    lemma_decimal_nonneg(s.take(k));
}

proof fn lemma_decimal_nonneg(s: Seq<char>)
    requires
        forall|i: int| 0 <= i < s.len() ==> is_digit(#[trigger] s[i]),
    ensures
        0 <= decimal_value(s),
    decreases s.len(),
{
    if s.len() > 0 {
        lemma_decimal_nonneg(s.drop_last());
    }
}

/// Reads a port number; `None` when `s` is not one.
pub fn parse_port(s: &str) -> (r: Option<u16>)
    ensures
        r == port_value(s@),
{
    let chars = chars_of(s);
    let n = chars.len();
    let start: usize = if n > 0 && chars[0] == '+' {
        1
    } else {
        0
    };
    let ghost digits = port_digits(s@);
    assert(digits =~= s@.subrange(start as int, n as int));
    if start == n {
        assert(digits.len() == 0);
        assert(port_value(s@) is None);
        return None;
    }
    if !digits_all(&chars, start) {
        proof {
            let j = choose|j: int| start <= j < chars@.len() && !is_digit(#[trigger] chars@[j]);
            assert(digits[j - start] == chars@[j]);
        }
        return None;
    }
    assert forall|j: int| 0 <= j < digits.len() implies is_digit(#[trigger] digits[j]) by {
        assert(digits[j] == chars@[start + j]);
    }
    let mut value: u32 = 0;
    let mut i = start;
    while i < n
        invariant
            chars@ == s@,
            n == chars@.len(),
            start <= i <= n,
            start < n,
            digits == s@.subrange(start as int, n as int),
            digits == port_digits(s@),
            forall|j: int| 0 <= j < digits.len() ==> is_digit(#[trigger] digits[j]),
            value as int == decimal_value(digits.take(i - start)),
            value <= u16::MAX,
        decreases n - i,
    {
        let c = chars[i];
        let ghost k = i - start;
        assert(digits[k] == c);
        assert(digits.take(k + 1).drop_last() =~= digits.take(k));
        assert(digits.take(k + 1).last() == c);
        let d = (c as u32) - ('0' as u32);
        assert(d as int == digit_value(c));
        let next = value * 10 + d;
        assert(next as int == decimal_value(digits.take(k + 1)));
        if next > 65535 {
            proof {
                lemma_decimal_grows(digits, k + 1);
                assert(decimal_value(digits) > u16::MAX);
                assert(port_value(s@) is None);
            }
            return None;
        }
        value = next;
        i = i + 1;
    }
    assert(digits.take(n - start) =~= digits);
    Some(value as u16)
}

/// Whether every character from position `from` on is a decimal digit.
fn digits_all(chars: &Vec<char>, from: usize) -> (r: bool)
    ensures
        r == (forall|j: int| from <= j < chars@.len() ==> is_digit(#[trigger] chars@[j])),
{
    let n = chars.len();
    let mut i = from;
    while i < n
        invariant
            n == chars@.len(),
            from <= i,
            forall|j: int| from <= j < i ==> is_digit(#[trigger] chars@[j]),
        decreases n - i,
    {
        if !('0' <= chars[i] && chars[i] <= '9') {
            return false;
        }
        i = i + 1;
    }
    true
}

/// The control-plane port: the configured value when it is a port number,
/// otherwise the default.
pub fn http_port_from(setting: Option<&str>) -> (r: u16)
    ensures
        r == match setting {
            Some(s) => match port_value(s@) {
                Some(p) => p,
                None => DEFAULT_HTTP_PORT,
            },
            None => DEFAULT_HTTP_PORT,
        },
{
    match setting {
        Some(s) => match parse_port(s) {
            Some(p) => p,
            None => DEFAULT_HTTP_PORT,
        },
        None => DEFAULT_HTTP_PORT,
    }
}


/// The user's home directory (`dirs::home_dir`), as text (converted
/// lossily). It depends on the machine and its environment, so nothing is
/// claimed of it.
#[verifier::external_body]
fn home_dir() -> (r: Option<String>) {
    match dirs::home_dir() {
        Some(p) => Some(p.to_string_lossy().into_owned()),
        None => None,
    }
}

/// The data directory: `piercast` under `$XDG_DATA_HOME` when set, else
/// under `~/.local/share`, else under `/tmp`.
pub open spec fn data_dir_spec(xdg_data_home: Option<Seq<char>>, home: Option<Seq<char>>) -> Seq<char> {
    let base = match xdg_data_home {
        Some(x) => x,
        None => match home {
            Some(h) => join_path(h, ".local/share"@),
            None => "/tmp"@,
        },
    };
    join_path(base, "piercast"@)
}

/// The data directory for the given `$XDG_DATA_HOME` and home directory.
pub fn data_dir_from(xdg_data_home: Option<&str>, home: Option<&str>) -> (r: String)
    ensures
        r@ == data_dir_spec(
            match xdg_data_home {
                Some(x) => Some(x@),
                None => None,
            },
            match home {
                Some(h) => Some(h@),
                None => None,
            },
        ),
{
    let base = match xdg_data_home {
        Some(x) => x.to_owned(),
        None => match home {
            Some(h) => join(h, ".local/share"),
            None => "/tmp".to_owned(),
        },
    };
    join(base.as_str(), "piercast")
}

/// The operating system family, which decides where the data directory is.
#[derive(Debug, Clone, Copy, PartialEq, Eq, Structural)]
pub enum Platform {
    MacOs,
    Windows,
    /// Linux and the other Unix-like systems.
    Unix,
}

/// The per-user application data directory (`dirs::data_dir`), as text
/// (converted lossily). It depends on the machine and its environment, so
/// nothing is claimed of it.
#[verifier::external_body]
fn os_data_dir() -> (r: Option<String>) {
    match dirs::data_dir() {
        Some(p) => Some(p.to_string_lossy().into_owned()),
        None => None,
    }
}

/// `name` appended to the Windows directory `dir`: no separator after an
/// empty directory, one ending in a separator, or a bare drive (`C:`);
/// otherwise a backslash between them.
pub open spec fn join_windows(dir: Seq<char>, name: Seq<char>) -> Seq<char> {
    if dir.len() == 0 || dir.last() == '\\' || dir.last() == '/' || (dir.len() == 2 && dir[1] == ':') {
        dir + name
    } else {
        dir + "\\"@ + name
    }
}

fn join_on_windows(dir: &str, name: &str) -> (r: String)
    ensures
        r@ == join_windows(dir@, name@),
{
    let chars = chars_of(dir);
    let n = chars.len();
    if n == 0 || chars[n - 1] == '\\' || chars[n - 1] == '/' || (n == 2 && chars[1] == ':') {
        dir.to_owned().concat(name)
    } else {
        dir.to_owned().concat("\\").concat(name)
    }
}

/// The data directory on `platform`: on macOS
/// `~/Library/Application Support/Piercast` (under `/tmp` without a home
/// directory); on Windows `Piercast` in the application data directory (in
/// `.` without one); elsewhere as `data_dir_spec` says.
pub open spec fn platform_data_dir_spec(
    platform: Platform,
    xdg_data_home: Option<Seq<char>>,
    home: Option<Seq<char>>,
    app_data: Option<Seq<char>>,
) -> Seq<char> {
    match platform {
        Platform::MacOs => join_path(
            match home {
                Some(h) => h,
                None => "/tmp"@,
            },
            "Library/Application Support/Piercast"@,
        ),
        Platform::Windows => join_windows(
            match app_data {
                Some(d) => d,
                None => "."@,
            },
            "Piercast"@,
        ),
        Platform::Unix => data_dir_spec(xdg_data_home, home),
    }
}

/// The data directory on `platform` for the given `$XDG_DATA_HOME`, home
/// directory and application data directory.
pub fn platform_data_dir(
    platform: Platform,
    xdg_data_home: Option<&str>,
    home: Option<&str>,
    app_data: Option<&str>,
) -> (r: String)
    ensures
        r@ == platform_data_dir_spec(platform, opt_text(xdg_data_home), opt_text(home), opt_text(app_data)),
{
    match platform {
        Platform::MacOs => {
            let base = match home {
                Some(h) => h,
                None => "/tmp",
            };
            join(base, "Library/Application Support/Piercast")
        },
        Platform::Windows => {
            let base = match app_data {
                Some(d) => d,
                None => ".",
            };
            join_on_windows(base, "Piercast")
        },
        Platform::Unix => data_dir_from(xdg_data_home, home),
    }
}

/// The default data directory on `platform`, given `$XDG_DATA_HOME` (read
/// on Unix-like systems only). The home directory is looked up on macOS,
/// and elsewhere only when `$XDG_DATA_HOME` is unset; the application data
/// directory on Windows.
pub fn default_data_dir(platform: Platform, xdg_data_home: Option<&str>) -> (r: String)
    ensures
        platform == Platform::Unix && xdg_data_home is Some ==> r@ == platform_data_dir_spec(
            platform,
            opt_text(xdg_data_home),
            None,
            None,
        ),
        exists|home: Option<Seq<char>>, app_data: Option<Seq<char>>|
            r@ == #[trigger] platform_data_dir_spec(platform, opt_text(xdg_data_home), home, app_data),
{
    match platform {
        Platform::MacOs => {
            let h = home_dir();
            let hr: Option<&str> = match &h {
                Some(x) => Some(x.as_str()),
                None => None,
            };
            let r = platform_data_dir(platform, xdg_data_home, hr, None);
            assert(r@ == platform_data_dir_spec(platform, opt_text(xdg_data_home), opt_text(hr), None));
            r
        },
        Platform::Windows => {
            let d = os_data_dir();
            let dr: Option<&str> = match &d {
                Some(x) => Some(x.as_str()),
                None => None,
            };
            let r = platform_data_dir(platform, xdg_data_home, None, dr);
            assert(r@ == platform_data_dir_spec(platform, opt_text(xdg_data_home), None, opt_text(dr)));
            r
        },
        Platform::Unix => match xdg_data_home {
            Some(_) => {
                let r = platform_data_dir(platform, xdg_data_home, None, None);
                assert(r@ == platform_data_dir_spec(platform, opt_text(xdg_data_home), None, None));
                r
            },
            None => {
                let h = home_dir();
                let hr: Option<&str> = match &h {
                    Some(x) => Some(x.as_str()),
                    None => None,
                };
                let r = platform_data_dir(platform, None, hr, None);
                assert(r@ == platform_data_dir_spec(platform, opt_text(xdg_data_home), opt_text(hr), None));
                r
            },
        },
    }
}

} // verus!
