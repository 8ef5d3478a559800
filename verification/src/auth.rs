//! Who may talk to the daemon: the pairing token, device tokens handed out
//! by pairing, and short-lived bootstrap tokens used to pair a new device.

use vstd::prelude::*;
use crate::supervisor::SupervisorError;
use crate::text::{chars_of, chars_have_prefix, has_prefix, listed, opt_text, str_equal, string_from_chars, texts};

verus! {

/// An instant in UTC: seconds since the Unix epoch, and nanoseconds within
/// that second (above a billion during a leap second).
#[derive(Debug, Clone, Copy, PartialEq, Eq, Structural)]
pub struct UtcTime {
    pub secs: i64,
    pub nanos: u32,
}

/// `a` comes strictly after `b`.
pub open spec fn later_than(a: UtcTime, b: UtcTime) -> bool {
    a.secs > b.secs || (a.secs == b.secs && a.nanos > b.nanos)
}

/// Whether `a` comes strictly after `b`.
pub fn is_later(a: UtcTime, b: UtcTime) -> (r: bool)
    ensures
        r == later_than(a, b),
{
    a.secs > b.secs || (a.secs == b.secs && a.nanos > b.nanos)
}

/// Seconds in the lifetime of a bootstrap token.
pub const BOOTSTRAP_LIFETIME_SECS: i64 = 300;

/// The current time (`chrono::Utc::now`), as seconds and nanoseconds. The
/// claim is what chrono's representation bounds: dates stay within about
/// 262 000 years of year zero, and the sub-second part below two billion.
#[verifier::external_body]
fn now() -> (t: UtcTime)
    ensures
        -10_000_000_000_000 < t.secs < 10_000_000_000_000,
        t.nanos < 2_000_000_000,
{
    let t = chrono::Utc::now();
    UtcTime { secs: t.timestamp(), nanos: t.timestamp_subsec_nanos() }
}

/// A lower-case hexadecimal digit.
pub open spec fn is_hex_digit(c: char) -> bool {
    ('0' <= c && c <= '9') || ('a' <= c && c <= 'f')
}

/// Text in the form `uuid` writes: 36 characters, hyphens at positions 8,
/// 13, 18 and 23, lower-case hex digits elsewhere.
pub open spec fn is_uuid_text(s: Seq<char>) -> bool {
    &&& s.len() == 36
    &&& forall|i: int|
        0 <= i < 36 ==> if i == 8 || i == 13 || i == 18 || i == 23 {
            s[i] == '-'
        } else {
            is_hex_digit(#[trigger] s[i])
        }
}

/// The text of a random (version 4) UUID, as `uuid` writes it: 36
/// characters, hyphens at positions 8, 13, 18 and 23, lower-case hex digits
/// elsewhere. The value is random, so nothing more is claimed.
#[verifier::external_body]
fn fresh_token() -> (r: String)
    ensures
        is_uuid_text(r@),
{
    uuid::Uuid::new_v4().to_string()
}

/// The machine's host name (`hostname::get`), when it can be read and is
/// valid Unicode. It depends on the machine, so nothing is claimed of it.
#[verifier::external_body]
fn host_name() -> (r: Option<String>) {
    match hostname::get() {
        Ok(h) => h.into_string().ok(),
        Err(_) => None,
    }
}

/// A pairing session opened for a new device.
#[derive(Debug)]
pub struct BootstrapSession {
    pub token: String,
    pub expires_at: UtcTime,
    pub base_url: String,
    pub host_name: String,
}

impl BootstrapSession {
    /// A copy of the session.
    pub fn duplicate(&self) -> (r: BootstrapSession)
        ensures
            r.token@ == self.token@,
            r.expires_at == self.expires_at,
            r.base_url@ == self.base_url@,
            r.host_name@ == self.host_name@,
    {
        BootstrapSession {
            token: self.token.clone(),
            expires_at: self.expires_at,
            base_url: self.base_url.clone(),
            host_name: self.host_name.clone(),
        }
    }
}

/// A device that completed pairing, with the token it uses from then on.
#[derive(Debug)]
pub struct DeviceToken {
    pub name: String,
    pub token: String,
    pub created_at: UtcTime,
}

/// The token carried by an `Authorization` header: the text after
/// `Bearer `, or the whole header without that prefix.
pub open spec fn bearer_token_spec(header: Seq<char>) -> Seq<char> {
    if has_prefix(header, "Bearer "@) {
        header.skip("Bearer "@.len() as int)
    } else {
        header
    }
}

/// Extracts the token from an `Authorization` header.
pub fn bearer_token(header: &str) -> (r: String)
    ensures
        r@ == bearer_token_spec(header@),
{
    let h = chars_of(header);
    let prefix = chars_of("Bearer ");
    if chars_have_prefix(&h, &prefix) {
        let k = prefix.len();
        let n = h.len();
        let mut rest: Vec<char> = Vec::new();
        for i in k..n
            invariant
                n == h@.len(),
                k <= n,
                rest@ == h@.subrange(k as int, i as int),
        {
            rest.push(h[i]);
            assert(h@.subrange(k as int, i + 1) =~= h@.subrange(k as int, i as int).push(h@[i as int]));
        }
        assert(h@.subrange(k as int, n as int) =~= h@.skip(k as int));
        string_from_chars(&rest)
    } else {
        header.to_owned()
    }
}

/// A bootstrap session that accepts `token` at time `now`: the tokens match
/// and the session has not expired.
pub open spec fn bootstrap_accepts(session: Option<BootstrapSession>, token: Seq<char>, now: UtcTime) -> bool {
    session matches Some(s) && s.token@ == token && later_than(s.expires_at, now)
}

/// Whether an `Authorization` header is accepted at time `now`: it must
/// carry the pairing token, a paired device's token, or the token of a
/// bootstrap session that has not expired.
pub open spec fn header_accepted(
    header: Option<Seq<char>>,
    pairing_token: Seq<char>,
    device_tokens: Seq<Seq<char>>,
    bootstrap: Option<BootstrapSession>,
    now: UtcTime,
) -> bool {
    match header {
        None => false,
        Some(h) => {
            let t = bearer_token_spec(h);
            t == pairing_token || device_tokens.contains(t) || bootstrap_accepts(bootstrap, t, now)
        },
    }
}

/// Whether the bootstrap session accepts `token` at time `now`.
pub fn bootstrap_valid(session: &Option<BootstrapSession>, token: &str, now: UtcTime) -> (r: bool)
    ensures
        r == bootstrap_accepts(*session, token@, now),
{
    match session {
        Some(s) => str_equal(s.token.as_str(), token) && is_later(s.expires_at, now),
        None => false,
    }
}

/// Decides whether a request's `Authorization` header is accepted at `now`.
pub fn header_accepted_at(
    header: Option<&str>,
    pairing_token: &str,
    device_tokens: &Vec<String>,
    bootstrap: &Option<BootstrapSession>,
    now: UtcTime,
) -> (r: bool)
    ensures
        r == header_accepted(
            match header {
                Some(h) => Some(h@),
                None => None,
            },
            pairing_token@,
            device_tokens@.map_values(|s: String| s@),
            *bootstrap,
            now,
        ),
{
    match header {
        None => false,
        Some(h) => {
            let t = bearer_token(h);
            if str_equal(t.as_str(), pairing_token) {
                return true;
            }
            if listed(device_tokens, t.as_str()) {
                return true;
            }
            bootstrap_valid(bootstrap, t.as_str(), now)
        },
    }
}

/// A bootstrap session opened at `now` with token `token`: it expires five
/// minutes later, and names the host (`piercast` when unknown).
pub fn bootstrap_session(token: String, now: UtcTime, base_url: &str, host: Option<String>) -> (r:
    BootstrapSession)
    requires
        now.secs <= i64::MAX - BOOTSTRAP_LIFETIME_SECS,
    ensures
        r.token@ == token@,
        r.expires_at.secs == now.secs + BOOTSTRAP_LIFETIME_SECS,
        r.expires_at.nanos == now.nanos,
        r.base_url@ == base_url@,
        r.host_name@ == match host {
            Some(h) => h@,
            None => "piercast"@,
        },
{
    let host_name = match host {
        Some(h) => h,
        None => "piercast".to_owned(),
    };
    BootstrapSession {
        token,
        expires_at: UtcTime { secs: now.secs + BOOTSTRAP_LIFETIME_SECS, nanos: now.nanos },
        base_url: base_url.to_owned(),
        host_name,
    }
}

/// The daemon's credentials: its pairing token and the pairing session in
/// progress, if any.
#[derive(Debug)]
pub struct AuthState {
    pub pairing_token: String,
    pub bootstrap: Option<BootstrapSession>,
}

impl AuthState {
    pub fn new(pairing_token: String) -> (r: AuthState)
        ensures
            r.pairing_token@ == pairing_token@,
            r.bootstrap is None,
    {
        AuthState { pairing_token, bootstrap: None }
    }

    /// The pairing token.
    pub fn auth_token(&self) -> (r: String)
        ensures
            r@ == self.pairing_token@,
    {
        self.pairing_token.clone()
    }

    /// Whether a request's `Authorization` header is accepted now.
    /// `device_tokens` are the tokens of the paired devices. Without a header
    /// the answer is no; the pairing token and device tokens are accepted at
    /// any time; a bootstrap token only before its session expires.
    pub fn validate_bearer(&self, header: Option<&str>, device_tokens: &Vec<String>) -> (r: bool)
        ensures
            exists|t: UtcTime|
                r == #[trigger] header_accepted(
                    opt_text(header),
                    self.pairing_token@,
                    texts(device_tokens@),
                    self.bootstrap,
                    t,
                ),
            header is None ==> !r,
            header matches Some(h) && (bearer_token_spec(h@) == self.pairing_token@
                || device_tokens@.map_values(|s: String| s@).contains(bearer_token_spec(h@))) ==> r,
    {
        let t = now();
        let r = header_accepted_at(header, self.pairing_token.as_str(), device_tokens, &self.bootstrap, t);
        assert(r == header_accepted(
            opt_text(header),
            self.pairing_token@,
            texts(device_tokens@),
            self.bootstrap,
            t,
        ));
        r
    }

    /// Opens a pairing session reachable at `base_url`, replacing any
    /// earlier one, and returns it. Its token is random and it expires five
    /// minutes after it was opened.
    pub fn pair_bootstrap(&mut self, base_url: &str) -> (r: BootstrapSession)
        ensures
            final(self).pairing_token@ == old(self).pairing_token@,
            final(self).bootstrap matches Some(s) && s.token@ == r.token@ && s.expires_at
                == r.expires_at && s.base_url@ == r.base_url@ && s.host_name@ == r.host_name@,
            r.base_url@ == base_url@,
            is_uuid_text(r.token@),
            exists|t: UtcTime|
                #[trigger] later_than(r.expires_at, t) && r.expires_at.secs == t.secs
                    + BOOTSTRAP_LIFETIME_SECS && r.expires_at.nanos == t.nanos,
    {
        let token = fresh_token();
        let host = host_name();
        let t = now();
        let session = bootstrap_session(token, t, base_url, host);
        assert(later_than(session.expires_at, t));
        self.bootstrap = Some(session.duplicate());
        session
    }

    /// Completes pairing with `bootstrap_token`: when the open session
    /// accepts it, the session is closed and a new device token is issued
    /// for `device_name`; otherwise the request is refused and nothing
    /// changes.
    pub fn pair_complete(&mut self, bootstrap_token: &str, device_name: &str) -> (r: Result<
        DeviceToken,
        SupervisorError,
    >)
        ensures
            final(self).pairing_token@ == old(self).pairing_token@,
            old(self).bootstrap is None ==> r is Err,
            old(self).bootstrap matches Some(s) && s.token@ != bootstrap_token@ ==> r is Err,
            match r {
                Ok(d) => final(self).bootstrap is None && d.name@ == device_name@ && is_uuid_text(d.token@)
                    && exists|t: UtcTime| #[trigger] bootstrap_accepts(old(self).bootstrap, bootstrap_token@, t),
                Err(e) => e matches SupervisorError::Other(m) && m@
                    == "invalid or expired bootstrap token"@ && final(self).bootstrap == old(
                    self,
                ).bootstrap,
            },
    {
        let t = now();
        if !bootstrap_valid(&self.bootstrap, bootstrap_token, t) {
            return Err(SupervisorError::Other("invalid or expired bootstrap token".to_owned()));
        }
        self.bootstrap = None;
        let token = fresh_token();
        let created_at = now();
        Ok(DeviceToken { name: device_name.to_owned(), token, created_at })
    }
}


/// The token that completes a pairing: the one in a `Bearer` header, else
/// the one in the request body.
pub open spec fn completion_token_spec(header: Option<Seq<char>>, body_token: Seq<char>) -> Seq<char> {
    match header {
        Some(h) => if has_prefix(h, "Bearer "@) {
            h.skip("Bearer "@.len() as int)
        } else {
            body_token
        },
        None => body_token,
    }
}

/// Picks the token that completes a pairing request.
pub fn completion_token(header: Option<&str>, body_token: &str) -> (r: String)
    ensures
        r@ == completion_token_spec(opt_text(header), body_token@),
{
    match header {
        Some(h) => {
            let hv = chars_of(h);
            let prefix = chars_of("Bearer ");
            if chars_have_prefix(&hv, &prefix) {
                bearer_token(h)
            } else {
                body_token.to_owned()
            }
        },
        None => body_token.to_owned(),
    }
}

/// A client sends its token as `Bearer <token>`; the daemon reads back
/// exactly that token.
pub proof fn lemma_bearer_round_trip(token: Seq<char>)
    ensures
        bearer_token_spec("Bearer "@ + token) == token,
{
    let h = "Bearer "@ + token;
    assert(h.take("Bearer "@.len() as int) =~= "Bearer "@);
    assert(h.skip("Bearer "@.len() as int) =~= token);
}

/// With no pairing session open (as after a completed pairing), a header is
/// accepted exactly when it carries the pairing token or a device token,
/// whatever the time.
pub proof fn lemma_without_session(
    header: Option<Seq<char>>,
    pairing_token: Seq<char>,
    device_tokens: Seq<Seq<char>>,
    now: UtcTime,
)
    ensures
        header_accepted(header, pairing_token, device_tokens, None, now) == (header matches Some(h)
            && (bearer_token_spec(h) == pairing_token || device_tokens.contains(bearer_token_spec(h)))),
{
}

/// A bootstrap token opened at `opened` works for five minutes: it is
/// accepted exactly at the instants before `opened` plus 300 seconds.
pub proof fn lemma_bootstrap_window(session: BootstrapSession, opened: UtcTime, now: UtcTime)
    requires
        session.expires_at.secs == opened.secs + BOOTSTRAP_LIFETIME_SECS,
        session.expires_at.nanos == opened.nanos,
    ensures
        bootstrap_accepts(Some(session), session.token@, now) == (now.secs < opened.secs
            + BOOTSTRAP_LIFETIME_SECS || (now.secs == opened.secs + BOOTSTRAP_LIFETIME_SECS
            && now.nanos < opened.nanos)),
        bootstrap_accepts(Some(session), session.token@, opened),
{
}


/// Law (pairing session): a bootstrap token that is neither the pairing
/// token nor a device token authorizes requests exactly while its session is
/// open and has not expired.
pub proof fn lemma_session_token_accepted(
    pairing_token: Seq<char>,
    device_tokens: Seq<Seq<char>>,
    session: BootstrapSession,
    now: UtcTime,
)
    requires
        session.token@ != pairing_token,
        !device_tokens.contains(session.token@),
    ensures
        header_accepted(
            Some("Bearer "@ + session.token@),
            pairing_token,
            device_tokens,
            Some(session),
            now,
        ) == later_than(session.expires_at, now),
        !header_accepted(Some("Bearer "@ + session.token@), pairing_token, device_tokens, None, now),
{
    lemma_bearer_round_trip(session.token@);
}

/// Law (paired devices): a device token on the list of paired devices
/// authorizes requests at any time, whatever the pairing session.
pub proof fn lemma_device_token_accepted(
    token: Seq<char>,
    pairing_token: Seq<char>,
    device_tokens: Seq<Seq<char>>,
    bootstrap: Option<BootstrapSession>,
    now: UtcTime,
)
    requires
        device_tokens.contains(token),
    ensures
        header_accepted(Some("Bearer "@ + token), pairing_token, device_tokens, bootstrap, now),
{
    lemma_bearer_round_trip(token);
}

} // verus!
