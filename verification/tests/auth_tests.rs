use piercast::auth::{
    bearer_token, bootstrap_session, bootstrap_valid, header_accepted_at, is_later, AuthState,
    BootstrapSession, UtcTime,
};
use piercast::supervisor::SupervisorError;

fn t(secs: i64, nanos: u32) -> UtcTime {
    UtcTime { secs, nanos }
}

fn session(token: &str, expires: UtcTime) -> BootstrapSession {
    BootstrapSession {
        token: token.into(),
        expires_at: expires,
        base_url: "http://127.0.0.1:47923".into(),
        host_name: "box".into(),
    }
}

#[test]
fn bearer_prefix_is_optional() {
    assert_eq!(bearer_token("Bearer abc"), "abc");
    assert_eq!(bearer_token("abc"), "abc");
    assert_eq!(bearer_token("bearer abc"), "bearer abc");
    assert_eq!(bearer_token("Bearer "), "");
}

#[test]
fn time_order() {
    assert!(is_later(t(10, 0), t(9, 999)));
    assert!(is_later(t(10, 5), t(10, 4)));
    assert!(!is_later(t(10, 4), t(10, 4)));
    assert!(!is_later(t(-1, 0), t(0, 0)));
}

#[test]
fn accepted_tokens() {
    let devices = vec!["dev-1".to_string()];
    let boot = Some(session("boot", t(100, 0)));
    assert!(!header_accepted_at(None, "pair", &devices, &boot, t(0, 0)));
    assert!(header_accepted_at(Some("Bearer pair"), "pair", &devices, &boot, t(0, 0)));
    assert!(header_accepted_at(Some("pair"), "pair", &devices, &boot, t(0, 0)));
    assert!(header_accepted_at(Some("Bearer dev-1"), "pair", &devices, &None, t(0, 0)));
    assert!(header_accepted_at(Some("Bearer boot"), "pair", &devices, &boot, t(99, 999)));
    assert!(!header_accepted_at(Some("Bearer boot"), "pair", &devices, &boot, t(100, 0)));
    assert!(!header_accepted_at(Some("Bearer other"), "pair", &devices, &boot, t(0, 0)));
}

#[test]
fn bootstrap_session_expires_after_five_minutes() {
    let s = bootstrap_session("tok".into(), t(1_000, 7), "http://h", None);
    assert_eq!(s.expires_at, t(1_300, 7));
    assert_eq!(s.host_name, "piercast");
    assert_eq!(s.base_url, "http://h");
    let s2 = bootstrap_session("tok".into(), t(0, 0), "b", Some("host".into()));
    assert_eq!(s2.host_name, "host");
    let some = Some(s);
    assert!(bootstrap_valid(&some, "tok", t(1_299, 999_999_999)));
    assert!(!bootstrap_valid(&some, "tok", t(1_300, 7)));
    assert!(!bootstrap_valid(&some, "nope", t(1_000, 7)));
    assert!(!bootstrap_valid(&None, "tok", t(0, 0)));
}

#[test]
fn pairing_flow() {
    let mut auth = AuthState::new("pair-token".into());
    assert_eq!(auth.auth_token(), "pair-token");
    assert!(auth.validate_bearer(Some("Bearer pair-token"), &vec![]));
    assert!(!auth.validate_bearer(None, &vec![]));
    match auth.pair_complete("whatever", "phone") {
        Err(SupervisorError::Other(m)) => assert_eq!(m, "invalid or expired bootstrap token"),
        other => panic!("unexpected {other:?}"),
    }
    let s = auth.pair_bootstrap("http://127.0.0.1:47923");
    assert_eq!(s.token.len(), 36);
    assert_eq!(s.base_url, "http://127.0.0.1:47923");
    let header = format!("Bearer {}", s.token);
    assert!(auth.validate_bearer(Some(&header), &vec![]));
    let device = auth.pair_complete(&s.token, "phone").unwrap();
    assert_eq!(device.name, "phone");
    assert_eq!(device.token.len(), 36);
    assert_ne!(device.token, s.token);
    assert!(auth.bootstrap.is_none());
    assert!(!auth.validate_bearer(Some(&header), &vec![]));
    assert!(auth.validate_bearer(Some(&format!("Bearer {}", device.token)), &vec![device.token.clone()]));
    assert!(auth.pair_complete(&s.token, "again").is_err());
}
