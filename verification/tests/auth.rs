use forkd::auth::{constant_time_eq, require_token, AuthConfig, Verdict};

#[test]
fn matching_tokens_eq() {
    assert!(constant_time_eq(b"abc", b"abc"));
    assert!(constant_time_eq(b"", b""));
}

#[test]
fn different_tokens_not_eq() {
    assert!(!constant_time_eq(b"abc", b"abd"));
    assert!(!constant_time_eq(b"abc", b"abcd"));
    assert!(!constant_time_eq(b"abcd", b"abc"));
}

#[test]
fn presented_prefix_of_expected_rejected() {
    assert!(!constant_time_eq(b"abc", b"abcdef"));
    assert!(!constant_time_eq(b"", b"x"));
}

#[test]
fn presented_longer_than_expected_rejected() {
    assert!(!constant_time_eq(b"abcdef", b"abc"));
    assert!(!constant_time_eq(b"x", b""));
}

#[test]
fn all_zero_padding_doesnt_accidentally_match() {
    assert!(!constant_time_eq(b"ab", b"ab\x00\x00"));
    assert!(!constant_time_eq(b"", b"\x00\x00"));
}

#[test]
fn health_checks_and_open_guards_let_through() {
    let closed = AuthConfig::with_token("sesame");
    assert_eq!(require_token(&closed, "/healthz", None), Verdict::Forward);
    assert_eq!(require_token(&AuthConfig::open(), "/v1/snapshots", None), Verdict::Forward);
    assert_eq!(require_token(&closed, "/healthz/", None), Verdict::MissingToken);
}

#[test]
fn only_the_token_opens() {
    let cfg = AuthConfig::with_token(String::from("sesame"));
    let ask = |h: Option<&str>| require_token(&cfg, "/v1/snapshots", h);
    assert_eq!(ask(Some("Bearer sesame")), Verdict::Forward);
    assert_eq!(ask(Some("Bearer \t sesame  \u{a0}")), Verdict::Forward);
    assert_eq!(ask(Some("Bearer sesam")), Verdict::InvalidToken);
    assert_eq!(ask(Some("Bearer sesame!")), Verdict::InvalidToken);
    assert_eq!(ask(Some("bearer sesame")), Verdict::MissingToken);
    assert_eq!(ask(Some("Basic sesame")), Verdict::MissingToken);
    assert_eq!(ask(Some("Bearer")), Verdict::MissingToken);
    assert_eq!(ask(Some("Bearer   ")), Verdict::MissingToken);
    assert_eq!(ask(Some("")), Verdict::MissingToken);
    assert_eq!(ask(None), Verdict::MissingToken);
}

#[test]
fn empty_token_opens_to_nobody() {
    let cfg = AuthConfig::with_token("");
    assert_eq!(require_token(&cfg, "/x", Some("Bearer ")), Verdict::MissingToken);
    assert_eq!(require_token(&cfg, "/x", Some("Bearer a")), Verdict::InvalidToken);
}

#[test]
fn verdicts_are_answered() {
    assert_eq!(Verdict::Forward.status(), None);
    assert_eq!(Verdict::MissingToken.status(), Some(401));
    assert_eq!(Verdict::MissingToken.message(), "missing bearer token");
    assert_eq!(Verdict::InvalidToken.status(), Some(401));
    assert_eq!(Verdict::InvalidToken.message(), "invalid bearer token");
    assert_eq!(Verdict::Forward.message(), "");
}

#[test]
fn white_space_is_that_of_std() {
    for code in 0..=0x3100u32 {
        let Some(c) = char::from_u32(code) else { continue };
        let cfg = AuthConfig::with_token("t");
        let header = format!("Bearer {c}t{c}");
        let expected = if c.is_whitespace() { Verdict::Forward } else { Verdict::InvalidToken };
        assert_eq!(require_token(&cfg, "/x", Some(&header)), expected, "U+{code:04X}");
    }
}
