//! Session tokens and the authentication data shapes.

use route_search::session::{make_session_token, Role, Session, SessionToken, OkRes, ErrRes, UserCreds, UserRequest};

#[test]
fn session_token_is_100_alphanumeric_chars() {
    let token = make_session_token();
    assert_eq!(token.len(), 100);
    assert!(token.chars().all(|c| c.is_ascii_alphanumeric()));
}

#[test]
fn session_tokens_differ_between_calls() {
    // 100 uniformly drawn alphanumeric characters virtually never repeat;
    // equal tokens would mean the generator ignores its randomness source.
    let a = make_session_token();
    let b = make_session_token();
    assert_ne!(a, b);
}

#[test]
fn auth_shapes_hold_their_fields() {
    let req = UserRequest { username: String::from("admin"), password: String::from("adminpass") };
    assert_eq!(req.username, "admin");
    assert_eq!(req.password, "adminpass");

    let creds = UserCreds { username: String::from("admin"), role: Role::ADMIN };
    assert_eq!(creds.username, "admin");
    assert!(matches!(creds.role, Role::ADMIN));

    let ok = OkRes { token: make_session_token(), role: Role::USER };
    assert_eq!(ok.token.len(), 100);
    assert!(matches!(ok.role, Role::USER));

    let err = ErrRes { msg: String::from("invalid login") };
    assert_eq!(err.msg, "invalid login");

    let session = Session { token: String::from("t"), username: String::from("u") };
    assert_eq!(session.token, "t");
    assert_eq!(session.username, "u");

    let st = SessionToken { token: String::from("x") };
    assert_eq!(st.token, "x");
}
