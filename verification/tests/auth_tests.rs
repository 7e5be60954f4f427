use hovel::auth::authenticate;
use hovel::auth::authenticate_final;
use hovel::auth::authenticate_offered;
use hovel::auth::authenticate_password;
use hovel::auth::parse_credential_key;
use hovel::auth::AuthDecision;
use hovel::dispatcher::SessionDispatcher;
use hovel::dispatcher::SessionState;
use hovel::identity::IdentityStore;

#[test]
fn parser_extracts_middle_field() {
    let key = parse_credential_key(b"ssh-ed25519 AAAAC3 user@host");
    assert_eq!(key, Some(b"AAAAC3".to_vec()));
}

#[test]
fn parser_tolerates_surrounding_whitespace() {
    let key = parse_credential_key(b"   ssh-ed25519 \t AAAAC3 \r\n user@host  \n");
    assert_eq!(key, Some(b"AAAAC3".to_vec()));
}

#[test]
fn parser_tolerates_absent_comment() {
    let key = parse_credential_key(b"ssh-ed25519 AAAAC3");
    assert_eq!(key, Some(b"AAAAC3".to_vec()));
    let key = parse_credential_key(b"  ssh-ed25519   AAAAC3  ");
    assert_eq!(key, Some(b"AAAAC3".to_vec()));
}

#[test]
fn parser_tolerates_extra_fields() {
    let key = parse_credential_key(b"ssh-ed25519 AAAAC3 user@host extra words");
    assert_eq!(key, Some(b"AAAAC3".to_vec()));
}

#[test]
fn parser_rejects_single_field() {
    assert_eq!(parse_credential_key(b"ssh-ed25519"), None);
    assert_eq!(parse_credential_key(b"  ssh-ed25519  "), None);
}

#[test]
fn parser_rejects_empty_input() {
    assert_eq!(parse_credential_key(b""), None);
    assert_eq!(parse_credential_key(b"   \t \r\n "), None);
}

fn store_with_one_credential() -> (IdentityStore, u64) {
    let mut store = IdentityStore::new();
    let account = store
        .create_account("brian".to_string(), "norm@norm.com".to_string())
        .unwrap();
    store
        .add_credential(account, b"ssh-ed25519 AAAAC3 user@host")
        .unwrap();
    (store, account)
}

#[test]
fn registered_credential_is_accepted() {
    let (store, _) = store_with_one_credential();
    let d = authenticate(&store, b"ssh-ed25519 AAAAC3 user@host");
    assert_eq!(d, AuthDecision::Accept);
}

#[test]
fn absent_credential_is_rejected() {
    let (store, _) = store_with_one_credential();
    let d = authenticate(&store, b"ssh-ed25519 BBBB user@host");
    assert_eq!(d, AuthDecision::Reject);
}

#[test]
fn malformed_credential_is_rejected_like_an_absent_one() {
    let (store, _) = store_with_one_credential();
    assert_eq!(authenticate(&store, b"garbage"), AuthDecision::Reject);
    assert_eq!(authenticate(&store, b""), AuthDecision::Reject);
}

#[test]
fn offered_and_final_phases_decide_identically() {
    let (store, _) = store_with_one_credential();
    for raw in [
        &b"ssh-ed25519 AAAAC3 user@host"[..],
        &b"ssh-ed25519 BBBB user@host"[..],
        &b"malformed"[..],
        &b""[..],
    ] {
        let offered = authenticate_offered(&store, "git", raw);
        let fin = authenticate_final(&store, "git", raw);
        assert_eq!(offered, fin);
        assert_eq!(offered, authenticate(&store, raw));
    }
}

#[test]
fn password_attempts_are_always_unsupported() {
    let d = authenticate_password("root", "hunter2");
    assert_eq!(d, AuthDecision::Unsupported);
}

#[test]
fn registered_credential_authenticates_a_session() {
    let (store, _) = store_with_one_credential();
    let mut session = SessionDispatcher::new(1);
    assert_eq!(session.current_state(), SessionState::Connected);
    let d = session.on_auth_offered(&store, "u1", b"  ssh-ed25519   AAAAC3   user@host ");
    assert_eq!(d, AuthDecision::Accept);
    assert_eq!(session.current_state(), SessionState::Authenticated);
}

#[test]
fn unregistered_credential_leaves_the_session_unauthenticated() {
    let (store, _) = store_with_one_credential();
    let mut session = SessionDispatcher::new(1);
    let d = session.on_auth_offered(&store, "u1", b"ssh-ed25519 BBBB user@host");
    assert_eq!(d, AuthDecision::Reject);
    assert_eq!(session.current_state(), SessionState::Authenticating);
}
