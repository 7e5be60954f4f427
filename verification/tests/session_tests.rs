use hovel::auth::AuthDecision;
use hovel::dispatcher::ConnectionCounter;
use hovel::dispatcher::SessionDispatcher;
use hovel::dispatcher::SessionState;
use hovel::errors::BrokerError;
use hovel::identity::IdentityStore;
use hovel::registry::ConnectionRegistry;

fn store_with(credential: &[u8]) -> IdentityStore {
    let mut store = IdentityStore::new();
    let account = store
        .create_account("brian".to_string(), "norm@norm.com".to_string())
        .unwrap();
    store.add_credential(account, credential).unwrap();
    store
}

fn authenticated(store: &IdentityStore, conn: u64) -> SessionDispatcher {
    let mut session = SessionDispatcher::new(conn);
    let d = session.on_auth_offered(store, "brian", b"ssh-ed25519 AAAAC3 user@host");
    assert_eq!(d, AuthDecision::Accept);
    session
}

#[test]
fn connection_ids_increase_monotonically() {
    let mut counter = ConnectionCounter::new();
    let a = counter.fresh_id();
    let b = counter.fresh_id();
    let c = counter.fresh_id();
    assert_eq!((a, b, c), (0, 1, 2));
}

#[test]
fn a_fresh_session_is_connected_and_unauthenticated() {
    let session = SessionDispatcher::new(7);
    assert_eq!(session.current_state(), SessionState::Connected);
    assert_eq!(session.connection_id(), 7);
}

#[test]
fn a_password_attempt_never_authenticates() {
    let mut session = SessionDispatcher::new(1);
    let d = session.on_password("root", "hunter2");
    assert_eq!(d, AuthDecision::Unsupported);
    assert_eq!(session.current_state(), SessionState::Authenticating);
}

#[test]
fn a_rejected_session_may_retry_and_then_authenticate() {
    let store = store_with(b"ssh-ed25519 AAAAC3 user@host");
    let mut session = SessionDispatcher::new(1);
    let d = session.on_auth_offered(&store, "brian", b"ssh-ed25519 WRONG user@host");
    assert_eq!(d, AuthDecision::Reject);
    assert_eq!(session.current_state(), SessionState::Authenticating);
    let d = session.on_auth_final(&store, "brian", b"ssh-ed25519 AAAAC3 user@host");
    assert_eq!(d, AuthDecision::Accept);
    assert_eq!(session.current_state(), SessionState::Authenticated);
}

#[test]
fn channel_opens_register_and_duplicates_are_reported() {
    let store = store_with(b"ssh-ed25519 AAAAC3 user@host");
    let mut registry = ConnectionRegistry::new();
    let session = authenticated(&store, 1);
    assert_eq!(session.on_channel_open(&mut registry, 10, 100), Ok(true));
    assert!(registry.contains(1, 10));
    let r = session.on_channel_open(&mut registry, 10, 100);
    assert_eq!(r, Err(BrokerError::RegistryInvariantViolation));
    assert!(registry.contains(1, 10));
}

#[test]
fn data_is_echoed_once_and_relayed_to_each_peer_once() {
    let store = store_with(b"ssh-ed25519 AAAAC3 user@host");
    let mut registry = ConnectionRegistry::new();
    let a = authenticated(&store, 1);
    let b = authenticated(&store, 2);
    let c = authenticated(&store, 3);
    a.on_channel_open(&mut registry, 10, 100).unwrap();
    b.on_channel_open(&mut registry, 20, 200).unwrap();
    c.on_channel_open(&mut registry, 30, 300).unwrap();

    let out = a.on_data(&registry, 10, b"hi");

    // The sender's own channel gets exactly the echo.
    assert_eq!(out.echo_chan, 10);
    assert_eq!(out.echo_payload, b"hi".to_vec());

    // B's and C's channels each receive exactly one relayed copy; none of
    // A's channels receives any.
    assert_eq!(out.deliveries.len(), 2);
    let mut targets: Vec<(u64, u64, u64)> = out
        .deliveries
        .iter()
        .map(|d| (d.conn, d.chan, d.handle))
        .collect();
    targets.sort();
    assert_eq!(targets, vec![(2, 20, 200), (3, 30, 300)]);
    for d in &out.deliveries {
        assert_eq!(d.payload, b"hi".to_vec());
    }
}

#[test]
fn relay_covers_every_non_origin_channel() {
    let store = store_with(b"ssh-ed25519 AAAAC3 user@host");
    let mut registry = ConnectionRegistry::new();
    let a = authenticated(&store, 1);
    let b = authenticated(&store, 2);
    a.on_channel_open(&mut registry, 10, 100).unwrap();
    a.on_channel_open(&mut registry, 11, 101).unwrap();
    b.on_channel_open(&mut registry, 20, 200).unwrap();
    b.on_channel_open(&mut registry, 21, 201).unwrap();

    let out = a.on_data(&registry, 10, b"payload");
    let mut targets: Vec<(u64, u64)> = out.deliveries.iter().map(|d| (d.conn, d.chan)).collect();
    targets.sort();
    assert_eq!(targets, vec![(2, 20), (2, 21)]);
}

#[test]
fn a_forward_request_succeeds_immediately_with_the_stub_plan() {
    let store = store_with(b"ssh-ed25519 AAAAC3 user@host");
    let session = authenticated(&store, 1);
    let (accepted, action) = session.on_forward_request("example.com", 8080);
    assert!(accepted);
    // The stub plan ignores the requested destination.
    assert_eq!(action.address, "1.2.3.4");
    assert_eq!(action.port, 1234);
    assert_eq!(action.payload, "Hello from a forwarded port");
    assert!(action.close_after_write);
}

#[test]
fn disconnect_is_terminal_and_clears_only_that_connection() {
    let store = store_with(b"ssh-ed25519 AAAAC3 user@host");
    let mut registry = ConnectionRegistry::new();
    let mut a = authenticated(&store, 1);
    let b = authenticated(&store, 2);
    a.on_channel_open(&mut registry, 10, 100).unwrap();
    a.on_channel_open(&mut registry, 11, 101).unwrap();
    b.on_channel_open(&mut registry, 20, 200).unwrap();

    a.on_disconnect(&mut registry);
    assert_eq!(a.current_state(), SessionState::Closed);
    assert!(!registry.contains(1, 10));
    assert!(!registry.contains(1, 11));
    assert!(registry.contains(2, 20));
}

#[test]
fn concurrent_style_interleaving_leaves_the_registry_empty() {
    let store = store_with(b"ssh-ed25519 AAAAC3 user@host");
    let mut registry = ConnectionRegistry::new();
    let mut sessions: Vec<SessionDispatcher> =
        (1..=4u64).map(|conn| authenticated(&store, conn)).collect();
    // Opens and disconnects interleaved across the connections.
    sessions[0].on_channel_open(&mut registry, 1, 100).unwrap();
    sessions[1].on_channel_open(&mut registry, 1, 200).unwrap();
    sessions[0].on_disconnect(&mut registry);
    sessions[2].on_channel_open(&mut registry, 1, 300).unwrap();
    sessions[3].on_channel_open(&mut registry, 1, 400).unwrap();
    sessions[2].on_disconnect(&mut registry);
    sessions[3].on_disconnect(&mut registry);
    sessions[1].on_disconnect(&mut registry);
    assert!(registry.is_empty());
}
