use hovel::errors::BrokerError;
use hovel::errors::HovelError;
use hovel::identity::IdentityStore;

#[test]
fn accounts_get_distinct_ids() {
    let mut store = IdentityStore::new();
    let a = store
        .create_account("a".to_string(), "a@example.com".to_string())
        .unwrap();
    let b = store
        .create_account("b".to_string(), "b@example.com".to_string())
        .unwrap();
    assert_ne!(a, b);
    assert!(store.account_exists(a));
    assert!(store.account_exists(b));
    assert!(!store.account_exists(a.max(b) + 1));
}

#[test]
fn lookup_is_by_parsed_key_material_only() {
    let mut store = IdentityStore::new();
    let account = store
        .create_account("brian".to_string(), "norm@norm.com".to_string())
        .unwrap();
    store
        .add_credential(account, b"  ssh-ed25519   KEYX   someone@somewhere ")
        .unwrap();
    // The stored key is the middle field alone: tag and comment are stripped.
    assert_eq!(store.lookup_by_credential(b"KEYX"), Some(account));
    assert_eq!(store.lookup_by_credential(b"ssh-ed25519 KEYX someone@somewhere"), None);
    assert_eq!(store.lookup_by_credential(b"ssh-ed25519"), None);
}

#[test]
fn malformed_credential_is_a_bad_request() {
    let mut store = IdentityStore::new();
    let account = store
        .create_account("a".to_string(), "a@example.com".to_string())
        .unwrap();
    let r = store.add_credential(account, b"only-one-field");
    assert!(matches!(r, Err(HovelError::BadRequest)));
}

#[test]
fn duplicate_key_material_is_refused() {
    let mut store = IdentityStore::new();
    let a = store
        .create_account("a".to_string(), "a@example.com".to_string())
        .unwrap();
    let b = store
        .create_account("b".to_string(), "b@example.com".to_string())
        .unwrap();
    store.add_credential(a, b"ssh-ed25519 SAME one").unwrap();
    let r = store.add_credential(b, b"ssh-ed25519 SAME two");
    assert!(matches!(r, Err(HovelError::BadRequest)));
    // The key still maps to its first owner.
    assert_eq!(store.lookup_by_credential(b"SAME"), Some(a));
}

#[test]
fn credential_for_an_unknown_account_is_not_found() {
    let mut store = IdentityStore::new();
    let r = store.add_credential(7, b"ssh-ed25519 KEYY nobody");
    assert!(matches!(r, Err(HovelError::NotFound)));
    assert_eq!(store.lookup_by_credential(b"KEYY"), None);
}

#[test]
fn a_created_account_keeps_its_name_and_contact_address() {
    let mut store = IdentityStore::new();
    let a = store
        .create_account("brian".to_string(), "norm@norm.com".to_string())
        .unwrap();
    let b = store
        .create_account("ada".to_string(), "ada@example.com".to_string())
        .unwrap();
    assert_eq!(
        store.account_attributes(a),
        Some(("brian".to_string(), "norm@norm.com".to_string()))
    );
    assert_eq!(
        store.account_attributes(b),
        Some(("ada".to_string(), "ada@example.com".to_string()))
    );
    assert_eq!(store.account_attributes(a.max(b) + 1), None);
}

#[test]
fn a_fresh_account_owns_no_credentials() {
    let mut store = IdentityStore::new();
    let a = store
        .create_account("a".to_string(), "a@example.com".to_string())
        .unwrap();
    store.add_credential(a, b"ssh-ed25519 OLDKEY one").unwrap();
    let b = store
        .create_account("b".to_string(), "b@example.com".to_string())
        .unwrap();
    assert!(store.credentials_of(b).is_empty());
    assert_eq!(store.credentials_of(a), vec![b"OLDKEY".to_vec()]);
}

#[test]
fn credentials_of_returns_exactly_the_accounts_keys() {
    let mut store = IdentityStore::new();
    let a = store
        .create_account("a".to_string(), "a@example.com".to_string())
        .unwrap();
    let b = store
        .create_account("b".to_string(), "b@example.com".to_string())
        .unwrap();
    store.add_credential(a, b"ssh-ed25519 KEY_A1 one").unwrap();
    store.add_credential(b, b"ssh-ed25519 KEY_B1 two").unwrap();
    store.add_credential(a, b"ssh-ed25519 KEY_A2 three").unwrap();
    let mut of_a = store.credentials_of(a);
    of_a.sort();
    assert_eq!(of_a, vec![b"KEY_A1".to_vec(), b"KEY_A2".to_vec()]);
    assert_eq!(store.credentials_of(b), vec![b"KEY_B1".to_vec()]);
}

#[test]
fn hovel_errors_render_their_status_codes() {
    assert_eq!(HovelError::NotFound.status_code(), 404);
    assert_eq!(HovelError::BadRequest.status_code(), 400);
    assert_eq!(
        HovelError::InternalServerError("boom".to_string()).status_code(),
        500
    );
}

#[test]
fn hovel_errors_render_their_messages() {
    assert_eq!(HovelError::NotFound.message(), "Not Found");
    assert_eq!(HovelError::BadRequest.message(), "Bad Request");
    assert_eq!(
        HovelError::InternalServerError("boom".to_string()).message(),
        "Internal Server Error"
    );
}

#[test]
fn only_a_transport_fault_is_fatal() {
    assert!(BrokerError::TransportFault.is_fatal());
    assert!(!BrokerError::AuthenticationRejected.is_fatal());
    assert!(!BrokerError::RegistryInvariantViolation.is_fatal());
    assert!(!BrokerError::RelayDeliveryFault.is_fatal());
    assert!(!BrokerError::ForwardingFault.is_fatal());
}
