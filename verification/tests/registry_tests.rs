use hovel::errors::BrokerError;
use hovel::registry::ChannelEntry;
use hovel::registry::ConnectionRegistry;

fn keys_of(entries: &[ChannelEntry]) -> Vec<(u64, u64)> {
    let mut keys: Vec<(u64, u64)> = entries.iter().map(|e| (e.conn, e.chan)).collect();
    keys.sort();
    keys
}

#[test]
fn insert_then_contains() {
    let mut registry = ConnectionRegistry::new();
    assert!(registry.is_empty());
    registry.insert(1, 10, 100).unwrap();
    assert!(registry.contains(1, 10));
    assert!(!registry.contains(1, 11));
    assert!(!registry.contains(2, 10));
    assert!(!registry.is_empty());
}

#[test]
fn len_counts_registered_channels() {
    let mut registry = ConnectionRegistry::new();
    assert_eq!(registry.len(), 0);
    registry.insert(1, 10, 100).unwrap();
    registry.insert(1, 11, 101).unwrap();
    registry.insert(2, 10, 200).unwrap();
    assert_eq!(registry.len(), 3);
    registry.remove(1, 10).unwrap();
    assert_eq!(registry.len(), 2);
    registry.remove_connection(1);
    assert_eq!(registry.len(), 1);
}

#[test]
fn duplicate_insert_is_an_invariant_violation() {
    let mut registry = ConnectionRegistry::new();
    registry.insert(1, 10, 100).unwrap();
    let r = registry.insert(1, 10, 999);
    assert_eq!(r, Err(BrokerError::RegistryInvariantViolation));
    // Unchanged: still exactly the original entry.
    let all = registry.channels_except(0);
    assert_eq!(all.len(), 1);
    assert_eq!(all[0].handle, 100);
}

#[test]
fn remove_of_an_absent_key_is_an_invariant_violation() {
    let mut registry = ConnectionRegistry::new();
    let r = registry.remove(1, 10);
    assert_eq!(r, Err(BrokerError::RegistryInvariantViolation));
}

#[test]
fn insert_then_remove_leaves_the_enumeration_unchanged() {
    let mut registry = ConnectionRegistry::new();
    registry.insert(1, 10, 100).unwrap();
    registry.insert(2, 20, 200).unwrap();
    let before = keys_of(&registry.channels_except(0));

    registry.insert(3, 30, 300).unwrap();
    registry.remove(3, 30).unwrap();

    let after = keys_of(&registry.channels_except(0));
    assert_eq!(before, after);
    assert_eq!(after, vec![(1, 10), (2, 20)]);
}

#[test]
fn remove_connection_takes_only_that_connections_channels() {
    let mut registry = ConnectionRegistry::new();
    registry.insert(1, 10, 100).unwrap();
    registry.insert(1, 11, 101).unwrap();
    registry.insert(2, 10, 200).unwrap();
    registry.remove_connection(1);
    assert!(!registry.contains(1, 10));
    assert!(!registry.contains(1, 11));
    assert!(registry.contains(2, 10));
}

#[test]
fn remove_connection_without_channels_is_a_no_op() {
    let mut registry = ConnectionRegistry::new();
    registry.insert(2, 10, 200).unwrap();
    registry.remove_connection(9);
    assert!(registry.contains(2, 10));
    let all = registry.channels_except(0);
    assert_eq!(keys_of(&all), vec![(2, 10)]);
}

#[test]
fn enumeration_skips_the_origin_connection() {
    let mut registry = ConnectionRegistry::new();
    registry.insert(1, 10, 100).unwrap();
    registry.insert(1, 11, 101).unwrap();
    registry.insert(2, 20, 200).unwrap();
    registry.insert(3, 30, 300).unwrap();
    let others = registry.channels_except(1);
    assert_eq!(keys_of(&others), vec![(2, 20), (3, 30)]);
}

#[test]
fn interleaved_connections_leave_the_registry_empty() {
    let mut registry = ConnectionRegistry::new();
    // Three connections open one channel each, interleaved with teardowns.
    registry.insert(1, 1, 100).unwrap();
    registry.insert(2, 1, 200).unwrap();
    registry.remove_connection(1);
    registry.insert(3, 1, 300).unwrap();
    registry.remove_connection(3);
    registry.remove_connection(2);
    assert!(registry.is_empty());
}
