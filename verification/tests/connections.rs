use energyflow::connection::Connection;

/// Canonicalization: edges built from the same unordered pair in either
/// order carry identical endpoint pairs and equal flow keys.
#[test]
fn test_connection_canonical_between() {
    let connection_a_b = Connection::new_between(1, 2);
    let connection_b_a = Connection::new_between(2, 1);
    assert_eq!(connection_a_b.between(), connection_b_a.between());
    assert_eq!(*connection_a_b.between(), (1, 2));
}

/// Self-edge rejection: constructing an edge with equal endpoints always
/// fails.
#[test]
fn test_connection_rejects_self_edge() {
    assert!(Connection::try_new_between(7, 7).is_none());
    assert!(Connection::try_new_between(7, 8).is_some());
}

/// A checked construction yields the same canonical edge as the plain
/// one, with no flow assigned yet.
#[test]
fn test_connection_try_new_between_canonical() {
    let connection = Connection::try_new_between(5, 3).unwrap();
    assert_eq!(*connection.between(), (3, 5));
    assert_eq!(connection.energy_flow(), 0);
}

#[test]
fn test_connection_connects_to() {
    let connection = Connection::new_between(4, 2);
    assert!(connection.connects_to(2));
    assert!(connection.connects_to(4));
    assert!(!connection.connects_to(3));
}

#[test]
fn test_connection_set_energy_flow() {
    let mut connection = Connection::new_between(1, 2);
    connection.set_energy_flow(-250);
    assert_eq!(connection.energy_flow(), -250);
    assert_eq!(*connection.between(), (1, 2));
}
