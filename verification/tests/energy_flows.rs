use energyflow::connection::Connection;
use energyflow::construction::{Construction, ConstructionKind, ConstructionStatus};
use energyflow::energy_flow::assign_energy_flows;
use energyflow::game_configuration::GameConfiguration;

fn test_configuration() -> GameConfiguration {
    GameConfiguration {
        energy_output_base: 0,
        energy_output_collector: 1,
        energy_output_extractor: 0,

        energy_input_base: 0,
        energy_input_collector: 0,
        energy_input_extractor: 1,
    }
}

fn operating(kind: ConstructionKind) -> Construction {
    Construction { kind, status: ConstructionStatus::Operating }
}

/// World: C
#[test]
fn test_assign_energy_flows_c() {
    let construction1 = operating(ConstructionKind::Collector);
    let constructions = vec![(1, construction1)];
    let connections = vec![];
    let connection_flows = assign_energy_flows(&test_configuration(), &constructions, &connections);
    assert_eq!(0, connection_flows.len());
}

/// World: C -- E and C -- C -- E
#[test]
fn test_assign_energy_flows_c_e() {
    let collector1 = operating(ConstructionKind::Collector);
    let extractor = operating(ConstructionKind::Extractor);
    let constructions = vec![(1, collector1), (2, extractor)];

    let connection1 = Connection::new_between(1, 2);
    let connections = vec![connection1];

    let connection_flows = assign_energy_flows(&test_configuration(), &constructions, &connections);
    assert_eq!(1, connection_flows.len());
    assert_eq!(Some(1000), connection_flows.get(1, 2));

    // Now simulate world: C -- C -- E
    let collector2 = operating(ConstructionKind::Collector);
    let constructions = vec![(1, collector1), (2, collector2), (3, extractor)];
    let connection2 = Connection::new_between(2, 3);
    let connections = vec![connection1, connection2];

    let connection_flows = assign_energy_flows(&test_configuration(), &constructions, &connections);
    assert_eq!(2, connection_flows.len());
    assert_eq!(Some(500), connection_flows.get(1, 2), "{:?}", connection_flows);
    assert_eq!(Some(1000), connection_flows.get(2, 3));
}

/// World: C -- E -- E
#[test]
fn test_assign_energy_flows_c_e_e() {
    let extractor1 = operating(ConstructionKind::Extractor);
    let extractor2 = operating(ConstructionKind::Extractor);
    let collector1 = operating(ConstructionKind::Collector);
    let constructions = vec![(1, collector1), (2, extractor1), (3, extractor2)];

    let connection1 = Connection::new_between(1, 2);
    let connection2 = Connection::new_between(2, 3);
    let connections = vec![connection1, connection2];

    let connection_flows = assign_energy_flows(&test_configuration(), &constructions, &connections);
    assert_eq!(2, connection_flows.len());
    assert_eq!(Some(1000), connection_flows.get(1, 2));
    assert_eq!(Some(500), connection_flows.get(2, 3));
}

/// World: E -- C -- C -- E
#[test]
fn test_assign_energy_flows_e_c_c_e() {
    let extractor1 = operating(ConstructionKind::Extractor);
    let extractor2 = operating(ConstructionKind::Extractor);
    let collector1 = operating(ConstructionKind::Collector);
    let collector2 = operating(ConstructionKind::Collector);
    let constructions = vec![
        (1, extractor1),
        (2, collector1),
        (3, collector2),
        (4, extractor2),
    ];

    let connection1 = Connection::new_between(1, 2);
    let connection2 = Connection::new_between(2, 3);
    let connection3 = Connection::new_between(3, 4);
    let connections = vec![connection1, connection2, connection3];

    let connection_flows = assign_energy_flows(&test_configuration(), &constructions, &connections);
    assert_eq!(2, connection_flows.len(), "{:?}", connection_flows);
    assert_eq!(Some(-1000), connection_flows.get(1, 2));
    assert_eq!(Some(1000), connection_flows.get(3, 4));
}

/// Idempotence: two runs over an unchanged snapshot yield identical
/// mappings, entry for entry.
#[test]
fn test_assign_energy_flows_idempotent() {
    let constructions = vec![
        (1, operating(ConstructionKind::Collector)),
        (2, operating(ConstructionKind::Collector)),
        (3, operating(ConstructionKind::Extractor)),
    ];
    let connections = vec![
        Connection::new_between(1, 2),
        Connection::new_between(2, 3),
    ];

    let first = assign_energy_flows(&test_configuration(), &constructions, &connections);
    let second = assign_energy_flows(&test_configuration(), &constructions, &connections);

    assert_eq!(first.len(), second.len());
    for a in 1..=3u64 {
        for b in 1..=3u64 {
            assert_eq!(first.get(a, b), second.get(a, b));
        }
    }
}

/// Zero-supply safety: a producer-less graph with nonzero demand yields
/// an empty flow mapping.
#[test]
fn test_assign_energy_flows_zero_supply() {
    let constructions = vec![
        (1, operating(ConstructionKind::Extractor)),
        (2, operating(ConstructionKind::Extractor)),
    ];
    let connections = vec![Connection::new_between(1, 2)];

    let connection_flows = assign_energy_flows(&test_configuration(), &constructions, &connections);
    assert_eq!(0, connection_flows.len());
    assert_eq!(None, connection_flows.get(1, 2));
}

/// Throttling: two producers of 1 for one consumer demanding 1 halve
/// each producer's contribution, exactly, with no floating-point noise.
#[test]
fn test_assign_energy_flows_throttled_halves() {
    let constructions = vec![
        (1, operating(ConstructionKind::Collector)),
        (2, operating(ConstructionKind::Extractor)),
        (3, operating(ConstructionKind::Collector)),
    ];
    let connections = vec![
        Connection::new_between(1, 2),
        Connection::new_between(2, 3),
    ];

    let connection_flows = assign_energy_flows(&test_configuration(), &constructions, &connections);
    assert_eq!(2, connection_flows.len());
    assert_eq!(Some(500), connection_flows.get(1, 2));
    assert_eq!(Some(-500), connection_flows.get(2, 3));
}

/// A flow lookup on a pair without an entry stands for zero.
#[test]
fn test_flow_map_defaults_to_zero() {
    let constructions = vec![
        (1, operating(ConstructionKind::Collector)),
        (2, operating(ConstructionKind::Extractor)),
    ];
    let connections = vec![Connection::new_between(1, 2)];

    let connection_flows = assign_energy_flows(&test_configuration(), &constructions, &connections);
    assert_eq!(1000, connection_flows.flow_or_zero(1, 2));
    assert_eq!(0, connection_flows.flow_or_zero(1, 9));
}
