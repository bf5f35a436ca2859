use energyflow::connection::Connection;
use energyflow::construction::{Construction, ConstructionKind, ConstructionStatus};
use energyflow::game_configuration::GameConfiguration;
use energyflow::routing::shortest_paths_from;

fn test_configuration() -> GameConfiguration {
    GameConfiguration {
        energy_output_base: 0,
        energy_output_collector: 1,
        energy_output_extractor: 0,

        energy_input_base: 0,
        energy_input_collector: 0,
        energy_input_extractor: 1,
    }
}

fn operating(kind: ConstructionKind) -> Construction {
    Construction { kind, status: ConstructionStatus::Operating }
}

/// C -- E
#[test]
fn test_shortest_paths_from_c_e() {
    let collector1 = operating(ConstructionKind::Collector);
    let extractor1 = operating(ConstructionKind::Extractor);
    let constructions = vec![(1, collector1), (2, extractor1)];

    let connection1 = Connection::new_between(1, 2);
    let connections = vec![connection1];

    let paths = shortest_paths_from(&constructions, &connections, 1, &test_configuration());

    assert_eq!(1, paths.len());
    assert!(paths.contains(&vec![2, 1]));
}

///         / E
/// C -- E +
///         \ E
#[test]
fn test_shortest_paths_from_c_e_e2() {
    let collector1 = operating(ConstructionKind::Collector);
    let extractor1 = operating(ConstructionKind::Extractor);
    let extractor21 = operating(ConstructionKind::Extractor);
    let extractor22 = operating(ConstructionKind::Extractor);
    let constructions = vec![
        (1, collector1),
        (2, extractor1),
        (3, extractor21),
        (4, extractor22),
    ];

    let connection1 = Connection::new_between(1, 2);
    let connection21 = Connection::new_between(2, 3);
    let connection22 = Connection::new_between(2, 4);
    let connections = vec![connection1, connection21, connection22];

    let paths = shortest_paths_from(&constructions, &connections, 1, &test_configuration());
    assert_eq!(3, paths.len(), "{:?}", paths);
    assert!(paths.contains(&vec![2, 1]));
    assert!(paths.contains(&vec![3, 2, 1]), "{:#?}", paths);
    assert!(paths.contains(&vec![4, 2, 1]), "{:#?}", paths);
}

/// E -- B -- C -- E -- C
#[test]
fn test_shortest_paths_from_e_b_c_e_c() {
    let collector1 = operating(ConstructionKind::Collector);
    let collector2 = operating(ConstructionKind::Collector);
    let extractor1 = operating(ConstructionKind::Extractor);
    let extractor2 = operating(ConstructionKind::Extractor);
    let base = operating(ConstructionKind::Base);
    let constructions = vec![
        (1, extractor1),
        (2, base),
        (3, collector1),
        (4, extractor2),
        (5, collector2),
    ];

    let connection1 = Connection::new_between(1, 2);
    let connection2 = Connection::new_between(2, 3);
    let connection3 = Connection::new_between(3, 4);
    let connection4 = Connection::new_between(4, 5);

    let connections = vec![connection1, connection2, connection3, connection4];

    {
        let paths_from_3 =
            shortest_paths_from(&constructions, &connections, 3, &test_configuration());

        assert_eq!(2, paths_from_3.len());
        assert!(paths_from_3.contains(&vec![1, 2, 3]));
        assert!(paths_from_3.contains(&vec![4, 3]), "{:#?}", paths_from_3);
    }

    {
        let paths_from_5 =
            shortest_paths_from(&constructions, &connections, 5, &test_configuration());

        assert_eq!(2, paths_from_5.len());
        assert!(paths_from_5.contains(&vec![1, 2, 3, 4, 5]));
        assert!(paths_from_5.contains(&vec![4, 5]));
    }
}

/// A connection naming an absent construction is dropped rather than
/// failing the computation: routing continues over the remaining edges.
#[test]
fn test_shortest_paths_from_dropped_dangling_connection() {
    let collector1 = operating(ConstructionKind::Collector);
    let extractor1 = operating(ConstructionKind::Extractor);
    let extractor2 = operating(ConstructionKind::Extractor);
    let constructions = vec![(1, collector1), (2, extractor1), (3, extractor2)];

    let connection1 = Connection::new_between(1, 2);
    let dangling = Connection::new_between(3, 9);
    let connections = vec![connection1, dangling];

    let paths = shortest_paths_from(&constructions, &connections, 1, &test_configuration());

    assert_eq!(1, paths.len());
    assert!(paths.contains(&vec![2, 1]));
}

/// An unreachable consumer is simply omitted: no error, no path.
#[test]
fn test_shortest_paths_from_unreachable_consumer_omitted() {
    let collector1 = operating(ConstructionKind::Collector);
    let extractor1 = operating(ConstructionKind::Extractor);
    let constructions = vec![(1, collector1), (2, extractor1)];

    let connections = vec![];

    let paths = shortest_paths_from(&constructions, &connections, 1, &test_configuration());

    assert_eq!(0, paths.len());
}
