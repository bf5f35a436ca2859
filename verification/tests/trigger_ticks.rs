use energyflow::connection::Connection;
use energyflow::construction::{Construction, ConstructionKind, ConstructionStatus};
use energyflow::game_configuration::GameConfiguration;
use energyflow::trigger::RecomputeTrigger;

fn test_configuration() -> GameConfiguration {
    GameConfiguration {
        energy_output_base: 0,
        energy_output_collector: 1,
        energy_output_extractor: 0,

        energy_input_base: 0,
        energy_input_collector: 0,
        energy_input_extractor: 1,
    }
}

fn operating(kind: ConstructionKind) -> Construction {
    Construction { kind, status: ConstructionStatus::Operating }
}

/// Changes observed within one tick coalesce: the tick recomputes once,
/// and the flow values land on the connections.
#[test]
fn test_trigger_coalesces_and_writes_back() {
    let configuration = test_configuration();
    let nodes = vec![
        (1, operating(ConstructionKind::Collector)),
        (2, operating(ConstructionKind::Extractor)),
    ];
    let mut connections = vec![Connection::new_between(1, 2)];

    let mut trigger = RecomputeTrigger::new();
    trigger.observe_change();
    trigger.observe_change();
    trigger.observe_change();
    assert!(trigger.is_pending());

    let ran = trigger.run_tick(&configuration, &nodes, &mut connections);
    assert!(ran);
    assert!(!trigger.is_pending());
    assert_eq!(connections[0].energy_flow(), 1000);
}

/// A tick without an observed change leaves the connections untouched.
#[test]
fn test_trigger_idle_tick_recomputes_nothing() {
    let configuration = test_configuration();
    let nodes = vec![
        (1, operating(ConstructionKind::Collector)),
        (2, operating(ConstructionKind::Extractor)),
    ];
    let mut connections = vec![Connection::new_between(1, 2)];
    connections[0].set_energy_flow(123);

    let mut trigger = RecomputeTrigger::new();
    let ran = trigger.run_tick(&configuration, &nodes, &mut connections);
    assert!(!ran);
    assert_eq!(connections[0].energy_flow(), 123);
}

/// Only operating constructions take part: a hovering producer supplies
/// nothing, so the tick writes zero onto the connection.
#[test]
fn test_trigger_filters_hovering_constructions() {
    let configuration = test_configuration();
    let hovering_collector =
        Construction { kind: ConstructionKind::Collector, status: ConstructionStatus::Hovering };
    let nodes = vec![
        (1, hovering_collector),
        (2, operating(ConstructionKind::Extractor)),
    ];
    let mut connections = vec![Connection::new_between(1, 2)];
    connections[0].set_energy_flow(777);

    let mut trigger = RecomputeTrigger::new();
    trigger.observe_change();
    let ran = trigger.run_tick(&configuration, &nodes, &mut connections);
    assert!(ran);
    assert_eq!(connections[0].energy_flow(), 0);
}

/// A connection absent from the result mapping is written back as zero.
#[test]
fn test_trigger_writes_zero_for_unrouted_connection() {
    let configuration = test_configuration();
    let nodes = vec![
        (1, operating(ConstructionKind::Collector)),
        (2, operating(ConstructionKind::Extractor)),
        (3, operating(ConstructionKind::Base)),
        (4, operating(ConstructionKind::Base)),
    ];
    let mut connections = vec![
        Connection::new_between(1, 2),
        Connection::new_between(3, 4),
    ];
    connections[1].set_energy_flow(555);

    let mut trigger = RecomputeTrigger::new();
    trigger.observe_change();
    let ran = trigger.run_tick(&configuration, &nodes, &mut connections);
    assert!(ran);
    assert_eq!(connections[0].energy_flow(), 1000);
    assert_eq!(connections[1].energy_flow(), 0);
}
