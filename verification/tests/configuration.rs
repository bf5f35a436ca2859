use energyflow::construction::{Construction, ConstructionKind, ConstructionStatus};
use energyflow::game_configuration::{GameConfiguration, GameSettings};

#[test]
fn test_game_configuration_lookups() {
    let configuration = GameConfiguration {
        energy_output_base: 10,
        energy_output_collector: 5,
        energy_output_extractor: 0,

        energy_input_base: 0,
        energy_input_collector: 0,
        energy_input_extractor: 4,
    };
    assert_eq!(configuration.energy_output(&ConstructionKind::Base), 10);
    assert_eq!(configuration.energy_output(&ConstructionKind::Collector), 5);
    assert_eq!(configuration.energy_output(&ConstructionKind::Extractor), 0);
    assert_eq!(configuration.energy_input(&ConstructionKind::Base), 0);
    assert_eq!(configuration.energy_input(&ConstructionKind::Collector), 0);
    assert_eq!(configuration.energy_input(&ConstructionKind::Extractor), 4);
}

#[test]
fn test_game_settings_rates() {
    let settings = GameSettings;
    assert_eq!(settings.energy_output(&ConstructionKind::Base), 10);
    assert_eq!(settings.energy_output(&ConstructionKind::Collector), 5);
    assert_eq!(settings.energy_output(&ConstructionKind::Extractor), 0);
    assert_eq!(settings.energy_input(&ConstructionKind::Base), 0);
    assert_eq!(settings.energy_input(&ConstructionKind::Collector), 0);
    assert_eq!(settings.energy_input(&ConstructionKind::Extractor), 4);
}

#[test]
fn test_construction_default_is_operating_base() {
    let construction = Construction::default();
    assert_eq!(construction.kind, ConstructionKind::Base);
    assert_eq!(construction.status, ConstructionStatus::Operating);
}
