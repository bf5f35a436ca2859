//! Configuration: a read-only table from construction kind to energy rates.
//! Rates are whole energy units; the flow engine scales its results to
//! thousandths, so whole-unit rates lose nothing.

use vstd::prelude::*;
use crate::construction::ConstructionKind;

verus! {

/// Per-kind energy production and consumption rates, injected as a
/// read-only resource.
#[derive(Clone, Copy, Debug, PartialEq, Eq, Structural)]
pub struct GameConfiguration {
    pub energy_output_base: u64,
    pub energy_output_collector: u64,
    pub energy_output_extractor: u64,

    pub energy_input_base: u64,
    pub energy_input_collector: u64,
    pub energy_input_extractor: u64,
}

impl GameConfiguration {
    /// Energy produced per tick by a construction of the given kind.
    pub open spec fn spec_energy_output(&self, kind: ConstructionKind) -> u64 {
        match kind {
            ConstructionKind::Base => self.energy_output_base,
            ConstructionKind::Collector => self.energy_output_collector,
            ConstructionKind::Extractor => self.energy_output_extractor,
        }
    }

    /// Energy consumed per tick by a construction of the given kind.
    pub open spec fn spec_energy_input(&self, kind: ConstructionKind) -> u64 {
        match kind {
            ConstructionKind::Base => self.energy_input_base,
            ConstructionKind::Collector => self.energy_input_collector,
            ConstructionKind::Extractor => self.energy_input_extractor,
        }
    }

    pub fn energy_output(&self, kind: &ConstructionKind) -> (rate: u64)
        ensures
            rate == self.spec_energy_output(*kind),
    {
        match kind {
            ConstructionKind::Base => self.energy_output_base,
            ConstructionKind::Collector => self.energy_output_collector,
            ConstructionKind::Extractor => self.energy_output_extractor,
        }
    }

    pub fn energy_input(&self, kind: &ConstructionKind) -> (rate: u64)
        ensures
            rate == self.spec_energy_input(*kind),
    {
        match kind {
            ConstructionKind::Base => self.energy_input_base,
            ConstructionKind::Collector => self.energy_input_collector,
            ConstructionKind::Extractor => self.energy_input_extractor,
        }
    }
}

/// The fixed rate table of the game proper.
#[derive(Clone, Copy, Debug, PartialEq, Eq, Structural)]
pub struct GameSettings;

impl GameSettings {
    pub fn energy_output(&self, kind: &ConstructionKind) -> (rate: u64)
        ensures
            rate == match *kind {
                ConstructionKind::Base => 10u64,
                ConstructionKind::Collector => 5u64,
                ConstructionKind::Extractor => 0u64,
            },
    {
        match kind {
            ConstructionKind::Base => 10,
            ConstructionKind::Collector => 5,
            ConstructionKind::Extractor => 0,
        }
    }

    pub fn energy_input(&self, kind: &ConstructionKind) -> (rate: u64)
        ensures
            rate == match *kind {
                ConstructionKind::Base => 0u64,
                ConstructionKind::Collector => 0u64,
                ConstructionKind::Extractor => 4u64,
            },
    {
        match kind {
            ConstructionKind::Base => 0,
            ConstructionKind::Collector => 0,
            ConstructionKind::Extractor => 4,
        }
    }
}

} // verus!
