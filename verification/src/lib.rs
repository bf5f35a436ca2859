//! A 2D construction-and-connection economy core: constructions (nodes) are
//! linked by connections (undirected canonical edges) and exchange an
//! instantaneous flow resource ("energy") routed along shortest paths of the
//! connection graph. Flow values are exact integers in thousandths of an
//! energy unit.

pub mod construction;
pub mod game_configuration;
pub mod connection;
pub mod graph;
pub mod routing;
pub mod flow_model;
pub mod energy_flow;
pub mod trigger;
