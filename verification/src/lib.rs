//! A tick-accurate simulator for boolean logic circuits.
//!
//! A circuit is a set of components joined by wires. Combinational components
//! (`Not`, `And`, the adders) compute their outputs from their inputs within a
//! tick; a `Delay` hands on, at each tick, what its input was one tick before.
//! Wires between combinational components must never form a cycle; every loop
//! has to pass through a `Delay`.

pub mod builders;
pub mod circuit;
pub mod component;
pub mod dag;
pub mod engine;
pub mod gates;
pub mod host;
pub mod laws;
pub mod paths;
pub mod table;
pub mod wiring;

pub use circuit::{Circuit, WireError};
pub use component::{
    Component, ComponentId, ComponentIdGenerator, ComponentKind, Id, IdGenerator, State, StateView,
};
pub use engine::SimulationEngine;
pub use wiring::Edge;
