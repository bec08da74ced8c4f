//! A discrete-event simulator for rule-driven sensor networks laid out on a
//! graph of locations: movable objects walk the graph, sensors send periodic
//! uplinks, and a rule engine reacts to readings with downlink commands.

pub mod text;
pub mod time;
pub mod sensor;
pub mod event;
pub mod rule;
pub mod error;
pub mod structure;
pub mod parameters;
pub mod engine;
pub mod evaluation;
pub mod simulator;
mod outside;
