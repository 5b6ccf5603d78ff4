//! Short, practically unique identifiers: a random prefix followed by a
//! base-62 counter that advances by a random step.
pub mod alphabet;
pub mod generator;

pub use generator::NUID;
