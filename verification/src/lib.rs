//! Create and simulate digital circuits built from logic gates.
pub mod data_structures;
pub mod graph;
pub mod circuits;
