pub mod edges;
pub mod gate;
pub mod graph_builder;
pub mod handles;

pub use gate::{off, on, GateIndex, GateType};
pub use graph_builder::GateGraphBuilder;
pub use handles::{CircuitOutput, CircuitOutputHandle, LeverHandle};
pub mod initialized_graph;

pub use initialized_graph::InitializedGateGraph;
pub mod optimizations;
