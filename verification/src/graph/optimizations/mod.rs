pub mod dead_code_elimination;
pub mod const_propagation;
pub mod not_deduplication;
pub mod single_dependency_collapsing;
pub mod dependency_deduplication;
pub mod equal_gate_merging;
pub mod global_value_numbering;
pub mod settling;
