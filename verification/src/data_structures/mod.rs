pub mod bit_iter;
pub mod double_stack;
pub mod immutable;
pub mod slab;
pub mod state;
