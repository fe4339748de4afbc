pub mod constant;
pub mod wire;
pub mod bus;
pub mod word_input;
pub mod sr_latch;
pub mod d_flip_flop;
pub mod register;
pub mod adder;
pub mod decoder;
pub mod multiplexer;
pub mod bus_multiplexer;
pub mod aluish;
pub mod counter;
pub mod ram;
pub mod rom;
pub mod output_register;
pub mod jk_flip_flop;
pub mod io_buffer;
pub mod control_signals_set;
