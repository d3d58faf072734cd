//! The mid-level program: register instructions in nested bodies, the
//! register allocator, and the sequencer that lowers the graph to it.
pub mod data;
pub mod registers;
pub mod sequencer;
