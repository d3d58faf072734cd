//! An earlier front end: a tree of run-length instructions and a peephole
//! folder over it.
pub mod optimizer;
pub mod shared;
