//! An optimizing compiler core for an eight-operation tape-machine language.
//!
//! Source text is lowered to a region-based value/state graph, rewritten to a
//! fixed point, sequenced into a register program, and printed as C89 or Lua.
pub mod hir;
pub mod mir;
pub mod codegen;
pub mod syntax;
pub mod blua;
