//! Printers from a program to target-language source text.
pub mod c89;
pub mod lua51;
pub mod tab;
