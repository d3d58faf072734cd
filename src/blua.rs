//! A second front end over the same tree form: a recursive-descent parser
//! and a folder that sums each run of one operation.
pub mod optimizer;
pub mod parser;
