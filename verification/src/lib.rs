//! Verified core of an integral calculator: expression text handling,
//! tokenizing, evaluation order and Riemann-sum bookkeeping.

pub mod keypad;
pub mod riemann;
pub mod sampling;
pub mod sanitize;
pub mod term;
pub mod text;
pub mod tokens;
pub mod tree;
pub mod tree_laws;
