//! Symbolic functions (expression trees) with structural fingerprints,
//! ordering, equality and the algebraic constructors `+ - * /`.

pub mod hashing;
pub mod ieee;
pub mod binary;
pub mod function;
