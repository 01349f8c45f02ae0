//! Symbolic functions: the expression type, its order and equality, its
//! fingerprints and the algebraic constructors.

pub mod function;
pub mod order;
pub mod equality;
pub mod freeze;
pub mod ops;
pub mod simplify_nohash;
pub mod simplify_hash;
