//! Equilibrium calculator for networks of production machines.
//!
//! A processing chain is a list of setups, each running one recipe on a
//! population of machines. The library computes, with exact rational
//! arithmetic, the relative speed of every setup at which each internally
//! produced and consumed good nets to zero flow.

pub mod frac;
pub mod fracseq;
pub mod machine;
pub mod nullspace;
pub mod processing_chain;
pub mod rational;
pub mod recipe;
pub mod text;
