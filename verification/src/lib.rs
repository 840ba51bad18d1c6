//! Verified algorithms and data structures for competitive programming.
//!
//! The heart of the crate is [`graphs::maximum_flow`]: two maximum-flow
//! solvers over a shared residual network, each proved to return the value of
//! a maximum flow and to leave a feasible flow behind.

pub mod algebra;
pub mod binary_exponentiation;
pub mod data_structures;
pub mod graphs;
mod numeric;
pub mod summation;
pub mod utils;
