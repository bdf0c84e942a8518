//! Optimisation passes over a small SSA intermediate representation.
pub mod bits;
pub mod cfg;
pub mod edit;
pub mod emit;
pub mod flow;
pub mod ir;
pub mod loops;
pub mod memory;
pub mod names;
pub mod objects;
pub mod pass;
pub mod patterns;
pub mod query;
pub mod region;
pub mod rewriting;
pub mod semantics;
pub mod ssa;
pub mod util;
pub mod verify;
