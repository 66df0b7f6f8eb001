//! Adaptive replica placement for one logical object over a fixed set of sites.
//!
//! [`model`] gives the mathematical state and its transition function,
//! [`engine`] the executable engine that refines it, [`laws`] the invariants
//! that every reachable state satisfies, and [`trial`] a driver that feeds a
//! whole request stream through a fresh engine.

pub mod engine;
pub mod laws;
pub mod model;
pub mod trial;
