//! Pairwise intersections of planar line segments.
//!
//! The crate implements the Bentley-Ottmann plane sweep together with a
//! brute-force reference solver.  Coordinates are exact rational numbers,
//! so the geometric predicates (orientation, segment intersection,
//! collinear-overlap classification) are exact and their contracts state
//! the results precisely rather than up to a tolerance.

pub mod events;
pub mod generator;
pub mod geometry;
pub mod order;
pub mod problem;
pub mod rat;
pub mod rng;
pub mod solvers;
pub mod treap;
