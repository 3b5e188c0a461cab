//! A Barnes-Hut gravitational N-body simulator.
//!
//! Bodies live in a two-dimensional space; each simulation step builds an
//! axis-aligned quadtree over the current positions, approximates the force
//! on every body with the Barnes-Hut multipole-acceptance criterion, and
//! advances positions and velocities with a leapfrog-style update.
//!
//! All quantities are dimensionless fixed-point numbers (see [`fx`]), so the
//! whole pipeline is exact integer arithmetic and its results are stated
//! precisely in the contracts.

pub mod fx;
pub mod vec;
pub mod node;
pub mod generator;
pub mod sim;
