//! Point particles on a fixed-resolution grid: bounded random walks inside a
//! square enclosure and chunk-local pairwise collision counting.
//!
//! - `particle`: a position and the collision predicate.
//! - `mover`: one random step per particle, by rejection sampling.
//! - `scanner`: counting the colliding pairs of one chunk.
//! - `partition`: the chunks that a population falls into.
//! - `system`: the population with its collision counter.

pub mod mover;
pub mod particle;
pub mod partition;
mod random;
pub mod scanner;
pub mod system;
