//! Ranks path-like byte strings by their proximity to a reference path.
//!
//! Each raw path is split into components, scored by how much of its leading
//! component sequence it shares with the reference path, and held in a
//! ranking structure that hands candidates out one at a time, highest score
//! first with ties in input order. A secondary mode instead orders candidates
//! of equal score by their raw bytes. The output is always a permutation of
//! the input: paths are emitted exactly as they were received.

pub mod components;
pub mod rank;
pub mod scoring;
pub mod secondary;
