//! A versioned index of update tuples `(key, value, time, multiplicity)`.
//!
//! Immutable batches ([`layer::Layer`]) hold consolidated updates; a
//! [`spine::Spine`] keeps a geometrically shrinking stack of batches and
//! merges them as new ones arrive.

pub mod update;
pub mod lattice;
pub mod consolidation;
pub mod description;
pub mod layer;
pub mod cursor;
pub mod builder;
pub mod spine;
pub mod laws;
