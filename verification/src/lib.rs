//! Per-frame collision detection for circles and axis-aligned boxes.
//!
//! Every frame the broad-phase detector reads the live shapes, finds the
//! overlapping pairs and publishes, for each entity, the set of entities
//! that touch it. The per-entity sets are recycled through a pool.

pub mod components;
pub mod entity;
pub mod geometry;
pub mod graph;
pub mod input;
pub mod mask;
pub mod pairs;
pub mod systems;
