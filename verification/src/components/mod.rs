//! The components that the engine reads and publishes.

pub mod colliders;
pub mod markers;
pub mod storage;
