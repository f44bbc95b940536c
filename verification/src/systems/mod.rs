//! The systems that run once per frame.

pub mod collision_debug;
pub mod collisions;
pub mod damage;
pub mod kill_after;
