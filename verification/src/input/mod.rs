//! Input handling.

pub mod bindings;
