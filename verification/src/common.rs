//! Utilities shared by the other modules.
pub mod minimap;

pub use minimap::MiniMap;
