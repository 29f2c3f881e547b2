//! Presentation helpers that compute on plain values.

pub mod hex_viewer;
pub mod map;
pub mod theme;
