//! A scene of nested sprites and the animations that run on them.

pub mod laws;
pub mod registry;
pub mod scene;
pub mod sprite;
