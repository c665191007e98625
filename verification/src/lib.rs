//! Startup window geometry for a grid-cell based editor UI.
//!
//! The library resolves the initial window size, in character cells, from a
//! cascade of sources (command-line argument, persisted settings file,
//! built-in default), and translates live pixel resize notifications into
//! grid-cell resize commands.

pub mod geometry;
pub mod resize;
pub mod settings;
pub mod text;
