//! Utilities: graphs, error messages, tags, STL meshes, array layouts and text
//! helpers.
pub mod error;
pub mod extract;
pub mod graph;
pub mod io;
pub mod numpy;
pub mod text;
