//! Extraction of a typed code graph from API descriptions and parsed source.

pub mod text;
pub mod model;
pub mod ids;
pub mod graph;
pub mod index;
pub mod calls;
pub mod source;
pub mod api;
pub mod walker;
pub mod derives;
pub mod merge;
pub mod mermaid;
pub mod types;
pub mod attrs;
