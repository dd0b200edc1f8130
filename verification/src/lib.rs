//! Core data model of a 2D tile-based platformer: tile definitions and their
//! collision semantics, a name-to-definition registry with fallback lookup,
//! sparse level data with a canonical text format, asset metadata, and the
//! toroidal motion system that wraps entities around the level borders.

pub mod pos;
pub mod bytestr;
pub mod assoc;
pub mod assets;
pub mod tile_definition;
pub mod level;
pub mod codec;
pub mod level_wrapping;
