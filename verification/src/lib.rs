//! Dead-export scanner for TypeScript-style source trees.
//!
//! The library discovers exported symbols in a set of source files, tracks
//! which of them are referenced (locally or through imports from other
//! files), and reports exports that are never consumed.  All text is modelled
//! as byte sequences; callers hand in file contents and receive plain values
//! back, so the scanning, grammar and graph logic here is purely functional.

pub mod decls;
pub mod files;
pub mod git;
pub mod graph;
pub mod ids;
pub mod imports;
pub mod resolve;
pub mod strip;
pub mod text;

pub use ids::generate_entity_id;
