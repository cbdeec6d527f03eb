//! Changelog handling for release automation over a tree of buildpacks.
//!
//! The crate reads changelog documents into a structured model, renders the
//! model back to canonical text, and assembles release notes across projects.

pub mod aggregate;
pub mod buildpacks;
pub mod changelog;
pub mod classifier;
pub mod date;
pub mod invariants;
pub mod notes;
pub mod outcome;
pub mod render;
pub mod roundtrip;
pub mod scanner;
pub mod selection;
pub mod text;
pub mod tolerance;
pub mod versions;
