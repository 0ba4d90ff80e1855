//! Core of a desktop link-page application: an in-memory state store for the
//! site owner's profile and ordered link collection, a byte-exact JSON codec
//! for the persisted files and the builder config, a traversal-safe archive
//! extraction planner, and a bundle packager for exporting the rendered site.

pub mod archive;
pub mod bundle;
pub mod generate;
pub mod json;
pub mod parse;
pub mod persist;
pub mod state;
