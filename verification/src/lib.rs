//! Storage substrate for a segment-based search index: binary serialization
//! primitives, a page-based memory arena addressed by 32-bit handles, and a
//! composite file container that multiplexes per-field byte streams into one
//! footer-indexed blob.

pub mod composite_file;
pub mod date_time_options;
pub mod fastfield;
pub mod json_path_writer;
pub mod memory_arena;
pub mod schema;
pub mod serialize;
pub mod vint;
