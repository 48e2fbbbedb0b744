//! Turns a newline-delimited knowledge-graph dump into a category-bucketed
//! corpus of sentences and questions: an identifier-to-label cache built in
//! a pre-pass and persisted between runs, typed property extraction over
//! each record's claims, template-driven sentence and question generation,
//! and category-keyed delimited output sinks. Reading the dump, the network
//! lookups and the writes to disk stay with the caller; everything that
//! decides or computes lives here.

pub mod batched_writer;
pub mod cache;
pub mod codec;
pub mod csv_writer_pool;
pub mod coords;
pub mod dates;
pub mod entity;
pub mod entity_resolver;
pub mod extract;
pub mod processing_error;
pub mod templates;
pub mod utils;

use vstd::prelude::*;

verus! {

/// Run-wide settings handed in by the caller: the target language code,
/// the directory output files go to, and whether an existing persisted
/// label cache is rebuilt instead of loaded.
pub struct Config {
    /// Preferred language for labels, descriptions and aliases.
    pub lang: String,
    /// Output directory for category files and the persisted cache.
    pub output_dir: String,
    /// Rebuild the label cache even when a persisted file exists.
    pub recreate_cache: bool,
}

} // verus!
