//! Core logic of a Markdown-to-PDF document pipeline: preprocessing with
//! position anchors, admonition rewriting, asset path normalisation, source
//! map construction, render orchestration, and an incremental render cache.
//!
//! All text is handled as byte strings (`Vec<u8>` / `&[u8]`); byte offsets are
//! the common currency between the editor, the preprocessor and the source
//! map.

pub mod admonitions;
pub mod bytes;
pub mod files;
pub mod fonts;
pub mod incremental;
pub mod logger;
pub mod naming;
pub mod pipeline;
pub mod prefs;
pub mod preprocessor;
pub mod rewrite;
pub mod sourcemap;
pub mod splice;

