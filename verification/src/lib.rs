//! Inline-hint cache for a code editor.
//!
//! The cache stores inlay hints (inline type/parameter annotations supplied
//! by an external hint source) attached to positions inside open text
//! buffers, and keeps that state consistent as buffers edit and as the
//! visibility configuration changes.  The core of the crate is the
//! reconciliation engine: it merges freshly fetched hints into the cached
//! state by an ordered merge-join and produces a minimal splice of
//! insertions and removals for the view layer.

pub mod anchors;
pub mod hints;
pub mod merge;
pub mod cache;
pub mod laws;
