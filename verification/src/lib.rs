//! Core logic of a clipboard-history panel widget: a bounded, ordered
//! history of clipboard entries with deduplication, pinning (pinned items
//! form a contiguous prefix and are never evicted) and noise filtering.
//!
//! The windowing, rendering and clipboard I/O around this logic live in the
//! accompanying application; this crate holds only the data and ordering
//! rules, each stated as a contract and verified.

pub mod entry;
pub mod history;
pub mod ingest;
pub mod laws;
pub mod model;
pub mod summary;
