//! Reference integrity for a cache of documentation files.
//!
//! Each document names, in backticks, the source files it describes, and
//! stores a fingerprint of each. The library finds those mentions, judges
//! them against a snapshot of the project tree, fingerprints the files, and
//! tells whether a document is still valid, stale or orphaned. It reads and
//! writes no file itself: the caller hands it what lies on disk and stores
//! what it returns.

pub mod cache;
pub mod clock;
pub mod commands;
pub mod discovery;
pub mod document;
pub mod error;
pub mod fingerprint;
pub mod frontmatter;
pub mod location;
pub mod models;
pub mod paths;
pub mod report;
pub mod scanning;
pub mod text;
pub mod text_map;
pub mod tree;
pub mod yaml;
