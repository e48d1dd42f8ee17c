//! The errors of the library.

use vstd::prelude::*;
use vstd::string::StringExecFns;
use crate::paths::PathError;
use crate::text::{concat, decimal, decimal_text};

verus! {

/// A mention that was refused.
#[derive(Debug, Clone, PartialEq, Eq)]
pub struct InvalidReference {
    /// The path as the document names it.
    pub path: String,
    /// Why it was refused.
    pub reason: PathError,
}

impl InvalidReference {
    /// The refusal of `path` for `reason`.
    pub fn new(path: String, reason: PathError) -> (invalid: Self)
        ensures
            invalid.path == path,
            invalid.reason == reason,
    {
        InvalidReference { path, reason }
    }
}

/// What can go wrong.
#[derive(Debug, Clone, PartialEq, Eq)]
pub enum ContextError {
    /// A file could not be read or written.
    IoError(String),
    /// A metadata block is no valid YAML.
    YamlError(String),
    /// A value could not be written as JSON.
    JsonError(String),
    /// A metadata block lacks what a document needs.
    InvalidDocument(String),
    /// No document lies at the location.
    DocumentNotFound(String),
    /// A fingerprint has not the form of one.
    InvalidHashFormat(String),
    /// A validation failed.
    ValidationFailed(String),
    /// The directory holds no cache.
    NotInitialized(String),
    /// Neither the directory nor one above it holds a cache.
    NotARepository,
    /// The cache is in no state to answer.
    CacheError(String),
    /// A search failed.
    SearchError(String),
    /// A synchronization failed.
    SyncError(String),
    /// The configuration is wrong.
    ConfigError(String),
    /// Documents of one batch mention paths that were refused.
    InvalidReferences {
        /// The number of such documents.
        count: usize,
        /// Each such document's location, with its refused mentions.
        documents: Vec<(String, Vec<InvalidReference>)>,
    },
    /// Anything else.
    Other(String),
}

impl ContextError {
    /// The error in words.
    pub open spec fn message_spec(&self) -> Seq<char> {
        match self {
            ContextError::IoError(m) => "I/O error: "@ + m@,
            ContextError::YamlError(m) => "YAML error: "@ + m@,
            ContextError::JsonError(m) => "JSON error: "@ + m@,
            ContextError::InvalidDocument(m) => "Invalid document: "@ + m@,
            ContextError::DocumentNotFound(m) => "Document not found: "@ + m@,
            ContextError::InvalidHashFormat(m) => "Invalid hash format: "@ + m@,
            ContextError::ValidationFailed(m) => "Validation failed: "@ + m@,
            ContextError::NotInitialized(m) => "Directory not initialized: "@ + m@,
            ContextError::NotARepository => "fatal: not a context repository (or any parent directories): .context"@,
            ContextError::CacheError(m) => "Cache error: "@ + m@,
            ContextError::SearchError(m) => "Search error: "@ + m@,
            ContextError::SyncError(m) => "Sync error: "@ + m@,
            ContextError::ConfigError(m) => "Configuration error: "@ + m@,
            ContextError::InvalidReferences { count, documents } => "Invalid references in "@
                + decimal_text(*count as nat) + " document(s)"@,
            ContextError::Other(m) => m@,
        }
    }

    /// The error in words.
    pub fn message(&self) -> (text: String)
        ensures
            text@ == self.message_spec(),
    {
        match self {
            ContextError::IoError(m) => concat("I/O error: ", m.as_str()),
            ContextError::YamlError(m) => concat("YAML error: ", m.as_str()),
            ContextError::JsonError(m) => concat("JSON error: ", m.as_str()),
            ContextError::InvalidDocument(m) => concat("Invalid document: ", m.as_str()),
            ContextError::DocumentNotFound(m) => concat("Document not found: ", m.as_str()),
            ContextError::InvalidHashFormat(m) => concat("Invalid hash format: ", m.as_str()),
            ContextError::ValidationFailed(m) => concat("Validation failed: ", m.as_str()),
            ContextError::NotInitialized(m) => concat("Directory not initialized: ", m.as_str()),
            ContextError::NotARepository => {
                "fatal: not a context repository (or any parent directories): .context".to_owned()
            },
            ContextError::CacheError(m) => concat("Cache error: ", m.as_str()),
            ContextError::SearchError(m) => concat("Search error: ", m.as_str()),
            ContextError::SyncError(m) => concat("Sync error: ", m.as_str()),
            ContextError::ConfigError(m) => concat("Configuration error: ", m.as_str()),
            ContextError::InvalidReferences { count, documents } => {
                let mut text = concat("Invalid references in ", decimal(*count).as_str());
                text.append(" document(s)");
                text
            },
            ContextError::Other(m) => m.clone(),
        }
    }
}

/// The exit code of the program after a run; 0 after success.
pub open spec fn exit_code(success: bool, error: Option<&ContextError>) -> i32 {
    if success {
        0
    } else {
        match error {
            Some(ContextError::NotARepository) => 128,
            Some(ContextError::NotInitialized(_)) => 3,
            _ => 1,
        }
    }
}

/// The exit code of the program after a run: 0 after success, 128 where no
/// cache was found, 3 where the directory holds none, 1 after any other
/// failure.
pub fn map_exit_code(success: bool, error: Option<&ContextError>) -> (code: i32)
    ensures
        code == exit_code(success, error),
{
    if success {
        return 0;
    }
    match error {
        Some(ContextError::NotARepository) => 128,
        Some(ContextError::NotInitialized(_)) => 3,
        _ => 1,
    }
}

} // verus!
