use context::commands::{retain_invalid, status_exit_code, sync_exit_code, validation_exit_code};
use context::error::{map_exit_code, ContextError, InvalidReference};
use context::models::{FindResult, SearchResult, Status, SyncResult, Validation};
use context::paths::PathError;
use context::text::decimal;

fn with_status(path: &str, status: Status) -> Validation {
    Validation::new(path.to_string(), status)
}

#[test]
fn merge_takes_the_graver_status() {
    let all = [Status::Valid, Status::Stale, Status::Orphaned];
    for a in all {
        assert_eq!(a.merge(a), a);
        assert_eq!(a.merge(Status::Valid), a);
        assert_eq!(a.merge(Status::Orphaned), Status::Orphaned);
        for b in all {
            assert_eq!(a.merge(b), b.merge(a));
            for c in all {
                assert_eq!(a.merge(b).merge(c), a.merge(b.merge(c)));
            }
        }
    }
    assert_eq!(Status::Valid.merge(Status::Stale), Status::Stale);
    assert_eq!(Status::Orphaned.merge(Status::Stale), Status::Orphaned);
}

#[test]
fn status_labels() {
    assert_eq!(Status::Valid.label(), "valid");
    assert_eq!(Status::Stale.label(), "stale");
    assert_eq!(Status::Orphaned.label(), "orphaned");
}

#[test]
fn validation_collects_files() {
    let mut validation = Validation::new("a.md".to_string(), Status::Valid);
    assert_eq!(validation.path, "a.md");
    assert!(validation.changed.is_empty());
    assert!(validation.missing.is_empty());
    validation.add_changed("x".to_string());
    validation.add_missing("y".to_string());
    validation.add_changed("z".to_string());
    assert_eq!(validation.changed, vec!["x".to_string(), "z".to_string()]);
    assert_eq!(validation.missing, vec!["y".to_string()]);
    assert_eq!(validation.status, Status::Valid);
}

#[test]
fn results_hold_their_fields() {
    let search = SearchResult::new("a.md".to_string(), "about".to_string(), Some("snip".to_string()));
    assert_eq!(search.path, "a.md");
    assert_eq!(search.description, "about");
    assert_eq!(search.snippet, Some("snip".to_string()));
    let find = FindResult::new("b.md".to_string(), "what".to_string(), vec!["src/a.rs".to_string()]);
    assert_eq!(find.path, "b.md");
    assert_eq!(find.description, "what");
    assert_eq!(find.references, vec!["src/a.rs".to_string()]);
    let sync = SyncResult::new();
    assert_eq!(sync.count, 0);
    assert!(sync.updated.is_empty());
    assert!(sync.failed.is_empty());
    assert_eq!(SyncResult::default(), sync);
    let invalid = InvalidReference::new("p".to_string(), PathError::IsDirectory);
    assert_eq!(invalid.path, "p");
    assert_eq!(invalid.reason, PathError::IsDirectory);
}

#[test]
fn record_failure_moves_a_document_to_the_failed() {
    let mut result = SyncResult::new();
    result.updated = vec!["a.md".to_string(), "b.md".to_string(), "c.md".to_string()];
    result.count = 3;
    result.record_failure("b.md", &ContextError::IoError("disk full".to_string()));
    assert_eq!(result.updated, vec!["a.md".to_string(), "c.md".to_string()]);
    assert_eq!(result.count, 2);
    assert_eq!(result.failed, vec!["b.md: I/O error: disk full".to_string()]);
    result.record_failure("z.md", &ContextError::YamlError("bad".to_string()));
    assert_eq!(result.count, 2);
    assert_eq!(
        result.failed,
        vec!["b.md: I/O error: disk full".to_string(), "z.md: YAML error: bad".to_string()]
    );
}

#[test]
fn error_messages() {
    let s = |t: &str| t.to_string();
    assert_eq!(ContextError::IoError(s("x")).message(), "I/O error: x");
    assert_eq!(ContextError::YamlError(s("x")).message(), "YAML error: x");
    assert_eq!(ContextError::JsonError(s("x")).message(), "JSON error: x");
    assert_eq!(ContextError::InvalidDocument(s("x")).message(), "Invalid document: x");
    assert_eq!(ContextError::DocumentNotFound(s("x")).message(), "Document not found: x");
    assert_eq!(ContextError::InvalidHashFormat(s("x")).message(), "Invalid hash format: x");
    assert_eq!(ContextError::ValidationFailed(s("x")).message(), "Validation failed: x");
    assert_eq!(ContextError::NotInitialized(s("x")).message(), "Directory not initialized: x");
    assert_eq!(
        ContextError::NotARepository.message(),
        "fatal: not a context repository (or any parent directories): .context"
    );
    assert_eq!(ContextError::CacheError(s("x")).message(), "Cache error: x");
    assert_eq!(ContextError::SearchError(s("x")).message(), "Search error: x");
    assert_eq!(ContextError::SyncError(s("x")).message(), "Sync error: x");
    assert_eq!(ContextError::ConfigError(s("x")).message(), "Configuration error: x");
    assert_eq!(ContextError::Other(s("x")).message(), "x");
    assert_eq!(
        ContextError::InvalidReferences { count: 12, documents: vec![] }.message(),
        "Invalid references in 12 document(s)"
    );
}

#[test]
fn decimal_digits() {
    assert_eq!(decimal(0), "0");
    assert_eq!(decimal(7), "7");
    assert_eq!(decimal(10), "10");
    assert_eq!(decimal(4096), "4096");
    assert_eq!(decimal(usize::MAX), usize::MAX.to_string());
}

#[test]
fn exit_codes_of_errors() {
    assert_eq!(map_exit_code(true, None), 0);
    assert_eq!(map_exit_code(true, Some(&ContextError::NotARepository)), 0);
    assert_eq!(map_exit_code(false, Some(&ContextError::NotARepository)), 128);
    assert_eq!(map_exit_code(false, Some(&ContextError::NotInitialized("d".to_string()))), 3);
    assert_eq!(map_exit_code(false, Some(&ContextError::Other("o".to_string()))), 1);
    assert_eq!(map_exit_code(false, None), 1);
}

#[test]
fn exit_codes_of_statuses() {
    let none: Vec<Validation> = vec![];
    let valid = vec![with_status("a", Status::Valid)];
    let stale = vec![with_status("a", Status::Valid), with_status("b", Status::Stale)];
    let orphaned = vec![
        with_status("a", Status::Stale),
        with_status("b", Status::Orphaned),
        with_status("c", Status::Valid),
    ];
    assert_eq!(status_exit_code(&none), 0);
    assert_eq!(status_exit_code(&valid), 0);
    assert_eq!(status_exit_code(&stale), 1);
    assert_eq!(status_exit_code(&orphaned), 2);
    assert_eq!(validation_exit_code(&none), 0);
    assert_eq!(validation_exit_code(&valid), 0);
    assert_eq!(validation_exit_code(&stale), 1);
    assert_eq!(validation_exit_code(&orphaned), 1);
    let mut outcome = SyncResult::new();
    assert_eq!(sync_exit_code(&outcome), 0);
    outcome.failed.push("a: failed".to_string());
    assert_eq!(sync_exit_code(&outcome), 1);
}

#[test]
fn retain_invalid_keeps_order() {
    let all = vec![
        with_status("a", Status::Valid),
        with_status("b", Status::Stale),
        with_status("c", Status::Valid),
        with_status("d", Status::Valid),
        with_status("e", Status::Orphaned),
    ];
    let kept = retain_invalid(all);
    assert_eq!(kept, vec![with_status("b", Status::Stale), with_status("e", Status::Orphaned)]);
    assert!(retain_invalid(vec![with_status("a", Status::Valid)]).is_empty());
    assert!(retain_invalid(vec![]).is_empty());
}
