use context::cache::Cache;
use context::document::Document;
use context::error::ContextError;
use context::tree::{Entry, FileTree};

fn setup_project() -> FileTree {
    let mut tree = FileTree::new();
    tree.insert("/proj/src".to_string(), Entry::Directory);
    tree.insert("/proj/src/main.rs".to_string(), Entry::File(b"fn main() {}".to_vec()));
    tree.insert("/proj/src/lib.rs".to_string(), Entry::File(b"// lib".to_vec()));
    tree.insert("/proj/.context".to_string(), Entry::Directory);
    tree.insert("/proj/.context/guides".to_string(), Entry::Directory);
    tree.insert("/proj/.context/references".to_string(), Entry::Directory);
    tree
}

#[test]
fn test_sync_valid_references() {
    let tree = setup_project();
    let doc_content = r#"---
slug: main
description: ""
references: {}
updated: ""
---

# Main Module

The entry point is in `src/main.rs`.
"#;
    let doc_path = "/proj/.context/guides/main.md";
    let mut doc = Document::load(doc_path.to_string(), doc_content).unwrap();
    doc.sync(&tree).unwrap();

    assert!(doc.references.contains_key("src/main.rs"));
    assert!(!doc.updated.is_empty());

    let saved = doc.encode().unwrap();
    let reloaded = Document::load(doc_path.to_string(), &saved).unwrap();
    assert!(reloaded.references.contains_key("src/main.rs"));
}

#[test]
fn test_sync_missing_file_fails() {
    let tree = setup_project();
    let doc_content = r#"---
slug: missing
description: ""
references: {}
updated: ""
---

# Missing

See `src/nonexistent.rs` for details.
"#;
    let mut doc = Document::load("/proj/.context/guides/missing.md".to_string(), doc_content).unwrap();
    let result = doc.sync(&tree);

    assert!(result.is_err());
    let err = result.unwrap_err();
    assert!(err.message().contains("Invalid references"));
}

#[test]
fn test_sync_parent_traversal_fails() {
    let tree = setup_project();
    let doc_content = r#"---
slug: escape
description: ""
references: {}
updated: ""
---

# Escape Attempt

This references `../outside.rs`.
"#;
    let mut doc = Document::load("/proj/.context/guides/escape.md".to_string(), doc_content).unwrap();
    let result = doc.sync(&tree);

    assert!(result.is_err());
}

#[test]
fn test_sync_no_frontmatter_creates_default() {
    let tree = setup_project();
    let doc_content = r#"# No Frontmatter

This document references `src/main.rs`.
"#;
    let doc_path = "/proj/.context/guides/nofm.md";
    let mut doc = Document::load(doc_path.to_string(), doc_content).unwrap();
    assert_eq!(doc.slug, "nofm");
    assert!(doc.description.is_empty());

    doc.sync(&tree).unwrap();

    assert!(doc.references.contains_key("src/main.rs"));
    assert!(!doc.updated.is_empty());

    let saved = doc.encode().unwrap();
    let reloaded = Document::load(doc_path.to_string(), &saved).unwrap();
    assert_eq!(reloaded.slug, "nofm");
    assert!(reloaded.references.contains_key("src/main.rs"));
}

#[test]
fn test_sync_empty_body_clears_references() {
    let tree = setup_project();
    let doc_content = r#"---
slug: empty
description: "An empty document"
references:
  src/main.rs: abc1234
updated: "2025-01-01"
---

# Empty

No file references here.
"#;
    let mut doc = Document::load("/proj/.context/guides/empty.md".to_string(), doc_content).unwrap();
    assert!(!doc.references.is_empty());

    doc.sync(&tree).unwrap();

    assert!(doc.references.is_empty());
}

#[test]
fn test_cache_sync_atomic_failure() {
    let tree = setup_project();
    let valid_content = r#"---
slug: valid
description: ""
references: {}
updated: ""
---

Uses `src/main.rs`.
"#;
    let invalid_content = r#"---
slug: invalid
description: ""
references: {}
updated: ""
---

Uses `src/missing.rs`.
"#;
    let files = vec![
        ("/proj/.context/guides/valid.md".to_string(), valid_content.to_string()),
        ("/proj/.context/guides/invalid.md".to_string(), invalid_content.to_string()),
    ];

    let mut cache = Cache::create("/proj/.context".to_string()).unwrap();
    cache.load(files).unwrap();

    let result = cache.sync(None, &tree);
    assert!(result.is_err());

    let valid_doc = &cache.documents()[0];
    assert_eq!(valid_doc.path, "/proj/.context/guides/valid.md");
    assert!(valid_doc.references.is_empty());
    assert_eq!(valid_doc.updated, "");
}

#[test]
fn test_sync_deduplicates_references() {
    let tree = setup_project();
    let doc_content = r#"---
slug: dedup
description: ""
references: {}
updated: ""
---

# Deduplication

First mention: `src/main.rs`
Second mention: `src/main.rs`
Third mention: `./src/main.rs`
"#;
    let mut doc = Document::load("/proj/.context/guides/dedup.md".to_string(), doc_content).unwrap();
    doc.sync(&tree).unwrap();

    assert_eq!(doc.references.len(), 1);
    assert!(doc.references.contains_key("src/main.rs"));
}

#[test]
fn test_sync_ignores_code_blocks() {
    let tree = setup_project();
    let doc_content = r#"---
slug: codeblock
description: ""
references: {}
updated: ""
---

# Code Block Test

Real reference: `src/main.rs`

```rust
// This should be ignored
let path = `src/nonexistent.rs`;
```

```
`another/fake/path.rs`
```
"#;
    let mut doc = Document::load("/proj/.context/guides/codeblock.md".to_string(), doc_content).unwrap();
    doc.sync(&tree).unwrap();

    assert_eq!(doc.references.len(), 1);
    assert!(doc.references.contains_key("src/main.rs"));
}

#[test]
fn test_sync_multiple_valid_references() {
    let tree = setup_project();
    let doc_content = r#"---
slug: multi
description: ""
references: {}
updated: ""
---

# Multiple References

See `src/main.rs` for the entry point.
The library code is in `src/lib.rs`.
"#;
    let mut doc = Document::load("/proj/.context/guides/multi.md".to_string(), doc_content).unwrap();
    doc.sync(&tree).unwrap();

    assert_eq!(doc.references.len(), 2);
    assert!(doc.references.contains_key("src/main.rs"));
    assert!(doc.references.contains_key("src/lib.rs"));
}

#[test]
fn sync_without_project_root_fails() {
    let tree = setup_project();
    let mut doc = Document::load("/elsewhere/notes.md".to_string(), "See `src/main.rs`.").unwrap();
    assert_eq!(
        doc.sync(&tree),
        Err(ContextError::SyncError("Could not determine project root".to_string()))
    );
    assert!(doc.references.is_empty());
}

#[test]
fn sync_sets_today_as_a_date() {
    let tree = setup_project();
    let mut doc = Document::load("/proj/.context/a.md".to_string(), "See `src/main.rs`.").unwrap();
    doc.sync(&tree).unwrap();
    let day: Vec<char> = doc.updated.chars().collect();
    assert_eq!(day.len(), 10);
    assert_eq!(day[4], '-');
    assert_eq!(day[7], '-');
    assert!(day.iter().filter(|c| c.is_ascii_digit()).count() == 8);
}

#[test]
fn sync_on_a_given_day() {
    let tree = setup_project();
    let mut doc = Document::load("/proj/.context/a.md".to_string(), "See `./src/lib.rs`.").unwrap();
    assert_eq!(doc.sync_on(&tree, "2031-12-24"), Ok(()));
    assert_eq!(doc.updated, "2031-12-24");
    assert_eq!(doc.references.len(), 1);
    assert_eq!(
        doc.references.get("src/lib.rs"),
        Some(&context::fingerprint::hash(b"// lib"))
    );
}

#[test]
fn sync_reports_unreadable_file_and_changes_nothing() {
    let mut tree = setup_project();
    tree.insert("/proj/src/locked.rs".to_string(), Entry::Unreadable("permission denied".to_string()));
    let content = "---\nslug: a\nreferences:\n  old/one.rs: abc1234\nupdated: \"2020-01-01\"\n---\n\n`src/locked.rs` and `src/main.rs`";
    let mut doc = Document::load("/proj/.context/a.md".to_string(), content).unwrap();
    assert_eq!(
        doc.sync_on(&tree, "2031-12-24"),
        Err(ContextError::IoError("permission denied".to_string()))
    );
    assert_eq!(doc.updated, "2020-01-01");
    assert_eq!(doc.references.len(), 1);
    assert!(doc.references.contains_key("old/one.rs"));
}

#[test]
fn sync_refuses_before_it_reads() {
    let mut tree = setup_project();
    tree.insert("/proj/src/locked.rs".to_string(), Entry::Unreadable("permission denied".to_string()));
    let mut doc =
        Document::load("/proj/.context/a.md".to_string(), "`src/locked.rs` and `src/gone.rs`").unwrap();
    match doc.sync_on(&tree, "2031-12-24") {
        Err(ContextError::InvalidReferences { count, documents }) => {
            assert_eq!(count, 1);
            assert_eq!(documents.len(), 1);
            assert_eq!(documents[0].0, "/proj/.context/a.md");
            assert_eq!(documents[0].1.len(), 1);
            assert_eq!(documents[0].1[0].path, "src/gone.rs");
        }
        other => panic!("expected refusals, got {:?}", other),
    }
}
