use context::error::InvalidReference;
use context::models::{FindResult, SearchResult, Status, SyncResult, Validation};
use context::paths::PathError;
use context::report::{
    error_line, find_text, invalid_references_text, join_with, list_lines, search_text, status_text,
    sync_text, validation_text,
};

fn s(text: &str) -> String {
    text.to_string()
}

fn sample() -> Vec<Validation> {
    let mut stale = Validation::new(s("/p/.context/a.md"), Status::Stale);
    stale.add_changed(s("src/a.rs"));
    stale.add_changed(s("src/b.rs"));
    let mut orphaned = Validation::new(s("/p/.context/b.md"), Status::Orphaned);
    orphaned.add_changed(s("src/c.rs"));
    orphaned.add_missing(s("src/d.rs"));
    vec![Validation::new(s("/p/.context/ok.md"), Status::Valid), stale, orphaned]
}

#[test]
fn join_and_list() {
    assert_eq!(join_with(&vec![], ", "), "");
    assert_eq!(join_with(&vec![s("a")], ", "), "a");
    assert_eq!(join_with(&vec![s("a"), s("b"), s("c")], ", "), "a, b, c");
    assert_eq!(list_lines(&vec![], "- "), "");
    assert_eq!(list_lines(&vec![s("a"), s("b")], "- "), "- a\n- b\n");
}

#[test]
fn status_as_text() {
    assert_eq!(status_text(&vec![]), "");
    assert_eq!(
        status_text(&sample()),
        "valid /p/.context/ok.md\n\
         stale /p/.context/a.md\n\
         \x20              changed: src/a.rs, src/b.rs\n\
         orphaned /p/.context/b.md\n\
         \x20              changed: src/c.rs\n\
         \x20              missing: src/d.rs\n"
    );
}

#[test]
fn validation_as_text() {
    assert_eq!(
        validation_text(&sample()),
        "✓ VALID /p/.context/ok.md\n\
         ⚠ STALE /p/.context/a.md\n\
         \x20 Changed files:\n\
         \x20   - src/a.rs\n\
         \x20   - src/b.rs\n\
         ✗ ORPHANED /p/.context/b.md\n\
         \x20 Changed files:\n\
         \x20   - src/c.rs\n\
         \x20 Missing files:\n\
         \x20   - src/d.rs\n"
    );
}

#[test]
fn search_and_find_as_text() {
    let found = vec![
        SearchResult::new(s("a.md"), s("About a"), Some(s("the snippet"))),
        SearchResult::new(s("b.md"), s("About b"), None),
    ];
    assert_eq!(search_text(&found), "a.md\n  About a\n  the snippet\nb.md\n  About b\n");
    let found = vec![FindResult::new(s("a.md"), s("About a"), vec![s("x/y.rs"), s("z.rs")])];
    assert_eq!(find_text(&found), "a.md\n  About a\n  references: x/y.rs, z.rs\n");
    assert_eq!(find_text(&vec![FindResult::new(s("a"), s(""), vec![])]), "a\n  \n  references: \n");
}

#[test]
fn sync_as_text() {
    let mut outcome = SyncResult::new();
    assert_eq!(sync_text(&outcome), "Synced 0 documents\n");
    outcome.count = 2;
    outcome.updated = vec![s("a.md"), s("b.md")];
    outcome.failed = vec![s("c.md: I/O error: denied")];
    assert_eq!(
        sync_text(&outcome),
        "Synced 2 documents\nUpdated:\n  a.md\n  b.md\nFailed:\n  c.md: I/O error: denied\n"
    );
}

#[test]
fn refusals_as_text() {
    let documents = vec![
        (
            s("a.md"),
            vec![
                InvalidReference::new(s("/etc/passwd"), PathError::Absolute),
                InvalidReference::new(s("src/none.rs"), PathError::NotFound),
            ],
        ),
        (s("b.md"), vec![InvalidReference::new(s("../x"), PathError::ParentTraversal)]),
    ];
    assert_eq!(
        invalid_references_text(&documents),
        "Error: Invalid references in 2 document(s)\n\n\
         \x20 a.md\n\
         \x20   - `/etc/passwd`: absolute path not allowed\n\
         \x20   - `src/none.rs`: file not found\n\
         \x20 b.md\n\
         \x20   - `../x`: parent traversal (..) not allowed\n"
    );
    assert_eq!(error_line("it broke"), "Error: it broke");
}
