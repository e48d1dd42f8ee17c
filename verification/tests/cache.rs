use context::cache::{Cache, INDEX_TEMPLATE};
use context::error::ContextError;
use context::models::Status;
use context::tree::{Entry, FileTree};

fn files(list: Vec<(&str, &str)>) -> Vec<(String, String)> {
    list.into_iter().map(|(p, c)| (p.to_string(), c.to_string())).collect()
}

fn project() -> FileTree {
    let mut tree = FileTree::new();
    tree.insert("/p/src/a.rs".to_string(), Entry::File(b"a".to_vec()));
    tree.insert("/p/src/b.rs".to_string(), Entry::File(b"b".to_vec()));
    tree
}

#[test]
fn create_gives_an_empty_cache() {
    let cache = Cache::create("/p/.context".to_string()).unwrap();
    assert_eq!(cache.root(), "/p/.context");
    assert!(cache.documents().is_empty());
    assert!(cache.index().is_none());
    assert!(cache.guides().is_none());
    assert!(cache.references().is_none());
}

#[test]
fn init_lists_what_to_create() {
    let (cache, layout) = Cache::init("/p/.context".to_string());
    assert_eq!(cache.root(), "/p/.context");
    assert_eq!(
        layout.directories,
        vec![
            "/p/.context".to_string(),
            "/p/.context/guides".to_string(),
            "/p/.context/references".to_string(),
        ]
    );
    assert_eq!(
        layout.files,
        vec![
            ("/p/.context/index.md".to_string(), INDEX_TEMPLATE.to_string()),
            ("/p/.context/guides/index.md".to_string(), INDEX_TEMPLATE.to_string()),
            ("/p/.context/references/index.md".to_string(), INDEX_TEMPLATE.to_string()),
        ]
    );
}

#[test]
fn template_is_an_index_document() {
    let mut cache = Cache::create("/p/.context".to_string()).unwrap();
    cache.load(files(vec![("/p/.context/index.md", INDEX_TEMPLATE)])).unwrap();
    let index = cache.index().unwrap();
    assert_eq!(index.slug, "index");
    assert_eq!(index.description, "");
    assert!(index.references.is_empty());
    assert_eq!(index.updated, "");
    assert_eq!(index.body, "");
}

#[test]
fn load_takes_documents_only_and_finds_the_index_files() {
    let mut cache = Cache::create("/p/.context".to_string()).unwrap();
    cache
        .load(files(vec![
            ("/p/.context/guides/index.md", "guides"),
            ("/p/.context/notes.txt", "no document"),
            ("/p/.context/guides/a.md", "a"),
            ("/p/.context/.md", "hidden file without suffix"),
            ("/p/.context/index.md", "root"),
            ("/p/.context/references/index.md", "refs"),
            ("/p/.context/references", "a directory"),
        ]))
        .unwrap();
    let paths: Vec<&str> = cache.documents().iter().map(|d| d.path.as_str()).collect();
    assert_eq!(
        paths,
        vec![
            "/p/.context/guides/index.md",
            "/p/.context/guides/a.md",
            "/p/.context/index.md",
            "/p/.context/references/index.md",
        ]
    );
    assert_eq!(cache.index().unwrap().body, "root");
    assert_eq!(cache.guides().unwrap().body, "guides");
    assert_eq!(cache.references().unwrap().body, "refs");
}

#[test]
fn load_replaces_what_was_loaded() {
    let mut cache = Cache::create("/p/.context".to_string()).unwrap();
    cache.load(files(vec![("/p/.context/index.md", "one"), ("/p/.context/a.md", "a")])).unwrap();
    assert_eq!(cache.documents().len(), 2);
    cache.load(files(vec![("/p/.context/b.md", "b")])).unwrap();
    assert_eq!(cache.documents().len(), 1);
    assert_eq!(cache.documents()[0].path, "/p/.context/b.md");
    assert!(cache.index().is_none());
}

#[test]
fn load_fails_as_a_whole() {
    let mut cache = Cache::create("/p/.context".to_string()).unwrap();
    cache.load(files(vec![("/p/.context/a.md", "a")])).unwrap();
    let result = cache.load(files(vec![
        ("/p/.context/index.md", "fine"),
        ("/p/.context/bad.md", "---\ndescription: no slug\n---\n"),
        ("/p/.context/worse.md", "---\n- list\n---\n"),
    ]));
    assert_eq!(
        result,
        Err(ContextError::InvalidDocument("Missing or invalid 'slug' field".to_string()))
    );
    assert!(cache.documents().is_empty());
    assert!(cache.index().is_none());
}

#[test]
fn status_keeps_the_order_of_the_documents() {
    let mut cache = Cache::create("/p/.context".to_string()).unwrap();
    cache
        .load(files(vec![
            ("/p/.context/one.md", "`src/a.rs`"),
            ("/p/.context/two.md", "`src/b.rs`"),
            ("/p/.context/three.md", "nothing"),
        ]))
        .unwrap();
    cache.sync_on(None, &project(), "2030-01-01").unwrap();
    let mut tree = FileTree::new();
    tree.insert("/p/src/a.rs".to_string(), Entry::File(b"changed".to_vec()));
    let statuses = cache.status(&tree).unwrap();
    assert_eq!(statuses.len(), 3);
    assert_eq!(statuses[0].path, "/p/.context/one.md");
    assert_eq!(statuses[0].status, Status::Stale);
    assert_eq!(statuses[1].path, "/p/.context/two.md");
    assert_eq!(statuses[1].status, Status::Orphaned);
    assert_eq!(statuses[2].path, "/p/.context/three.md");
    assert_eq!(statuses[2].status, Status::Valid);
    assert_eq!(cache.validate(None, &tree).unwrap(), statuses);
}

#[test]
fn status_fails_with_the_first_unreadable_reference() {
    let mut cache = Cache::create("/p/.context".to_string()).unwrap();
    cache
        .load(files(vec![
            ("/p/.context/one.md", "`src/a.rs`"),
            ("/p/.context/two.md", "`src/b.rs`"),
        ]))
        .unwrap();
    cache.sync_on(None, &project(), "2030-01-01").unwrap();
    let mut tree = project();
    tree.insert("/p/src/b.rs".to_string(), Entry::Unreadable("broken".to_string()));
    assert_eq!(cache.status(&tree), Err(ContextError::IoError("broken".to_string())));
}

#[test]
fn validate_one_document() {
    let mut cache = Cache::create("/p/.context".to_string()).unwrap();
    cache
        .load(files(vec![("/p/.context/one.md", "`src/a.rs`"), ("/p/.context/two.md", "`src/b.rs`")]))
        .unwrap();
    cache.sync_on(None, &project(), "2030-01-01").unwrap();
    let found = cache.validate(Some("/p/.context/two.md"), &project()).unwrap();
    assert_eq!(found.len(), 1);
    assert_eq!(found[0].path, "/p/.context/two.md");
    assert_eq!(found[0].status, Status::Valid);
    assert_eq!(
        cache.validate(Some("/p/.context/three.md"), &project()),
        Err(ContextError::DocumentNotFound("/p/.context/three.md".to_string()))
    );
}

#[test]
fn sync_of_one_document_leaves_the_others() {
    let mut cache = Cache::create("/p/.context".to_string()).unwrap();
    cache
        .load(files(vec![
            ("/p/.context/one.md", "`src/a.rs`"),
            ("/p/.context/two.md", "`src/missing.rs`"),
        ]))
        .unwrap();
    let result = cache.sync_on(Some("/p/.context/one.md"), &project(), "2030-01-01").unwrap();
    assert_eq!(result.count, 1);
    assert_eq!(result.updated, vec!["/p/.context/one.md".to_string()]);
    assert!(result.failed.is_empty());
    assert_eq!(cache.documents()[0].updated, "2030-01-01");
    assert_eq!(cache.documents()[0].references.len(), 1);
    assert_eq!(cache.documents()[1].updated, "");
    assert!(cache.documents()[1].references.is_empty());
}

#[test]
fn sync_of_no_document_does_nothing() {
    let mut cache = Cache::create("/p/.context".to_string()).unwrap();
    cache.load(files(vec![("/p/.context/one.md", "`src/a.rs`")])).unwrap();
    let result = cache.sync_on(Some("/p/.context/none.md"), &project(), "2030-01-01").unwrap();
    assert_eq!(result.count, 0);
    assert!(result.updated.is_empty());
    assert!(result.failed.is_empty());
    assert_eq!(cache.documents()[0].updated, "");
}

#[test]
fn sync_goes_on_after_a_file_that_cannot_be_read() {
    let mut cache = Cache::create("/p/.context".to_string()).unwrap();
    cache
        .load(files(vec![
            ("/p/.context/one.md", "`src/a.rs`"),
            ("/p/.context/two.md", "`src/locked.rs`"),
            ("/p/.context/three.md", "`src/b.rs`"),
        ]))
        .unwrap();
    let mut tree = project();
    tree.insert("/p/src/locked.rs".to_string(), Entry::Unreadable("denied".to_string()));
    let result = cache.sync_on(None, &tree, "2030-01-01").unwrap();
    assert_eq!(result.count, 2);
    assert_eq!(
        result.updated,
        vec!["/p/.context/one.md".to_string(), "/p/.context/three.md".to_string()]
    );
    assert_eq!(result.failed, vec!["/p/.context/two.md: I/O error: denied".to_string()]);
    assert_eq!(cache.documents()[0].updated, "2030-01-01");
    assert_eq!(cache.documents()[1].updated, "");
    assert!(cache.documents()[1].references.is_empty());
    assert_eq!(cache.documents()[2].updated, "2030-01-01");
}

#[test]
fn sync_today_through_the_cache() {
    let mut cache = Cache::create("/p/.context".to_string()).unwrap();
    cache.load(files(vec![("/p/.context/one.md", "`src/a.rs`")])).unwrap();
    let result = cache.sync(None, &project()).unwrap();
    assert_eq!(result.count, 1);
    assert_eq!(cache.documents()[0].updated.len(), 10);
}

#[test]
fn resolve_finds_a_document_as_written_or_below_the_root() {
    let mut cache = Cache::create("/p/.context".to_string()).unwrap();
    cache.load(files(vec![("/p/.context/guides/a.md", "a")])).unwrap();
    assert_eq!(cache.resolve_doc_path("/p/.context/guides/a.md"), Ok("/p/.context/guides/a.md".to_string()));
    assert_eq!(cache.resolve_doc_path("guides/a.md"), Ok("/p/.context/guides/a.md".to_string()));
    assert_eq!(
        cache.resolve_doc_path("guides/b.md"),
        Err(ContextError::DocumentNotFound("guides/b.md".to_string()))
    );
}

#[test]
fn search_and_find_answer_nothing() {
    let mut cache = Cache::create("/p/.context".to_string()).unwrap();
    cache.load(files(vec![("/p/.context/one.md", "`src/a.rs`")])).unwrap();
    assert_eq!(cache.search("anything"), Ok(vec![]));
    assert_eq!(cache.find(&["src/a.rs"]), Ok(vec![]));
}

#[test]
fn cache_lists_the_locations_it_reads() {
    let mut cache = Cache::create("/p/.context".to_string()).unwrap();
    cache
        .load(files(vec![
            ("/p/.context/one.md", "`src/a.rs` `../x`"),
            ("/q/two.md", "`src/b.rs`"),
            ("/p/.context/three.md", "`src/b.rs`"),
        ]))
        .unwrap();
    assert_eq!(cache.locations_read(), vec!["/p/src/a.rs".to_string(), "/p/src/b.rs".to_string()]);
}
