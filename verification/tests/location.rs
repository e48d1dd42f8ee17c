use context::discovery::{discover_root, find_context_root, root_candidates};
use context::error::ContextError;
use context::location::{has_document_suffix, join, project_root_of_location, CONTEXT_DIR_NAME};
use context::text::{is_space, to_chars};
use context::text_map::TextMap;
use context::tree::{Entry, FileTree};

#[test]
fn join_resolves_against_a_base() {
    assert_eq!(join("/a/b", "c/d"), "/a/b/c/d");
    assert_eq!(join("/a/b/", "c"), "/a/b/c");
    assert_eq!(join("", "c/d"), "c/d");
    assert_eq!(join("/", "c"), "/c");
    assert_eq!(join("/a", "/etc/passwd"), "/etc/passwd");
    assert_eq!(join("/a", ""), "/a/");
}

#[test]
fn project_root_is_the_parent_of_the_marker() {
    assert_eq!(CONTEXT_DIR_NAME, ".context");
    assert_eq!(project_root_of_location("/p/.context/guides/a.md"), Some("/p".to_string()));
    assert_eq!(project_root_of_location("/p/.context/a.md"), Some("/p".to_string()));
    assert_eq!(project_root_of_location("/.context/a.md"), Some("/".to_string()));
    assert_eq!(project_root_of_location(".context/a.md"), Some(String::new()));
    assert_eq!(project_root_of_location("p/.context/a.md"), Some("p".to_string()));
    assert_eq!(
        project_root_of_location("/p/.context/q/.context/a.md"),
        Some("/p/.context/q".to_string())
    );
    assert_eq!(project_root_of_location("/p/context/a.md"), None);
    assert_eq!(project_root_of_location("/p/.contexts/a.md"), None);
    assert_eq!(project_root_of_location("/p/.context"), None);
    assert_eq!(project_root_of_location("a.md"), None);
    assert_eq!(project_root_of_location(""), None);
    assert_eq!(project_root_of_location("/"), None);
}

#[test]
fn document_suffix() {
    assert!(has_document_suffix("a.md"));
    assert!(has_document_suffix("/p/.context/guides/index.md"));
    assert!(has_document_suffix("a.b.md"));
    assert!(has_document_suffix("..md"));
    assert!(!has_document_suffix(".md"));
    assert!(!has_document_suffix("/p/.md"));
    assert!(!has_document_suffix("a.mdx"));
    assert!(!has_document_suffix("a.MD"));
    assert!(!has_document_suffix("amd"));
    assert!(!has_document_suffix("a.md/b"));
    assert!(!has_document_suffix(""));
}

#[test]
fn candidates_go_upward() {
    assert_eq!(
        root_candidates("/a/b"),
        vec!["/a/b/.context".to_string(), "/a/.context".to_string(), "/.context".to_string()]
    );
    assert_eq!(root_candidates("/"), vec!["/.context".to_string()]);
    assert_eq!(root_candidates(""), vec![".context".to_string()]);
    assert_eq!(root_candidates("a"), vec!["a/.context".to_string(), ".context".to_string()]);
}

#[test]
fn discover_takes_the_nearest_marker() {
    let mut tree = FileTree::new();
    tree.insert("/a/.context".to_string(), Entry::Directory);
    tree.insert("/.context".to_string(), Entry::Directory);
    assert_eq!(discover_root("/a/b/c", &tree), Ok("/a/.context".to_string()));
    assert_eq!(discover_root("/a", &tree), Ok("/a/.context".to_string()));
    assert_eq!(discover_root("/x/y", &tree), Ok("/.context".to_string()));
    assert_eq!(find_context_root("/a/b/c", &tree), Ok("/a/.context".to_string()));
}

#[test]
fn discover_needs_a_directory() {
    let mut tree = FileTree::new();
    tree.insert("/a/b/.context".to_string(), Entry::File(vec![]));
    assert_eq!(discover_root("/a/b", &tree), Err(ContextError::NotARepository));
    assert_eq!(discover_root("/a/b", &FileTree::new()), Err(ContextError::NotARepository));
    assert_eq!(find_context_root("", &FileTree::new()), Err(ContextError::NotARepository));
}

#[test]
fn white_space_is_what_unicode_says() {
    for code in 0u32..0x3100 {
        if let Some(c) = char::from_u32(code) {
            assert_eq!(is_space(c), c.is_whitespace(), "at {:x}", code);
        }
    }
    assert_eq!(to_chars("a\u{e9}\u{2603}"), vec!['a', '\u{e9}', '\u{2603}']);
}

#[test]
fn text_map_binds_keys_in_order() {
    let mut map: TextMap<u32> = TextMap::new();
    assert!(map.is_empty());
    map.insert("b".to_string(), 1);
    map.insert("a".to_string(), 2);
    map.insert("b".to_string(), 3);
    assert_eq!(map.len(), 2);
    assert!(!map.is_empty());
    assert_eq!(map.get("b"), Some(&3));
    assert_eq!(map.get("a"), Some(&2));
    assert_eq!(map.get("c"), None);
    assert!(map.contains_key("a"));
    assert!(!map.contains_key(""));
    assert_eq!(map.key_at(0), "b");
    assert_eq!(map.value_at(0), &3);
    assert_eq!(map.key_at(1), "a");
    assert_eq!(map.value_at(1), &2);
}

fn ordinary(location: &str) -> bool {
    !location.contains("//")
        && (location == "/" || !location.ends_with('/'))
        && location.split('/').all(|part| part != ".")
}

fn stem_by_std(location: &str) -> String {
    std::path::Path::new(location)
        .file_stem()
        .and_then(|s| s.to_str())
        .unwrap_or("unknown")
        .to_string()
}

fn root_by_std(location: &str) -> Option<String> {
    let path = std::path::Path::new(location);
    let mut current = path.parent();
    while let Some(dir) = current {
        if dir.file_name().is_some_and(|n| n == ".context") {
            return dir.parent().map(|p| p.to_string_lossy().into_owned());
        }
        current = dir.parent();
    }
    None
}

#[test]
fn names_agree_with_std_paths_on_all_short_locations() {
    let alphabet = ['/', '.', 'a', 'm', 'd'];
    let mut text = String::new();
    for length in 0..=7usize {
        for number in 0..alphabet.len().pow(length as u32) {
            text.clear();
            let mut rest = number;
            for _ in 0..length {
                text.push(alphabet[rest % alphabet.len()]);
                rest /= alphabet.len();
            }
            if !ordinary(&text) {
                continue;
            }
            let path = std::path::Path::new(&text);
            assert_eq!(
                has_document_suffix(&text),
                path.extension().is_some_and(|e| e == "md"),
                "suffix of {:?}",
                text
            );
            assert_eq!(
                context::frontmatter::slug_from_location(&text),
                stem_by_std(&text),
                "slug of {:?}",
                text
            );
        }
    }
}

#[test]
fn roots_and_joins_agree_with_std_paths() {
    let parts = [".context", "a", "..", "x.md", ".md", ".contexts", "context"];
    let mut seed = 0x9e3779b9u32;
    let mut next = |bound: usize| {
        seed ^= seed << 13;
        seed ^= seed >> 17;
        seed ^= seed << 5;
        (seed % bound as u32) as usize
    };
    for _ in 0..20000 {
        let mut location = String::new();
        if next(2) == 0 {
            location.push('/');
        }
        let count = next(6);
        for k in 0..count {
            if k > 0 {
                location.push('/');
            }
            location.push_str(parts[next(parts.len())]);
        }
        assert!(ordinary(&location));
        assert_eq!(project_root_of_location(&location), root_by_std(&location), "root of {:?}", location);
        let mut rel = String::new();
        if next(4) == 0 {
            rel.push('/');
        }
        rel.push_str(parts[next(parts.len())]);
        let joined = std::path::Path::new(&location).join(&rel);
        assert_eq!(join(&location, &rel), joined.to_string_lossy(), "join of {:?} and {:?}", location, rel);
    }
}
