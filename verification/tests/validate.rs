use context::paths::{validate_path, PathError};
use context::tree::{Entry, FileTree};

fn project() -> FileTree {
    let mut tree = FileTree::new();
    tree.insert("/proj/src".to_string(), Entry::Directory);
    tree.insert("/proj/src/exists.rs".to_string(), Entry::File(b"// content".to_vec()));
    tree.insert("/proj/src/subdir".to_string(), Entry::Directory);
    tree
}

#[test]
fn test_validate_absolute_path() {
    let tree = project();
    assert_eq!(validate_path("/etc/passwd", "/proj", &tree), Err(PathError::Absolute));
}

#[test]
fn test_validate_parent_traversal() {
    let tree = project();
    assert_eq!(validate_path("../escape.rs", "/proj", &tree), Err(PathError::ParentTraversal));
}

#[test]
fn test_validate_not_found() {
    let tree = project();
    assert_eq!(validate_path("src/missing.rs", "/proj", &tree), Err(PathError::NotFound));
}

#[test]
fn test_validate_is_directory() {
    let tree = project();
    assert_eq!(validate_path("src/subdir", "/proj", &tree), Err(PathError::IsDirectory));
}

#[test]
fn test_validate_existing_file() {
    let tree = project();
    assert_eq!(validate_path("src/exists.rs", "/proj", &tree), Ok("src/exists.rs".to_string()));
}

#[test]
fn test_validate_normalizes_dot_slash() {
    let tree = project();
    assert_eq!(validate_path("./src/exists.rs", "/proj", &tree), Ok("src/exists.rs".to_string()));
}

#[test]
fn absolute_path_is_refused_even_where_it_exists() {
    let mut tree = project();
    tree.insert("/etc/passwd".to_string(), Entry::File(vec![1, 2, 3]));
    assert_eq!(validate_path("/etc/passwd", "/proj", &tree), Err(PathError::Absolute));
    assert_eq!(validate_path("/etc/passwd", "/proj", &FileTree::new()), Err(PathError::Absolute));
}

#[test]
fn parent_traversal_is_refused_even_where_it_exists() {
    let mut tree = project();
    tree.insert("/proj/../x".to_string(), Entry::File(vec![1]));
    assert_eq!(validate_path("../x", "/proj", &tree), Err(PathError::ParentTraversal));
    assert_eq!(validate_path("a/../x", "/proj", &tree), Err(PathError::ParentTraversal));
    assert_eq!(validate_path("a..b", "/proj", &tree), Err(PathError::ParentTraversal));
}

#[test]
fn absolute_comes_before_parent_traversal() {
    assert_eq!(validate_path("/a/../b", "/proj", &FileTree::new()), Err(PathError::Absolute));
}

#[test]
fn unreadable_file_is_accepted() {
    let mut tree = FileTree::new();
    tree.insert("/proj/locked.rs".to_string(), Entry::Unreadable("denied".to_string()));
    assert_eq!(validate_path("./locked.rs", "/proj", &tree), Ok("locked.rs".to_string()));
}

#[test]
fn later_entry_replaces_earlier() {
    let mut tree = FileTree::new();
    tree.insert("/proj/a".to_string(), Entry::Directory);
    tree.insert("/proj/a".to_string(), Entry::File(vec![]));
    assert_eq!(tree.lookup("/proj/a"), Some(&Entry::File(vec![])));
    assert_eq!(tree.lookup("/proj/b"), None);
}

#[test]
fn path_error_messages() {
    assert_eq!(PathError::Absolute.message(), "absolute path not allowed");
    assert_eq!(PathError::ParentTraversal.message(), "parent traversal (..) not allowed");
    assert_eq!(PathError::NotFound.message(), "file not found");
    assert_eq!(PathError::IsDirectory.message(), "path is a directory, not a file");
}

#[test]
fn dotted_absolute_mention_is_looked_up_where_it_points() {
    let mut tree = project();
    tree.insert("/etc/passwd".to_string(), Entry::File(vec![1]));
    assert_eq!(validate_path(".//etc/passwd", "/proj", &tree), Ok("/etc/passwd".to_string()));
    assert_eq!(validate_path(".//etc/shadow", "/proj", &tree), Err(PathError::NotFound));
}
